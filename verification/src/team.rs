use itertools::Itertools;
use vstd::prelude::*;

use crate::dice::{count_somes, pick_one, pick_some, Dice};
use crate::friend::{sat, Friend};
use crate::modifier::{lemma_modifier_is_honey, Modifier};
use crate::species::{lemma_species_code_round_trip, Species};
use crate::TEAM_SIZE;

verus! {

/// Up to five friends.  The front of the team is at index 0, attacking and
/// defending first.  Committed teams keep their occupied slots packed
/// against the front; gaps appear only transiently while units are shuffled
/// around.
#[derive(Clone, Debug, PartialEq, Eq, PartialOrd, Ord, Hash)]
pub struct Team(pub Vec<Option<Friend>>);

impl View for Team {
    type V = Seq<Option<Friend>>;

    open spec fn view(&self) -> Seq<Option<Friend>> {
        self.0@
    }
}

/// The occupied slots' units, front first, gaps skipped.
pub open spec fn occupied(s: Seq<Option<Friend>>) -> Seq<Friend>
    decreases s.len(),
{
    if s.len() == 0 {
        Seq::empty()
    } else {
        occupied(s.drop_last()) + match s.last() {
            Some(f) => seq![f],
            None => Seq::empty(),
        }
    }
}

/// No occupied slot follows an empty one.
pub open spec fn is_compact(s: Seq<Option<Friend>>) -> bool {
    forall|i: int, j: int| 0 <= i < j < s.len() && s[i] is None ==> s[j] is None
}

/// Some slot behind `i` is empty.
pub open spec fn empty_behind(s: Seq<Option<Friend>>, i: int) -> bool {
    exists|j: int| i < j < s.len() && (#[trigger] s[j]) is None
}

/// The slots after the block `i..j` is pushed one step back into the empty
/// slot at `j`, vacating `i`.
pub open spec fn shifted_back(s: Seq<Option<Friend>>, i: int, j: int) -> Seq<Option<Friend>> {
    Seq::new(
        s.len(),
        |p: int|
            if p < i {
                s[p]
            } else if p == i {
                None
            } else if p <= j {
                s[p - 1]
            } else {
                s[p]
            },
    )
}

/// The slots after the block `j+1..=i` is pulled one step forward into the
/// empty slot at `j`, vacating `i`.
pub open spec fn shifted_front(s: Seq<Option<Friend>>, j: int, i: int) -> Seq<Option<Friend>> {
    Seq::new(
        s.len(),
        |p: int|
            if p < j {
                s[p]
            } else if p < i {
                s[p + 1]
            } else if p == i {
                None
            } else {
                s[p]
            },
    )
}

/// The first empty slot at or after `k`, or the sequence length if none.
pub open spec fn first_empty_from(s: Seq<Option<Friend>>, k: int) -> int
    decreases s.len() - k,
{
    if k < 0 || k >= s.len() {
        s.len() as int
    } else if s[k] is None {
        k
    } else {
        first_empty_from(s, k + 1)
    }
}

/// What making space at `i` does: nothing if the slot is already empty;
/// else the block up to the nearest empty slot behind `i` slides one step
/// back; else the block from the first empty slot slides one step forward;
/// on a full team, nothing.
pub open spec fn make_space_spec(s: Seq<Option<Friend>>, i: int) -> Seq<Option<Friend>> {
    if s[i] is None {
        s
    } else if first_empty_from(s, i + 1) < s.len() {
        shifted_back(s, i, first_empty_from(s, i + 1))
    } else if first_empty_from(s, 0) < i {
        shifted_front(s, first_empty_from(s, 0), i)
    } else {
        s
    }
}

/// The first-empty searcher finds exactly the slot the scan loops find.
proof fn lemma_first_empty_at(s: Seq<Option<Friend>>, k: int, j: int)
    requires
        0 <= k <= j < s.len(),
        s[j] is None,
        forall|p: int| k <= p < j ==> s[p] is Some,
    ensures
        first_empty_from(s, k) == j,
    decreases j - k,
{
    if k < j {
        lemma_first_empty_at(s, k + 1, j);
    }
}

/// With no empty slot in `[k, len)`, the searcher runs off the end.
proof fn lemma_first_empty_none(s: Seq<Option<Friend>>, k: int)
    requires
        0 <= k <= s.len(),
        forall|p: int| k <= p < s.len() ==> s[p] is Some,
    ensures
        first_empty_from(s, k) == s.len(),
    decreases s.len() - k,
{
    if k < s.len() {
        lemma_first_empty_none(s, k + 1);
    }
}

/// What a death at the vacated slot `i` does when the dead unit is not an
/// ant (the one death effect that draws from the dice): the cricket's
/// ghost appears, then the sweetener's helper if there is room for it.
pub open spec fn spec_on_death(s: Seq<Option<Friend>>, f: Friend, i: int) -> Seq<Option<Friend>> {
    let after = if f.species == Species::Cricket {
        summoned(s, ghost_of(f), i)
    } else {
        s
    };
    if f.modifier == Some(Modifier::Honey) {
        if after[i] is None {
            summoned(after, spawned_bee(), i)
        } else if count_somes(after) < TEAM_SIZE {
            summoned(make_space_spec(after, i), spawned_bee(), i)
        } else {
            after
        }
    } else {
        after
    }
}

/// One scan step of the death pass: a dead unit at `k` is detached and its
/// death effects fire into the vacated slot; anything else is left alone.
pub open spec fn swept_slot(s: Seq<Option<Friend>>, k: int) -> Seq<Option<Friend>> {
    if s[k] is Some && (s[k]->0).health == 0 {
        spec_on_death(s.update(k, None), s[k]->0, k)
    } else {
        s
    }
}

/// The whole death scan from slot `k` onward.
pub open spec fn sweep_from(s: Seq<Option<Friend>>, k: int) -> Seq<Option<Friend>>
    decreases TEAM_SIZE - k,
{
    if k < 0 || k >= TEAM_SIZE {
        s
    } else {
        sweep_from(swept_slot(s, k), k + 1)
    }
}

/// What removing the dead does to a team with no ants: scan, fire the
/// death effects, and pack the survivors once if anything died.
pub open spec fn spec_remove_dead(s: Seq<Option<Friend>>) -> Seq<Option<Friend>> {
    if exists|j: int| 0 <= j < s.len() && (#[trigger] s[j] matches Some(f) && f.health == 0) {
        compacted(sweep_from(s, 0))
    } else {
        s
    }
}

/// Every slot's unit, if any, has well-formed stats.
pub open spec fn slots_wf(s: Seq<Option<Friend>>) -> bool {
    forall|i: int| 0 <= i < s.len() ==> (#[trigger] s[i] matches Some(f) ==> f.wf())
}

/// How many death-triggered effects the units of a sequence can still set
/// off: one per cricket (ghost respawn), one per ant (death buff), one per
/// honey modifier (helper spawn).  Battles consume these and never create
/// them, which bounds the death-respawn cascade.
pub open spec fn token_count(f: Friend) -> nat {
    (if f.species == Species::Cricket {
        1nat
    } else {
        0nat
    }) + (if f.species == Species::Ant {
        1nat
    } else {
        0nat
    }) + (if f.modifier == Some(Modifier::Honey) {
        1nat
    } else {
        0nat
    })
}

pub open spec fn token_sum(fs: Seq<Friend>) -> nat
    decreases fs.len(),
{
    if fs.len() == 0 {
        0
    } else {
        token_sum(fs.drop_last()) + token_count(fs.last())
    }
}

pub open spec fn health_sum(fs: Seq<Friend>) -> nat
    decreases fs.len(),
{
    if fs.len() == 0 {
        0
    } else {
        health_sum(fs.drop_last()) + fs.last().health as nat
    }
}

/// How many units of one kind in a sequence are still alive.
pub open spec fn alive_count(fs: Seq<Friend>, sp: Species) -> nat
    decreases fs.len(),
{
    if fs.len() == 0 {
        0
    } else {
        alive_count(fs.drop_last(), sp) + if fs.last().health >= 1 && fs.last().species == sp {
            1nat
        } else {
            0nat
        }
    }
}

/// How many alive units of one kind a slot holds (zero or one).
pub open spec fn slot_alive(v: Option<Friend>, sp: Species) -> nat {
    match v {
        Some(f) => if f.health >= 1 && f.species == sp {
            1nat
        } else {
            0nat
        },
        None => 0,
    }
}

/// How many alive units of one kind stand on the team.
pub open spec fn team_alive(s: Seq<Option<Friend>>, sp: Species) -> nat {
    alive_count(occupied(s), sp)
}

/// How many units of one kind a sequence holds, dead or alive.
pub open spec fn species_sum(fs: Seq<Friend>, sp: Species) -> nat
    decreases fs.len(),
{
    if fs.len() == 0 {
        0
    } else {
        species_sum(fs.drop_last(), sp) + if fs.last().species == sp {
            1nat
        } else {
            0nat
        }
    }
}

/// How many units of one kind a slot holds (zero or one).
pub open spec fn slot_species(v: Option<Friend>, sp: Species) -> nat {
    match v {
        Some(f) => if f.species == sp {
            1nat
        } else {
            0nat
        },
        None => 0,
    }
}

/// How many units of one kind stand on the team, dead or alive.
pub open spec fn team_species(s: Seq<Option<Friend>>, sp: Species) -> nat {
    species_sum(occupied(s), sp)
}

pub proof fn lemma_species_sum_add(a: Seq<Friend>, b: Seq<Friend>, sp: Species)
    ensures
        species_sum(a + b, sp) == species_sum(a, sp) + species_sum(b, sp),
    decreases b.len(),
{
    if b.len() == 0 {
        assert(a + b =~= a);
    } else {
        assert((a + b).drop_last() =~= a + b.drop_last());
        lemma_species_sum_add(a, b.drop_last(), sp);
    }
}

pub proof fn lemma_alive_count_add(a: Seq<Friend>, b: Seq<Friend>, sp: Species)
    ensures
        alive_count(a + b, sp) == alive_count(a, sp) + alive_count(b, sp),
    decreases b.len(),
{
    if b.len() == 0 {
        assert(a + b =~= a);
    } else {
        assert((a + b).drop_last() =~= a + b.drop_last());
        lemma_alive_count_add(a, b.drop_last(), sp);
    }
}

pub proof fn lemma_occupied_add(a: Seq<Option<Friend>>, b: Seq<Option<Friend>>)
    ensures
        occupied(a + b) == occupied(a) + occupied(b),
    decreases b.len(),
{
    if b.len() == 0 {
        assert(a + b =~= a);
        assert(occupied(a) + occupied(b) =~= occupied(a));
    } else {
        assert((a + b).drop_last() =~= a + b.drop_last());
        lemma_occupied_add(a, b.drop_last());
        assert(occupied(a + b) =~= occupied(a) + occupied(b));
    }
}

pub proof fn lemma_token_sum_add(a: Seq<Friend>, b: Seq<Friend>)
    ensures
        token_sum(a + b) == token_sum(a) + token_sum(b),
    decreases b.len(),
{
    if b.len() == 0 {
        assert(a + b =~= a);
    } else {
        assert((a + b).drop_last() =~= a + b.drop_last());
        lemma_token_sum_add(a, b.drop_last());
    }
}

pub proof fn lemma_health_sum_add(a: Seq<Friend>, b: Seq<Friend>)
    ensures
        health_sum(a + b) == health_sum(a) + health_sum(b),
    decreases b.len(),
{
    if b.len() == 0 {
        assert(a + b =~= a);
    } else {
        assert((a + b).drop_last() =~= a + b.drop_last());
        lemma_health_sum_add(a, b.drop_last());
    }
}

/// The occupied units of a single slot.
pub proof fn lemma_occupied_one(v: Option<Friend>)
    ensures
        occupied(seq![v]) == match v {
            Some(f) => seq![f],
            None => Seq::<Friend>::empty(),
        },
{
    assert(seq![v].len() == 1);
    assert(seq![v].last() == v);
    assert(seq![v].drop_last() =~= Seq::<Option<Friend>>::empty());
    assert(occupied(Seq::<Option<Friend>>::empty()) == Seq::<Friend>::empty());
    match v {
        Some(f) => {
            assert(occupied(seq![v]) =~= seq![f]);
        },
        None => {
            assert(occupied(seq![v]) =~= Seq::<Friend>::empty());
        },
    }
}

/// Splits the occupied units of a sequence around one slot.
pub proof fn lemma_occupied_split_at(s: Seq<Option<Friend>>, k: int)
    requires
        0 <= k < s.len(),
    ensures
        occupied(s) == occupied(s.take(k)) + occupied(seq![s[k]]) + occupied(s.skip(k + 1)),
{
    assert(s =~= s.take(k) + seq![s[k]] + s.skip(k + 1));
    lemma_occupied_add(s.take(k) + seq![s[k]], s.skip(k + 1));
    lemma_occupied_add(s.take(k), seq![s[k]]);
}

pub proof fn lemma_occupied_len(s: Seq<Option<Friend>>)
    ensures
        occupied(s).len() == count_somes(s),
    decreases s.len(),
{
    if s.len() > 0 {
        lemma_occupied_len(s.drop_last());
    }
}

/// A compact sequence with an occupied unit somewhere is occupied in front.
pub proof fn lemma_compact_front(s: Seq<Option<Friend>>)
    requires
        is_compact(s),
        count_somes(s) > 0,
    ensures
        s.len() > 0,
        s[0] is Some,
    decreases s.len(),
{
    if s.len() > 0 && s[0] is None {
        assert(forall|j: int| 0 < j < s.len() ==> s[j] is None);
        lemma_all_none(s);
    }
}

proof fn lemma_all_none(s: Seq<Option<Friend>>)
    requires
        forall|j: int| 0 <= j < s.len() ==> s[j] is None,
    ensures
        count_somes(s) == 0,
    decreases s.len(),
{
    if s.len() > 0 {
        lemma_all_none(s.drop_last());
    }
}

pub proof fn lemma_count_somes_le(s: Seq<Option<Friend>>)
    ensures
        count_somes(s) <= s.len(),
    decreases s.len(),
{
    if s.len() > 0 {
        lemma_count_somes_le(s.drop_last());
    }
}

proof fn lemma_count_somes_full(s: Seq<Option<Friend>>)
    requires
        forall|j: int| 0 <= j < s.len() ==> s[j] is Some,
    ensures
        count_somes(s) == s.len(),
    decreases s.len(),
{
    if s.len() > 0 {
        lemma_count_somes_full(s.drop_last());
    }
}

impl Team {
    /// Stats in range for every unit on the team.
    pub open spec fn wf(self) -> bool {
        self@.len() == TEAM_SIZE && slots_wf(self@)
    }

    pub fn new() -> (t: Team)
        ensures
            t.wf(),
            t@.len() == TEAM_SIZE,
            forall|i: int| 0 <= i < t@.len() ==> t@[i] is None,
            occupied(t@) == Seq::<Friend>::empty(),
            is_compact(t@),
    {
        let mut v: Vec<Option<Friend>> = Vec::new();
        let mut i: usize = 0;
        while i < TEAM_SIZE
            invariant
                i <= TEAM_SIZE,
                v@.len() == i,
                forall|j: int| 0 <= j < i ==> v@[j] is None,
            decreases TEAM_SIZE - i,
        {
            v.push(None);
            i = i + 1;
        }
        proof {
            lemma_all_none_occupied(v@);
        }
        Team(v)
    }

    /// How many slots are occupied.
    pub fn count(&self) -> (n: usize)
        ensures
            n == count_somes(self@),
            n == occupied(self@).len(),
    {
        let mut n: usize = 0;
        let len = self.0.len();
        for i in 0..len
            invariant
                len == self@.len(),
                n == count_somes(self@.take(i as int)),
                n <= i,
        {
            proof {
                crate::dice::lemma_count_somes_take_step(self@, i as int);
            }
            if self.0[i].is_some() {
                n = n + 1;
            }
        }
        proof {
            assert(self@.take(len as int) =~= self@);
            lemma_occupied_len(self@);
        }
        n
    }

    pub fn is_empty(&self) -> (r: bool)
        ensures
            r == (count_somes(self@) == 0),
    {
        self.count() == 0
    }
}

proof fn lemma_all_none_occupied(s: Seq<Option<Friend>>)
    requires
        forall|j: int| 0 <= j < s.len() ==> s[j] is None,
    ensures
        occupied(s) == Seq::<Friend>::empty(),
    decreases s.len(),
{
    if s.len() > 0 {
        lemma_all_none_occupied(s.drop_last());
        assert(occupied(s) =~= Seq::<Friend>::empty());
    }
}

impl Team {
    /// Builds a compact team from the given units, front first.
    pub fn from_friends(fs: &Vec<Friend>) -> (t: Team)
        requires
            fs@.len() <= TEAM_SIZE,
        ensures
            t@.len() == TEAM_SIZE,
            occupied(t@) == fs@,
            is_compact(t@),
            forall|i: int| 0 <= i < fs@.len() ==> t@[i] == Some(fs@[i]),
            forall|i: int| fs@.len() <= i < TEAM_SIZE ==> t@[i] is None,
    {
        let mut v: Vec<Option<Friend>> = Vec::new();
        let n = fs.len();
        proof {
            assert(occupied(v@) =~= fs@.take(0));
        }
        let mut i: usize = 0;
        while i < TEAM_SIZE
            invariant
                i <= TEAM_SIZE,
                n == fs@.len() <= TEAM_SIZE,
                v@.len() == i,
                occupied(v@) == fs@.take(if i <= n {
                    i as int
                } else {
                    n as int
                }),
                forall|j: int| 0 <= j < i && j < n ==> v@[j] == Some(fs@[j]),
                forall|j: int| n <= j < i ==> v@[j] is None,
            decreases TEAM_SIZE - i,
        {
            let ghost prev = v@;
            if i < n {
                v.push(Some(fs[i]));
                proof {
                    assert(v@.drop_last() =~= prev);
                    assert(occupied(v@) =~= fs@.take(i + 1));
                }
            } else {
                v.push(None);
                proof {
                    assert(v@.drop_last() =~= prev);
                    assert(occupied(v@) =~= occupied(prev));
                }
            }
            i = i + 1;
        }
        proof {
            assert(fs@.take(n as int) =~= fs@);
        }
        Team(v)
    }

    /// Collects the occupied units, front first.
    pub fn friends(&self) -> (fs: Vec<Friend>)
        ensures
            fs@ == occupied(self@),
    {
        let mut fs: Vec<Friend> = Vec::new();
        let len = self.0.len();
        for i in 0..len
            invariant
                len == self@.len(),
                fs@ == occupied(self@.take(i as int)),
        {
            proof {
                assert(self@.take(i + 1).drop_last() =~= self@.take(i as int));
            }
            match self.0[i] {
                Some(f) => {
                    fs.push(f);
                    proof {
                        assert(fs@ =~= occupied(self@.take(i + 1)));
                    }
                },
                None => {
                    proof {
                        assert(fs@ =~= occupied(self@.take(i + 1)));
                    }
                },
            }
        }
        proof {
            assert(self@.take(len as int) =~= self@);
        }
        fs
    }

    /// Slides the occupied slots down against the front, preserving their
    /// relative order.
    pub fn compact(&mut self)
        requires
            old(self)@.len() == TEAM_SIZE,
        ensures
            final(self)@.len() == TEAM_SIZE,
            occupied(final(self)@) == occupied(old(self)@),
            is_compact(final(self)@),
            forall|i: int| 0 <= i < occupied(old(self)@).len() ==> final(self)@[i] == Some(
                occupied(old(self)@)[i],
            ),
            forall|i: int|
                occupied(old(self)@).len() <= i < TEAM_SIZE ==> final(self)@[i] is None,
            old(self).wf() ==> final(self).wf(),
    {
        let fs = self.friends();
        proof {
            lemma_occupied_len(self@);
            lemma_count_somes_le(self@);
        }
        let t = Team::from_friends(&fs);
        proof {
            if old(self).wf() {
                lemma_occupied_wf(old(self)@);
            }
        }
        *self = t;
    }

    /// A copy of the team with every unit's experience reset, used when
    /// deduplicating teams: experience does not matter in battle.
    pub fn without_exp(&self) -> (t: Team)
        ensures
            t@.len() == self@.len(),
            forall|i: int| 0 <= i < self@.len() ==> match #[trigger] self@[i] {
                Some(f) => t@[i] == Some(Friend { exp: 0usize, ..f }),
                None => t@[i] is None,
            },
            self.wf() ==> t.wf(),
    {
        let mut v: Vec<Option<Friend>> = Vec::new();
        let len = self.0.len();
        for i in 0..len
            invariant
                len == self@.len(),
                v@.len() == i,
                forall|j: int| 0 <= j < i ==> match #[trigger] self@[j] {
                    Some(f) => v@[j] == Some(Friend { exp: 0usize, ..f }),
                    None => v@[j] is None,
                },
        {
            match self.0[i] {
                Some(f) => {
                    v.push(Some(Friend { exp: 0, ..f }));
                },
                None => {
                    v.push(None);
                },
            }
        }
        let t = Team(v);
        proof {
            if self.wf() {
                assert forall|j: int| 0 <= j < t@.len() implies (#[trigger] t@[j] matches Some(f)
                    ==> f.wf()) by {
                    match self@[j] {
                        Some(f0) => {
                            assert(f0.wf());
                            assert(t@[j] == Some(Friend { exp: 0usize, ..f0 }));
                        },
                        None => {
                            assert(t@[j] is None);
                        },
                    }
                }
            }
        }
        t
    }

    /// A team this small and this plain is not worth reporting: every slot
    /// could have been filled with a stock purchase instead.
    pub open spec fn is_dumb_spec(self) -> bool {
        count_somes(self@) <= 3 && forall|i: int| 0 <= i < self@.len() ==> (#[trigger] self@[i]
            matches Some(f) ==> f.modifier is None && f.has_default_power_spec())
    }

    /// Checks whether the team is "dumb": it has no more units than could be
    /// bought outright and all of them still carry stock stats and no
    /// modifier.
    pub fn is_dumb(&self) -> (r: bool)
        ensures
            r == self.is_dumb_spec(),
    {
        if self.count() > 3 {
            return false;
        }
        let len = self.0.len();
        for i in 0..len
            invariant
                len == self@.len(),
                count_somes(self@) <= 3,
                forall|j: int| 0 <= j < i ==> (#[trigger] self@[j] matches Some(f) ==> f.modifier
                    is None && f.has_default_power_spec()),
        {
            match &self.0[i] {
                Some(f) => {
                    if f.modifier.is_some() || !f.has_default_power() {
                        return false;
                    }
                },
                None => {},
            }
        }
        true
    }

    /// Picks up to `n` distinct occupied slots at random.
    pub fn random_friends<D: Dice>(&self, n: usize, dice: &mut D) -> (r: Vec<usize>)
        ensures
            r@.len() == if n <= count_somes(self@) {
                n as nat
            } else {
                count_somes(self@)
            },
            forall|a: int| 0 <= a < r@.len() ==> #[trigger] r@[a] < self@.len()
                && self@[r@[a] as int] is Some,
            forall|a: int, b: int| 0 <= a < b < r@.len() ==> r@[a] != r@[b],
            n == 0 || count_somes(self@) == 0 ==> *final(dice) == *old(dice),
    {
        pick_some(dice, n, &self.0)
    }

    /// Picks one occupied slot at random, or `None` on an empty team.
    pub fn random_friend<D: Dice>(&self, dice: &mut D) -> (r: Option<usize>)
        ensures
            r is Some <==> count_somes(self@) > 0,
            r is Some ==> r->0 < self@.len() && self@[r->0 as int] is Some,
            count_somes(self@) == 0 ==> *final(dice) == *old(dice),
    {
        pick_one(dice, &self.0)
    }

    /// Frees the given slot by shifting neighbours towards the first empty
    /// slot behind it, or, failing that, in front of it.  On a full team
    /// there is no room and the team is left untouched.
    pub fn make_space_at(&mut self, i: usize) -> (r: bool)
        requires
            old(self)@.len() == TEAM_SIZE,
            i < TEAM_SIZE,
        ensures
            final(self)@.len() == TEAM_SIZE,
            occupied(final(self)@) == occupied(old(self)@),
            r ==> final(self)@[i as int] is None,
            !r ==> final(self)@ == old(self)@,
            old(self)@[i as int] is None ==> final(self)@ == old(self)@,
            r == (old(self)@[i as int] is None || count_somes(old(self)@) < TEAM_SIZE),
            forall|p: int| 0 <= p < i ==> final(self)@[p] == old(self)@[p] || final(self)@[p]
                == old(self)@[p + 1],
            old(self)@[i as int] is Some && empty_behind(old(self)@, i as int) ==> exists|j: int|
                i < j < TEAM_SIZE && (#[trigger] old(self)@[j]) is None && (forall|p: int|
                    i < p < j ==> old(self)@[p] is Some) && final(self)@ == shifted_back(
                    old(self)@,
                    i as int,
                    j,
                ),
            old(self)@[i as int] is Some && !empty_behind(old(self)@, i as int) && r ==> exists|
                j: int,
            |
                0 <= j < i && (#[trigger] old(self)@[j]) is None && (forall|p: int|
                    0 <= p < j ==> old(self)@[p] is Some) && final(self)@ == shifted_front(
                    old(self)@,
                    j,
                    i as int,
                ),
            final(self)@ == make_space_spec(old(self)@, i as int),
            old(self).wf() ==> final(self).wf(),
    {
        if self.0[i].is_none() {
            proof {
                lemma_count_somes_le(self@);
            }
            return true;
        }
        proof {
            assert(old(self)@[i as int] is Some);
        }
        let ghost orig = self@;
        // Look for an empty slot behind the target slot, and shift friends
        // backwards (away from the front) to free up slot i.
        let mut j: usize = i + 1;
        while j < TEAM_SIZE
            invariant
                self@ == orig,
                orig == old(self)@,
                orig[i as int] is Some,
                orig.len() == TEAM_SIZE,
                i < j <= TEAM_SIZE,
                forall|p: int| i < p < j ==> orig[p] is Some,
            decreases TEAM_SIZE - j,
        {
            if self.0[j].is_none() {
                let mut k: usize = j;
                while k > i
                    invariant
                        orig == old(self)@,
                        orig.len() == TEAM_SIZE,
                        self@.len() == TEAM_SIZE,
                        i <= k <= j < TEAM_SIZE,
                        orig[j as int] is None,
                        forall|p: int| 0 <= p < k ==> self@[p] == orig[p],
                        self@[k as int] is None,
                        forall|p: int| k < p <= j ==> self@[p] == orig[p - 1],
                        forall|p: int| j < p < TEAM_SIZE ==> self@[p] == orig[p],
                    decreases k,
                {
                    self.0[k] = self.0[k - 1];
                    self.0[k - 1] = None;
                    k = k - 1;
                }
                proof {
                    lemma_occupied_shift_back(orig, self@, i as int, j as int);
                    lemma_count_somes_none(orig, j as int);
                    assert(self@ =~= shifted_back(orig, i as int, j as int));
                    assert(empty_behind(orig, i as int));
                    lemma_first_empty_at(orig, i + 1, j as int);
                    if old(self).wf() {
                        assert forall|p: int| 0 <= p < self@.len() implies (#[trigger] self@[p]
                            matches Some(f) ==> f.wf()) by {
                            if p < i {
                                assert(self@[p] == orig[p]);
                            } else if p == i {
                            } else if p <= j {
                                assert(self@[p] == orig[p - 1]);
                            } else {
                                assert(self@[p] == orig[p]);
                            }
                        }
                    }
                }
                return true;
            }
            j = j + 1;
        }
        // Otherwise, look for an empty slot in front of the target slot, and
        // shift friends forwards (towards the front).
        let mut j: usize = 0;
        while j < i
            invariant
                self@ == orig,
                orig == old(self)@,
                orig.len() == TEAM_SIZE,
                i < TEAM_SIZE,
                j <= i,
                forall|p: int| 0 <= p < j ==> orig[p] is Some,
                forall|p: int| i <= p < TEAM_SIZE ==> orig[p] is Some,
            decreases i - j,
        {
            if self.0[j].is_none() {
                let mut k: usize = j;
                while k < i
                    invariant
                        orig == old(self)@,
                        orig.len() == TEAM_SIZE,
                        self@.len() == TEAM_SIZE,
                        j <= k <= i < TEAM_SIZE,
                        orig[j as int] is None,
                        forall|p: int| 0 <= p < j ==> self@[p] == orig[p],
                        forall|p: int| j <= p < k ==> self@[p] == orig[p + 1],
                        self@[k as int] is None,
                        forall|p: int| k < p < TEAM_SIZE ==> self@[p] == orig[p],
                    decreases i - k,
                {
                    self.0[k] = self.0[k + 1];
                    self.0[k + 1] = None;
                    k = k + 1;
                }
                proof {
                    lemma_occupied_shift_front(orig, self@, j as int, i as int);
                    lemma_count_somes_none(orig, j as int);
                    assert(self@ =~= shifted_front(orig, j as int, i as int));
                    if empty_behind(orig, i as int) {
                        let w = choose|w: int| i < w < orig.len() && (#[trigger] orig[w]) is None;
                        assert(false);
                    }
                    lemma_first_empty_none(orig, i + 1);
                    lemma_first_empty_at(orig, 0, j as int);
                    if old(self).wf() {
                        assert forall|p: int| 0 <= p < self@.len() implies (#[trigger] self@[p]
                            matches Some(f) ==> f.wf()) by {
                            if p < j {
                                assert(self@[p] == orig[p]);
                            } else if p < i {
                                assert(self@[p] == orig[p + 1]);
                            } else if p == i {
                            } else {
                                assert(self@[p] == orig[p]);
                            }
                        }
                    }
                }
                return true;
            }
            j = j + 1;
        }
        proof {
            lemma_count_somes_full(orig);
            if empty_behind(orig, i as int) {
                let w = choose|w: int| i < w < orig.len() && (#[trigger] orig[w]) is None;
                assert(false);
            }
            lemma_first_empty_none(orig, i + 1);
            lemma_first_empty_none(orig, 0);
        }
        false
    }
}

/// Units of a fully alive slot sequence all have positive health.
proof fn lemma_occupied_alive(s: Seq<Option<Friend>>)
    requires
        all_alive(s),
    ensures
        forall|i: int| 0 <= i < occupied(s).len() ==> (#[trigger] occupied(s)[i]).health >= 1,
    decreases s.len(),
{
    if s.len() > 0 {
        assert(all_alive(s.drop_last()));
        lemma_occupied_alive(s.drop_last());
        let pre = occupied(s.drop_last());
        assert(s[s.len() - 1] == s.last());
        match s.last() {
            Some(f) => {
                assert(f.health >= 1);
                assert forall|i: int| 0 <= i < occupied(s).len() implies (#[trigger] occupied(
                    s,
                )[i]).health >= 1 by {
                    if i < pre.len() {
                        assert(occupied(s)[i] == pre[i]);
                    } else {
                        assert(occupied(s)[i] == f);
                    }
                }
            },
            None => {
                assert(occupied(s) =~= pre);
            },
        }
    }
}

/// Units of a well-formed slot sequence are themselves well formed.
proof fn lemma_occupied_wf(s: Seq<Option<Friend>>)
    requires
        slots_wf(s),
    ensures
        forall|i: int| 0 <= i < occupied(s).len() ==> (#[trigger] occupied(s)[i]).wf(),
    decreases s.len(),
{
    if s.len() > 0 {
        assert(slots_wf(s.drop_last()));
        lemma_occupied_wf(s.drop_last());
        let pre = occupied(s.drop_last());
        assert(s[s.len() - 1] == s.last());
        match s.last() {
            Some(f) => {
                assert(f.wf());
                assert forall|i: int| 0 <= i < occupied(s).len() implies (#[trigger] occupied(
                    s,
                )[i]).wf() by {
                    if i < pre.len() {
                        assert(occupied(s)[i] == pre[i]);
                    } else {
                        assert(occupied(s)[i] == f);
                    }
                }
            },
            None => {
                assert(occupied(s) =~= pre);
            },
        }
    }
}

/// Shifting a block one step towards an empty slot behind it keeps the
/// occupied units and their order: `a` is `orig` with the empty slot moved
/// from `n` to `m` and the units in between moved one step back.
proof fn lemma_occupied_shift_back(orig: Seq<Option<Friend>>, a: Seq<Option<Friend>>, m: int, n: int)
    requires
        0 <= m < n < orig.len(),
        a.len() == orig.len(),
        orig[n] is None,
        a[m] is None,
        forall|p: int| 0 <= p < m ==> a[p] == orig[p],
        forall|p: int| m < p <= n ==> a[p] == orig[p - 1],
        forall|p: int| n < p < orig.len() ==> a[p] == orig[p],
    ensures
        occupied(a) == occupied(orig),
{
    let t = orig.take(m);
    let blk = orig.subrange(m, n);
    let rest = orig.skip(n + 1);
    let hole = seq![Option::<Friend>::None];
    assert(orig =~= t + blk + hole + rest);
    assert(a =~= t + hole + blk + rest);
    lemma_occupied_add(t + blk + hole, rest);
    lemma_occupied_add(t + blk, hole);
    lemma_occupied_add(t, blk);
    lemma_occupied_add(t + hole + blk, rest);
    lemma_occupied_add(t + hole, blk);
    lemma_occupied_add(t, hole);
    lemma_occupied_one(Option::<Friend>::None);
    assert(occupied(a) =~= occupied(orig));
}

/// The mirror image: `a` is `orig` with the empty slot moved from `m` to
/// `n` and the units in between moved one step forward.
proof fn lemma_occupied_shift_front(
    orig: Seq<Option<Friend>>,
    a: Seq<Option<Friend>>,
    m: int,
    n: int,
)
    requires
        0 <= m < n < orig.len(),
        a.len() == orig.len(),
        orig[m] is None,
        a[n] is None,
        forall|p: int| 0 <= p < m ==> a[p] == orig[p],
        forall|p: int| m <= p < n ==> a[p] == orig[p + 1],
        forall|p: int| n < p < orig.len() ==> a[p] == orig[p],
    ensures
        occupied(a) == occupied(orig),
{
    let t = orig.take(m);
    let blk = orig.subrange(m + 1, n + 1);
    let rest = orig.skip(n + 1);
    let hole = seq![Option::<Friend>::None];
    assert(orig =~= t + hole + blk + rest);
    assert(a =~= t + blk + hole + rest);
    lemma_occupied_add(t + blk + hole, rest);
    lemma_occupied_add(t + blk, hole);
    lemma_occupied_add(t, blk);
    lemma_occupied_add(t + hole + blk, rest);
    lemma_occupied_add(t + hole, blk);
    lemma_occupied_add(t, hole);
    lemma_occupied_one(Option::<Friend>::None);
    assert(occupied(a) =~= occupied(orig));
}

proof fn lemma_count_somes_none(s: Seq<Option<Friend>>, k: int)
    requires
        0 <= k < s.len(),
        s[k] is None,
    ensures
        count_somes(s) < s.len(),
    decreases s.len(),
{
    if k == s.len() - 1 {
        lemma_count_somes_le(s.drop_last());
    } else {
        lemma_count_somes_none(s.drop_last(), k);
    }
}

/// The death-trigger tokens held by one slot.
pub open spec fn slot_tokens(v: Option<Friend>) -> nat {
    match v {
        Some(f) => token_count(f),
        None => 0,
    }
}

/// The health held by one slot.
pub open spec fn slot_health(v: Option<Friend>) -> nat {
    match v {
        Some(f) => f.health as nat,
        None => 0,
    }
}

/// Death-trigger tokens held by a whole team.
pub open spec fn team_tokens(s: Seq<Option<Friend>>) -> nat {
    token_sum(occupied(s))
}

/// Total health of a whole team.
pub open spec fn team_health(s: Seq<Option<Friend>>) -> nat {
    health_sum(occupied(s))
}

proof fn lemma_sum_one(f: Friend)
    ensures
        token_sum(seq![f]) == token_count(f),
        health_sum(seq![f]) == f.health as nat,
        forall|sp: Species| #[trigger] alive_count(seq![f], sp) == slot_alive(Some(f), sp),
        forall|sp: Species| #[trigger] species_sum(seq![f], sp) == slot_species(Some(f), sp),
{
    assert(seq![f].len() == 1);
    assert(seq![f].last() == f);
    assert(seq![f].drop_last() =~= Seq::<Friend>::empty());
    assert(token_sum(Seq::<Friend>::empty()) == 0);
    assert(health_sum(Seq::<Friend>::empty()) == 0);
    assert forall|sp: Species| #[trigger] alive_count(seq![f], sp) == slot_alive(
        Some(f),
        sp,
    ) by {
        assert(alive_count(Seq::<Friend>::empty(), sp) == 0);
    }
    assert forall|sp: Species| #[trigger] species_sum(seq![f], sp) == slot_species(
        Some(f),
        sp,
    ) by {
        assert(species_sum(Seq::<Friend>::empty(), sp) == 0);
    }
}

/// The slots with every dead unit detached, positions kept.
pub open spec fn cleared(s: Seq<Option<Friend>>) -> Seq<Option<Friend>> {
    Seq::new(
        s.len(),
        |p: int|
            match s[p] {
                Some(g) => if g.health == 0 {
                    None
                } else {
                    Some(g)
                },
                None => None,
            },
    )
}

/// The slots packed against the front, order kept.
pub open spec fn compacted(s: Seq<Option<Friend>>) -> Seq<Option<Friend>> {
    Seq::new(
        s.len(),
        |p: int|
            if p < occupied(s).len() {
                Some(occupied(s)[p])
            } else {
                None
            },
    )
}

/// What removing the dead does to a team with no death triggers: dead
/// slots are detached and, if there were any, the survivors are packed.
pub open spec fn swept(s: Seq<Option<Friend>>) -> Seq<Option<Friend>> {
    if exists|j: int| 0 <= j < s.len() && (#[trigger] s[j] matches Some(f) && f.health == 0) {
        compacted(cleared(s))
    } else {
        s
    }
}

/// How replacing one slot moves the team's measures.
pub proof fn lemma_update_measures(s: Seq<Option<Friend>>, k: int, v: Option<Friend>)
    requires
        0 <= k < s.len(),
    ensures
        team_tokens(s.update(k, v)) + slot_tokens(s[k]) == team_tokens(s) + slot_tokens(v),
        team_health(s.update(k, v)) + slot_health(s[k]) == team_health(s) + slot_health(v),
        count_somes(s.update(k, v)) + (if s[k] is Some {
            1nat
        } else {
            0nat
        }) == count_somes(s) + (if v is Some {
            1nat
        } else {
            0nat
        }),
        forall|sp: Species| #[trigger] team_alive(s.update(k, v), sp) + slot_alive(s[k], sp)
            == team_alive(s, sp) + slot_alive(v, sp),
        forall|sp: Species| #[trigger] team_species(s.update(k, v), sp) + slot_species(s[k], sp)
            == team_species(s, sp) + slot_species(v, sp),
{
    let u = s.update(k, v);
    lemma_occupied_split_at(s, k);
    lemma_occupied_split_at(u, k);
    assert(u.take(k) =~= s.take(k));
    assert(u.skip(k + 1) =~= s.skip(k + 1));
    lemma_occupied_one(s[k]);
    lemma_occupied_one(v);
    let a = occupied(s.take(k));
    let b = occupied(s.skip(k + 1));
    lemma_token_sum_add(a + occupied(seq![s[k]]), b);
    lemma_token_sum_add(a, occupied(seq![s[k]]));
    lemma_token_sum_add(a + occupied(seq![v]), b);
    lemma_token_sum_add(a, occupied(seq![v]));
    lemma_health_sum_add(a + occupied(seq![s[k]]), b);
    lemma_health_sum_add(a, occupied(seq![s[k]]));
    lemma_health_sum_add(a + occupied(seq![v]), b);
    lemma_health_sum_add(a, occupied(seq![v]));
    lemma_occupied_len(s);
    lemma_occupied_len(u);
    assert forall|sp: Species| #[trigger] team_alive(s.update(k, v), sp) + slot_alive(s[k], sp)
        == team_alive(s, sp) + slot_alive(v, sp) by {
        lemma_alive_count_add(a + occupied(seq![s[k]]), b, sp);
        lemma_alive_count_add(a, occupied(seq![s[k]]), sp);
        lemma_alive_count_add(a + occupied(seq![v]), b, sp);
        lemma_alive_count_add(a, occupied(seq![v]), sp);
        match s[k] {
            Some(f) => {
                lemma_sum_one(f);
                assert(occupied(seq![s[k]]) == seq![f]);
            },
            None => {},
        }
        match v {
            Some(f) => {
                lemma_sum_one(f);
                assert(occupied(seq![v]) == seq![f]);
            },
            None => {},
        }
    }
    assert forall|sp: Species| #[trigger] team_species(s.update(k, v), sp) + slot_species(
        s[k],
        sp,
    ) == team_species(s, sp) + slot_species(v, sp) by {
        lemma_species_sum_add(a + occupied(seq![s[k]]), b, sp);
        lemma_species_sum_add(a, occupied(seq![s[k]]), sp);
        lemma_species_sum_add(a + occupied(seq![v]), b, sp);
        lemma_species_sum_add(a, occupied(seq![v]), sp);
        match s[k] {
            Some(f) => {
                lemma_sum_one(f);
                assert(occupied(seq![s[k]]) == seq![f]);
            },
            None => {},
        }
        match v {
            Some(f) => {
                lemma_sum_one(f);
                assert(occupied(seq![v]) == seq![f]);
            },
            None => {},
        }
    }
    match s[k] {
        Some(f) => {
            lemma_sum_one(f);
            assert(occupied(seq![s[k]]) == seq![f]);
        },
        None => {},
    }
    match v {
        Some(f) => {
            lemma_sum_one(f);
            assert(occupied(seq![v]) == seq![f]);
        },
        None => {},
    }
}

/// How many horses stand on slots other than `pos`; each buffs a unit
/// summoned at `pos` by one point of health and attack.
pub open spec fn horses_except(s: Seq<Option<Friend>>, pos: int) -> nat
    decreases s.len(),
{
    if s.len() == 0 {
        0
    } else {
        horses_except(s.drop_last(), pos) + if s.len() - 1 != pos && (s.last() matches Some(f)
            && f.species == Species::Horse) {
            1nat
        } else {
            0nat
        }
    }
}

proof fn lemma_horses_except_take_step(s: Seq<Option<Friend>>, pos: int, i: int)
    requires
        0 <= i < s.len(),
    ensures
        horses_except(s.take(i + 1), pos) == horses_except(s.take(i), pos) + if i != pos && (s[i]
            matches Some(f) && f.species == Species::Horse) {
            1nat
        } else {
            0nat
        },
{
    assert(s.take(i + 1).drop_last() =~= s.take(i));
    assert(s.take(i + 1).last() == s[i]);
}

/// The slots after `f` is summoned at `pos`: the newcomer lands there,
/// buffed once by every horse on the other slots.
pub open spec fn summoned(s: Seq<Option<Friend>>, f: Friend, pos: int) -> Seq<Option<Friend>> {
    s.update(
        pos,
        Some(
            Friend {
                health: sat(f.health + horses_except(s, pos)),
                attack: sat(f.attack + horses_except(s, pos)),
                ..f
            },
        ),
    )
}

/// The ghost a cricket leaves behind: its level for both stats.
pub open spec fn ghost_of(f: Friend) -> Friend {
    Friend {
        species: Species::GhostCricket,
        attack: f.level_spec(),
        health: f.level_spec(),
        modifier: None,
        exp: 0,
    }
}

/// The helper a sweetened unit spawns on death.
pub open spec fn spawned_bee() -> Friend {
    Friend { species: Species::Bee, attack: 1, health: 1, modifier: None, exp: 0 }
}

/// A unit after the death buff of ant `f`: its level in health, twice its
/// level in attack.
pub open spec fn ant_buffed(g: Friend, f: Friend) -> Friend {
    Friend {
        health: sat(g.health + f.level_spec()),
        attack: sat(g.attack + 2 * f.level_spec()),
        ..g
    }
}

/// `h` can stand in for `g`: same kind, modifier and experience, and stats
/// no worse.
pub open spec fn dominates(h: Friend, g: Friend) -> bool {
    h.species == g.species && h.modifier == g.modifier && h.exp == g.exp && h.health >= g.health
        && h.attack >= g.attack
}

/// Some slot holds a unit standing in for `g`.
pub open spec fn has_cover(s: Seq<Option<Friend>>, g: Friend) -> bool {
    exists|q: int| 0 <= q < s.len() && (#[trigger] s[q] matches Some(h) && dominates(h, g))
}

/// Raising one unit's stats never removes cover.
proof fn lemma_cover_update_raise(s: Seq<Option<Friend>>, k: int, h2: Friend)
    requires
        0 <= k < s.len(),
        s[k] matches Some(h) && dominates(h2, h),
    ensures
        forall|g: Friend| #[trigger] has_cover(s, g) ==> has_cover(s.update(k, Some(h2)), g),
{
    assert forall|g: Friend| #[trigger] has_cover(s, g) implies has_cover(
        s.update(k, Some(h2)),
        g,
    ) by {
        let q = choose|q: int| 0 <= q < s.len() && (#[trigger] s[q] matches Some(h) && dominates(
            h,
            g,
        ));
        if q == k {
            assert(s.update(k, Some(h2))[k] matches Some(h) && dominates(h, g));
        } else {
            assert(s.update(k, Some(h2))[q] matches Some(h) && dominates(h, g));
        }
    }
}

/// Clearing a slot whose unit is dead keeps cover of every living unit.
proof fn lemma_cover_clear_dead(s: Seq<Option<Friend>>, k: int)
    requires
        0 <= k < s.len(),
        s[k] matches Some(d) && d.health == 0,
    ensures
        forall|g: Friend| g.health >= 1 && #[trigger] has_cover(s, g) ==> has_cover(
            s.update(k, None),
            g,
        ),
{
    assert forall|g: Friend| g.health >= 1 && #[trigger] has_cover(s, g) implies has_cover(
        s.update(k, None),
        g,
    ) by {
        let q = choose|q: int| 0 <= q < s.len() && (#[trigger] s[q] matches Some(h) && dominates(
            h,
            g,
        ));
        assert(q != k);
        assert(s.update(k, None)[q] matches Some(h) && dominates(h, g));
    }
}

/// Filling an empty slot keeps cover.
proof fn lemma_cover_insert(s: Seq<Option<Friend>>, k: int, f: Friend)
    requires
        0 <= k < s.len(),
        s[k] is None,
    ensures
        forall|g: Friend| #[trigger] has_cover(s, g) ==> has_cover(s.update(k, Some(f)), g),
{
    assert forall|g: Friend| #[trigger] has_cover(s, g) implies has_cover(
        s.update(k, Some(f)),
        g,
    ) by {
        let q = choose|q: int| 0 <= q < s.len() && (#[trigger] s[q] matches Some(h) && dominates(
            h,
            g,
        ));
        assert(q != k);
        assert(s.update(k, Some(f))[q] matches Some(h) && dominates(h, g));
    }
}

/// Every occupied slot's unit appears among the occupied units.
proof fn lemma_slot_in_occupied(s: Seq<Option<Friend>>, q: int)
    requires
        0 <= q < s.len(),
        s[q] is Some,
    ensures
        exists|idx: int| 0 <= idx < occupied(s).len() && #[trigger] occupied(s)[idx] == s[q]->0,
    decreases s.len(),
{
    if q == s.len() - 1 {
        assert(occupied(s)[occupied(s.drop_last()).len() as int] == s[q]->0);
    } else {
        lemma_slot_in_occupied(s.drop_last(), q);
        let idx = choose|idx: int|
            0 <= idx < occupied(s.drop_last()).len() && #[trigger] occupied(s.drop_last())[idx]
                == s.drop_last()[q]->0;
        assert(occupied(s)[idx] == s[q]->0);
    }
}

/// Every occupied unit stands on some slot.
proof fn lemma_occupied_in_slot(s: Seq<Option<Friend>>, idx: int)
    requires
        0 <= idx < occupied(s).len(),
    ensures
        exists|q: int| 0 <= q < s.len() && #[trigger] s[q] == Some(occupied(s)[idx]),
    decreases s.len(),
{
    if s.len() > 0 {
        if idx < occupied(s.drop_last()).len() {
            lemma_occupied_in_slot(s.drop_last(), idx);
            let q = choose|q: int|
                0 <= q < s.drop_last().len() && #[trigger] s.drop_last()[q] == Some(
                    occupied(s.drop_last())[idx],
                );
            assert(s[q] == Some(occupied(s)[idx]));
        } else {
            assert(s[s.len() - 1] == Some(occupied(s)[idx]));
        }
    }
}

/// Cover carries between arrangements holding the same units.
proof fn lemma_cover_occupied(s1: Seq<Option<Friend>>, s2: Seq<Option<Friend>>)
    requires
        occupied(s1) == occupied(s2),
    ensures
        forall|g: Friend| #[trigger] has_cover(s1, g) ==> has_cover(s2, g),
{
    assert forall|g: Friend| #[trigger] has_cover(s1, g) implies has_cover(s2, g) by {
        let q = choose|q: int| 0 <= q < s1.len() && (#[trigger] s1[q] matches Some(h) && dominates(
            h,
            g,
        ));
        lemma_slot_in_occupied(s1, q);
        let idx = choose|idx: int|
            0 <= idx < occupied(s1).len() && #[trigger] occupied(s1)[idx] == s1[q]->0;
        lemma_occupied_in_slot(s2, idx);
        let q2 = choose|q2: int| 0 <= q2 < s2.len() && #[trigger] s2[q2] == Some(
            occupied(s2)[idx],
        );
        assert(s2[q2] matches Some(h) && dominates(h, g));
    }
}

impl Team {
    /// Asks the unit at slot `i` to react to a new unit summoned at slot
    /// `pos`: a horse buffs the newcomer by one health and one attack.
    pub fn on_summon(&mut self, i: usize, pos: usize)
        requires
            i < TEAM_SIZE,
            pos < TEAM_SIZE,
            i != pos,
            old(self)@.len() == TEAM_SIZE,
            old(self)@[i as int] is Some,
            old(self)@[pos as int] is Some,
        ensures
            final(self)@.len() == TEAM_SIZE,
            forall|j: int| 0 <= j < TEAM_SIZE && j != pos ==> final(self)@[j] == old(self)@[j],
            (old(self)@[i as int]->0).species == Species::Horse ==> {
                let g = old(self)@[pos as int]->0;
                final(self)@[pos as int] == Some(
                    Friend {
                        health: sat(g.health + 1),
                        attack: sat(g.attack + 1),
                        ..g
                    },
                )
            },
            (old(self)@[i as int]->0).species != Species::Horse ==> final(self)@ == old(self)@,
            old(self).wf() ==> final(self).wf(),
            team_tokens(final(self)@) == team_tokens(old(self)@),
            count_somes(final(self)@) == count_somes(old(self)@),
            forall|sp: Species| #[trigger] team_alive(final(self)@, sp) >= team_alive(
                old(self)@,
                sp,
            ),
            forall|sp: Species| #[trigger] team_species(final(self)@, sp) == team_species(
                old(self)@,
                sp,
            ),
            forall|g: Friend| #[trigger] has_cover(old(self)@, g) ==> has_cover(final(self)@, g),
    {
        let horse = match &self.0[i] {
            Some(f) => f.species.is_horse(),
            None => false,
        };
        if horse {
            let mut g = self.0[pos].unwrap();
            g.buff(1, 1);
            self.0[pos] = Some(g);
            proof {
                lemma_update_measures(old(self)@, pos as int, self@[pos as int]);
                assert(self@ =~= old(self)@.update(pos as int, self@[pos as int]));
                lemma_cover_update_raise(old(self)@, pos as int, self@[pos as int]->0);
                if old(self).wf() {
                    assert forall|p: int| 0 <= p < self@.len() implies (#[trigger] self@[p]
                        matches Some(f) ==> f.wf()) by {
                        if p != pos {
                            assert(self@[p] == old(self)@[p]);
                        }
                    }
                }
            }
        }
    }

    /// Places a unit into an empty slot and lets every other occupied slot
    /// react to the summon, in slot order.
    pub fn summon(&mut self, friend: Friend, team_pos: usize)
        requires
            team_pos < TEAM_SIZE,
            old(self)@.len() == TEAM_SIZE,
            old(self)@[team_pos as int] is None,
        ensures
            final(self)@.len() == TEAM_SIZE,
            forall|j: int| 0 <= j < TEAM_SIZE && j != team_pos ==> final(self)@[j] == old(self)@[j],
            final(self)@[team_pos as int] == Some(
                Friend {
                    health: sat(friend.health + horses_except(old(self)@, team_pos as int)),
                    attack: sat(friend.attack + horses_except(old(self)@, team_pos as int)),
                    ..friend
                },
            ),
            count_somes(final(self)@) == count_somes(old(self)@) + 1,
            team_tokens(final(self)@) == team_tokens(old(self)@) + token_count(friend),
            old(self).wf() && friend.wf() ==> final(self).wf(),
            forall|sp: Species| #[trigger] team_alive(final(self)@, sp) >= team_alive(
                old(self)@,
                sp,
            ),
            forall|sp: Species| #[trigger] team_species(final(self)@, sp) == team_species(
                old(self)@,
                sp,
            ) + slot_species(Some(friend), sp),
            final(self)@ == summoned(old(self)@, friend, team_pos as int),
            forall|g: Friend| #[trigger] has_cover(old(self)@, g) ==> has_cover(final(self)@, g),
    {
        self.0[team_pos] = Some(friend);
        proof {
            lemma_cover_insert(old(self)@, team_pos as int, friend);
            lemma_update_measures(old(self)@, team_pos as int, Some(friend));
            assert(self@ =~= old(self)@.update(team_pos as int, Some(friend)));
            assert(horses_except(old(self)@.take(0), team_pos as int) == 0);
        }
        let mut i: usize = 0;
        while i < TEAM_SIZE
            invariant
                i <= TEAM_SIZE,
                self@.len() == TEAM_SIZE,
                old(self)@.len() == TEAM_SIZE,
                old(self)@[team_pos as int] is None,
                team_pos < TEAM_SIZE,
                forall|j: int| 0 <= j < TEAM_SIZE && j != team_pos ==> self@[j] == old(self)@[j],
                self@[team_pos as int] == Some(
                    Friend {
                        health: sat(
                            friend.health + horses_except(
                                old(self)@.take(i as int),
                                team_pos as int,
                            ),
                        ),
                        attack: sat(
                            friend.attack + horses_except(
                                old(self)@.take(i as int),
                                team_pos as int,
                            ),
                        ),
                        ..friend
                    },
                ),
                count_somes(self@) == count_somes(old(self)@) + 1,
                team_tokens(self@) == team_tokens(old(self)@) + token_count(friend),
                old(self).wf() && friend.wf() ==> self.wf(),
                forall|sp: Species| #[trigger] team_alive(self@, sp) >= team_alive(
                    old(self)@,
                    sp,
                ),
                forall|sp: Species| #[trigger] team_species(self@, sp) == team_species(
                    old(self)@,
                    sp,
                ) + slot_species(Some(friend), sp),
                forall|g: Friend| #[trigger] has_cover(old(self)@, g) ==> has_cover(self@, g),
            decreases TEAM_SIZE - i,
        {
            proof {
                lemma_horses_except_take_step(old(self)@, team_pos as int, i as int);
            }
            if i != team_pos && self.0[i].is_some() {
                let ghost pre = self@;
                self.on_summon(i, team_pos);
                proof {
                    let g = pre[team_pos as int]->0;
                    if (pre[i as int]->0).species == Species::Horse {
                        assert(self@[team_pos as int] == Some(
                            Friend {
                                health: sat(g.health + 1),
                                attack: sat(g.attack + 1),
                                ..g
                            },
                        ));
                    }
                    lemma_update_measures(pre, team_pos as int, self@[team_pos as int]);
                    assert(self@ =~= pre.update(team_pos as int, self@[team_pos as int]));
                }
            }
            i = i + 1;
        }
        proof {
            assert(old(self)@.take(TEAM_SIZE as int) =~= old(self)@);
            assert(self@ =~= summoned(old(self)@, friend, team_pos as int));
        }
    }
}

impl Team {
    /// Fires the dead unit's on-death ability into its vacated slot `i`,
    /// then lets its modifier spawn a helper if there is room: a cricket
    /// leaves a ghost behind, an ant buffs a random survivor, and a honey
    /// carrier spawns a small helper.  None of these creates new
    /// death-trigger tokens, which is what bounds the respawn cascade.
    pub fn on_death<D: Dice>(&mut self, f: Friend, i: usize, dice: &mut D)
        requires
            i < TEAM_SIZE,
            old(self).wf(),
            old(self)@[i as int] is None,
            f.wf(),
        ensures
            final(self).wf(),
            team_tokens(final(self)@) == team_tokens(old(self)@),
            token_count(f) == 0 ==> *final(self) == *old(self) && *final(dice) == *old(dice),
            f.species != Species::Ant ==> *final(dice) == *old(dice),
            f.species == Species::Ant && count_somes(old(self)@) == 0 ==> *final(dice) == *old(
                dice,
            ),
            f.species == Species::Cricket && f.modifier is None ==> final(self)@[i as int]
                is Some && (final(self)@[i as int]->0).species == Species::GhostCricket,
            (forall|p: int| 0 <= p <= i ==> (#[trigger] old(self)@[p] matches Some(g) ==> g.health
                >= 1)) ==> (forall|p: int| 0 <= p <= i ==> (#[trigger] final(self)@[p]
                matches Some(g) ==> g.health >= 1)),
            forall|sp: Species| #[trigger] team_alive(final(self)@, sp) >= team_alive(
                old(self)@,
                sp,
            ),
            forall|sp: Species|
                sp != Species::GhostCricket && sp != Species::Bee ==> #[trigger] team_species(
                    final(self)@,
                    sp,
                ) == team_species(old(self)@, sp),
            f.species == Species::Cricket && f.modifier is None ==> final(self)@ == summoned(
                old(self)@,
                ghost_of(f),
                i as int,
            ),
            f.species == Species::Ant && f.modifier is None && count_somes(old(self)@) == 0
                ==> final(self)@ == old(self)@,
            f.species == Species::Ant && f.modifier is None && count_somes(old(self)@) > 0
                ==> exists|j: int|
                0 <= j < old(self)@.len() && old(self)@[j] is Some && final(self)@ == old(
                    self,
                )@.update(j, Some(ant_buffed(old(self)@[j]->0, f))),
            f.species != Species::Cricket && f.species != Species::Ant && f.modifier == Some(
                Modifier::Honey,
            ) ==> final(self)@ == summoned(old(self)@, spawned_bee(), i as int),
            f.species == Species::Ant && f.modifier == Some(Modifier::Honey) && count_somes(
                old(self)@,
            ) == 0 ==> final(self)@ == summoned(old(self)@, spawned_bee(), i as int),
            f.species == Species::Ant && f.modifier == Some(Modifier::Honey) && count_somes(
                old(self)@,
            ) > 0 ==> exists|j: int|
                0 <= j < old(self)@.len() && old(self)@[j] is Some && final(self)@ == summoned(
                    old(self)@.update(j, Some(ant_buffed(old(self)@[j]->0, f))),
                    spawned_bee(),
                    i as int,
                ),
            f.species == Species::Cricket && f.modifier == Some(Modifier::Honey) && count_somes(
                old(self)@,
            ) + 1 == TEAM_SIZE ==> final(self)@ == summoned(old(self)@, ghost_of(f), i as int),
            forall|g: Friend| #[trigger] has_cover(old(self)@, g) ==> has_cover(final(self)@, g),
            f.species == Species::Cricket && f.modifier == Some(Modifier::Honey) && count_somes(
                old(self)@,
            ) + 1 < TEAM_SIZE ==> final(self)@ == summoned(
                make_space_spec(summoned(old(self)@, ghost_of(f), i as int), i as int),
                spawned_bee(),
                i as int,
            ),
            f.species != Species::Ant ==> final(self)@ == spec_on_death(old(self)@, f, i as int),
    {
        match f.species {
            Species::Cricket => {
                let lvl = f.level();
                let spawned = Friend {
                    species: Species::GhostCricket,
                    attack: lvl,
                    health: lvl,
                    modifier: None,
                    exp: 0,
                };
                self.summon(spawned, i);
            },
            Species::Ant => {
                match self.random_friend(dice) {
                    Some(j) => {
                        let lvl = f.level();
                        let mut g = self.0[j].unwrap();
                        g.buff(lvl, 2 * lvl);
                        let ghost pre = self@;
                        self.0[j] = Some(g);
                        proof {
                            lemma_update_measures(pre, j as int, Some(g));
                            assert(self@ =~= pre.update(j as int, Some(g)));
                            lemma_cover_update_raise(pre, j as int, g);
                            assert forall|p: int| 0 <= p < self@.len() implies (
                            #[trigger] self@[p] matches Some(h) ==> h.wf()) by {
                                if p != j {
                                    assert(self@[p] == pre[p]);
                                }
                            }
                        }
                    },
                    None => {},
                }
            },
            _ => {},
        }
        let ghost mid = self@;
        match f.modifier {
            Some(Modifier::Honey) => {
                let bee = Friend {
                    species: Species::Bee,
                    attack: 1,
                    health: 1,
                    modifier: None,
                    exp: 0,
                };
                let ghost pre = self@;
                if self.make_space_at(i) {
                    proof {
                        assert(team_tokens(self@) == team_tokens(pre));
                        assert(team_health(self@) == team_health(pre));
                        lemma_occupied_len(self@);
                        lemma_occupied_len(pre);
                        lemma_cover_occupied(pre, self@);
                    }
                    self.summon(bee, i);
                }
            },
            None => {},
        }
        proof {
            if token_count(f) == 0 {
                match f.modifier {
                    Some(m) => {
                        lemma_modifier_is_honey(m);
                    },
                    None => {},
                }
            }
            assert forall|sp: Species| #[trigger] team_alive(self@, sp) >= team_alive(
                old(self)@,
                sp,
            ) by {
                assert(team_alive(mid, sp) >= team_alive(old(self)@, sp));
            }
            assert forall|sp: Species|
                sp != Species::GhostCricket && sp != Species::Bee implies #[trigger] team_species(
                    self@,
                    sp,
                ) == team_species(old(self)@, sp) by {
                assert(team_species(mid, sp) == team_species(old(self)@, sp));
            }
        }
    }

    /// Detaches every unit whose health has reached zero, fires its
    /// on-death ability, and finally packs the survivors against the front.
    /// Death abilities can heal or spawn, but each such effect consumes a
    /// death-trigger token, so the team's (tokens, units, health) measure
    /// strictly shrinks whenever something died.
    pub fn remove_dead<D: Dice>(&mut self, dice: &mut D)
        requires
            old(self).wf(),
        ensures
            final(self).wf(),
            all_alive(final(self)@),
            forall|sp: Species| #[trigger] team_alive(final(self)@, sp) >= team_alive(
                old(self)@,
                sp,
            ),
            forall|sp: Species|
                sp != Species::GhostCricket && sp != Species::Bee ==> #[trigger] team_species(
                    final(self)@,
                    sp,
                ) <= team_species(old(self)@, sp),
            forall|p: int|
                0 <= p < old(self)@.len() ==> (#[trigger] old(self)@[p] matches Some(g) ==> (
                g.health >= 1 ==> has_cover(final(self)@, g))),
            is_compact(old(self)@) ==> is_compact(final(self)@),
            (exists|j: int| 0 <= j < old(self)@.len() && (#[trigger] old(self)@[j] matches Some(f)
                && f.health == 0)) ==> is_compact(final(self)@),
            (forall|p: int| 0 <= p < old(self)@.len() ==> slot_tokens(#[trigger] old(self)@[p])
                == 0) && (exists|j: int|
                0 <= j < old(self)@.len() && (#[trigger] old(self)@[j] matches Some(f)
                    && f.health == 0)) ==> final(self)@ == compacted(cleared(old(self)@)),
            (forall|p: int| 0 <= p < old(self)@.len() ==> slot_tokens(#[trigger] old(self)@[p])
                == 0) ==> final(self)@ == swept(old(self)@),
            team_species(old(self)@, Species::Ant) == 0 ==> final(self)@ == spec_remove_dead(
                old(self)@,
            ),
            (forall|j: int| 0 <= j < old(self)@.len() ==> (#[trigger] old(self)@[j] matches Some(
                f,
            ) ==> f.health > 0)) ==> *final(dice) == *old(dice),
            team_tokens(final(self)@) <= team_tokens(old(self)@),
            (forall|j: int| 0 <= j < old(self)@.len() ==> (#[trigger] old(self)@[j] matches Some(
                f,
            ) ==> f.health > 0)) ==> final(self)@ == old(self)@,
            (exists|j: int| 0 <= j < old(self)@.len() && (#[trigger] old(self)@[j] matches Some(f)
                && f.health == 0)) ==> (team_tokens(final(self)@) < team_tokens(old(self)@) || (
            team_tokens(final(self)@) == team_tokens(old(self)@) && count_somes(final(self)@)
                < count_somes(old(self)@) && team_health(final(self)@) <= team_health(
                old(self)@,
            ))),
    {
        let mut changed = false;
        let mut i: usize = 0;
        while i < TEAM_SIZE
            invariant
                i <= TEAM_SIZE,
                old(self)@.len() == TEAM_SIZE,
                self.wf(),
                team_tokens(self@) <= team_tokens(old(self)@),
                !changed ==> self@ == old(self)@ && *dice == *old(dice),
                changed ==> (exists|j: int| 0 <= j < old(self)@.len() && (#[trigger] old(self)@[j] matches Some(f) && f.health == 0)),
                (exists|j: int| 0 <= j < i && (#[trigger] old(self)@[j] matches Some(f)
                    && f.health == 0)) ==> changed,
                forall|p: int| 0 <= p < i ==> (#[trigger] self@[p] matches Some(g) ==> g.health
                    >= 1),
                forall|sp: Species| #[trigger] team_alive(self@, sp) >= team_alive(
                    old(self)@,
                    sp,
                ),
                forall|sp: Species|
                    sp != Species::GhostCricket && sp != Species::Bee ==> #[trigger] team_species(
                        self@,
                        sp,
                    ) <= team_species(old(self)@, sp),
                forall|g: Friend| g.health >= 1 && #[trigger] has_cover(old(self)@, g)
                    ==> has_cover(self@, g),
                (forall|p: int|
                    0 <= p < old(self)@.len() ==> slot_tokens(#[trigger] old(self)@[p]) == 0)
                    ==> (forall|p: int|
                    0 <= p < TEAM_SIZE ==> #[trigger] self@[p] == (if p < i {
                        cleared(old(self)@)[p]
                    } else {
                        old(self)@[p]
                    })),
                team_species(old(self)@, Species::Ant) == 0 ==> team_species(
                    self@,
                    Species::Ant,
                ) == 0 && sweep_from(old(self)@, 0) == sweep_from(self@, i as int),
                changed ==> (team_tokens(self@) < team_tokens(old(self)@) || (team_tokens(self@)
                    == team_tokens(old(self)@) && count_somes(self@) < count_somes(old(self)@)
                    && team_health(self@) <= team_health(old(self)@))),
            decreases TEAM_SIZE - i,
        {
            let dead = match &self.0[i] {
                Some(f) => f.health == 0,
                None => false,
            };
            if dead {
                let f = self.0[i].unwrap();
                let ghost pre = self@;
                self.0[i] = None;
                proof {
                    lemma_update_measures(pre, i as int, None);
                    assert(self@ =~= pre.update(i as int, None));
                    lemma_cover_clear_dead(pre, i as int);
                    assert forall|p: int| 0 <= p < self@.len() implies (#[trigger] self@[p]
                        matches Some(h) ==> h.wf()) by {
                        if p != i {
                            assert(self@[p] == pre[p]);
                        }
                    }
                }
                let ghost cleared_state = self@;
                self.on_death(f, i, dice);
                proof {
                    if team_species(old(self)@, Species::Ant) == 0 {
                        lemma_team_species_zero(pre, Species::Ant);
                        assert(f.species != Species::Ant);
                        assert(cleared_state == pre.update(i as int, Option::<Friend>::None));
                        assert(self@ == spec_on_death(cleared_state, f, i as int));
                        assert(swept_slot(pre, i as int) == self@);
                        assert(sweep_from(pre, i as int) == sweep_from(self@, i + 1));
                        lemma_team_species_zero(self@, Species::Ant);
                    }
                }
                proof {
                    assert forall|sp: Species| #[trigger] team_alive(self@, sp) >= team_alive(
                        old(self)@,
                        sp,
                    ) by {
                        assert(slot_alive(pre[i as int], sp) == 0);
                        assert(team_alive(cleared_state, sp) >= team_alive(pre, sp));
                        assert(team_alive(self@, sp) >= team_alive(cleared_state, sp));
                    }
                    assert forall|sp: Species|
                        sp != Species::GhostCricket && sp != Species::Bee implies #[trigger] team_species(
                            self@,
                            sp,
                        ) <= team_species(old(self)@, sp) by {
                        assert(team_species(cleared_state, sp) <= team_species(pre, sp));
                        assert(team_species(self@, sp) == team_species(cleared_state, sp));
                    }
                }
                changed = true;
            }
            i = i + 1;
        }
        if changed {
            proof {
                lemma_occupied_len(self@);
                lemma_occupied_len(old(self)@);
            }
            let ghost pre = self@;
            self.compact();
            proof {
                lemma_cover_occupied(pre, self@);
                lemma_occupied_len(self@);
                assert(team_tokens(self@) == team_tokens(pre));
                assert(team_health(self@) == team_health(pre));
                assert(count_somes(self@) == count_somes(pre));
                lemma_occupied_alive(pre);
                assert forall|p: int| 0 <= p < self@.len() implies (#[trigger] self@[p]
                    matches Some(g) ==> g.health >= 1) by {
                    if p < occupied(pre).len() {
                        assert(self@[p] == Some(occupied(pre)[p]));
                    }
                }
                assert forall|sp: Species| #[trigger] team_alive(self@, sp) >= team_alive(
                    old(self)@,
                    sp,
                ) by {
                    assert(team_alive(self@, sp) == team_alive(pre, sp));
                }
                assert forall|sp: Species|
                    sp != Species::GhostCricket && sp != Species::Bee implies #[trigger] team_species(
                        self@,
                        sp,
                    ) <= team_species(old(self)@, sp) by {
                    assert(team_species(self@, sp) == team_species(pre, sp));
                }
                if forall|p: int|
                    0 <= p < old(self)@.len() ==> slot_tokens(#[trigger] old(self)@[p]) == 0 {
                    assert(pre =~= cleared(old(self)@));
                    assert(self@ =~= compacted(cleared(old(self)@)));
                }
            }
        }
        proof {
            assert forall|p: int|
                0 <= p < old(self)@.len() && old(self)@[p] is Some && (old(
                    self,
                )@[p]->0).health >= 1 implies has_cover(self@, old(self)@[p]->0) by {
                let g = old(self)@[p]->0;
                assert(old(self)@[p] matches Some(h) && dominates(h, g));
                assert(has_cover(old(self)@, g));
            }
        }
    }

    /// A slot where a unit of the given kind could be placed: an empty slot,
    /// or one already holding the same kind (to combine with).  Picks one
    /// uniformly at random, or reports that none exists.
    pub fn random_compatible_slot<D: Dice>(&self, species: Species, dice: &mut D) -> (r: Option<
        usize,
    >)
        requires
            self@.len() == TEAM_SIZE,
        ensures
            r is Some <==> exists|j: int| 0 <= j < self@.len() && slot_compatible(
                #[trigger] self@[j],
                species,
            ),
            r matches Some(k) ==> k < self@.len() && slot_compatible(self@[k as int], species),
    {
        let mut mask: Vec<bool> = Vec::new();
        let mut i: usize = 0;
        while i < TEAM_SIZE
            invariant
                i <= TEAM_SIZE,
                self@.len() == TEAM_SIZE,
                mask@.len() == i,
                forall|j: int| 0 <= j < i ==> mask@[j] == slot_compatible(self@[j], species),
            decreases TEAM_SIZE - i,
        {
            let ok = match &self.0[i] {
                Some(f) => f.species == species,
                None => true,
            };
            mask.push(ok);
            i = i + 1;
        }
        let n = crate::dice::count_set(&mask);
        proof {
            crate::dice::lemma_count_trues_zero(mask@);
        }
        if n == 0 {
            proof {
                assert forall|j: int| 0 <= j < self@.len() implies !slot_compatible(
                    #[trigger] self@[j],
                    species,
                ) by {
                    assert(!mask@[j]);
                }
            }
            None
        } else {
            let j = dice.roll(0, n);
            let k = crate::dice::nth_set(&mask, j);
            proof {
                assert(mask@[k as int]);
                assert(slot_compatible(self@[k as int], species));
            }
            Some(k)
        }
    }
}

/// Whether a unit of the given kind can be placed onto this slot, either
/// because it is empty or because it holds the same kind.
pub open spec fn slot_compatible(v: Option<Friend>, species: Species) -> bool {
    match v {
        Some(f) => f.species == species,
        None => true,
    }
}

/// `n!`: the number of orderings of `n` distinct items.
pub open spec fn spec_factorial(n: nat) -> nat
    decreases n,
{
    if n == 0 {
        1
    } else {
        n * spec_factorial((n - 1) as nat)
    }
}

/// An index sequence that reorders `n` items: every position once.
pub open spec fn is_perm_index(idx: Seq<int>, n: int) -> bool {
    &&& idx.len() == n
    &&& (forall|a: int| 0 <= a < idx.len() ==> 0 <= #[trigger] idx[a] < n)
    &&& (forall|a: int, b: int| 0 <= a < b < idx.len() ==> idx[a] != idx[b])
}

/// The items rearranged by an index sequence.
pub open spec fn reordered(fs: Seq<Friend>, idx: Seq<int>) -> Seq<Friend> {
    Seq::new(idx.len(), |a: int| fs[idx[a]])
}

/// Relies on `itertools::Itertools::permutations` with `k` equal to the
/// input length: it yields all `k`-permutations, treating elements as
/// distinct by position, so every entry has the input's length and holds
/// the input's elements (as a multiset), there are `n!` entries, and every
/// rearrangement of the input positions appears among them.
#[verifier::external_body]
fn permutations_of(fs: &Vec<Friend>) -> (r: Vec<Vec<Friend>>)
    ensures
        r@.len() == spec_factorial(fs@.len()),
        forall|i: int| 0 <= i < r@.len() ==> (#[trigger] r@[i])@.len() == fs@.len()
            && r@[i]@.to_multiset() == fs@.to_multiset(),
        forall|idx: Seq<int>| #[trigger] is_perm_index(idx, fs@.len() as int) ==> exists|e: int|
            0 <= e < r@.len() && (#[trigger] r@[e])@ == reordered(fs@, idx),
{
    fs.iter().cloned().permutations(fs.len()).collect()
}

impl Team {
    /// All orderings of the team's units, each packed against the front:
    /// exploring every one of them lets the driver treat slot order as part
    /// of the search space while storing only compact teams.
    pub fn compact_permutations(&self) -> (r: Vec<Team>)
        requires
            self@.len() == TEAM_SIZE,
        ensures
            r@.len() == spec_factorial(count_somes(self@)),
            forall|i: int| 0 <= i < r@.len() ==> {
                let t = #[trigger] r@[i];
                &&& t@.len() == TEAM_SIZE
                &&& is_compact(t@)
                &&& occupied(t@).to_multiset() == occupied(self@).to_multiset()
            },
            forall|idx: Seq<int>|
                #[trigger] is_perm_index(idx, count_somes(self@) as int) ==> exists|e: int|
                    0 <= e < r@.len() && occupied((#[trigger] r@[e])@) == reordered(
                        occupied(self@),
                        idx,
                    ),
    {
        let fs = self.friends();
        proof {
            lemma_occupied_len(self@);
            lemma_count_somes_le(self@);
        }
        let perms = permutations_of(&fs);
        let mut out: Vec<Team> = Vec::new();
        let n = perms.len();
        for i in 0..n
            invariant
                n == perms@.len(),
                fs@ == occupied(self@),
                fs@.len() <= TEAM_SIZE,
                forall|j: int| 0 <= j < n ==> (#[trigger] perms@[j])@.len() == fs@.len()
                    && perms@[j]@.to_multiset() == fs@.to_multiset(),
                out@.len() == i,
                forall|j: int| 0 <= j < i ==> {
                    let t = #[trigger] out@[j];
                    &&& t@.len() == TEAM_SIZE
                    &&& is_compact(t@)
                    &&& occupied(t@).to_multiset() == occupied(self@).to_multiset()
                },
                forall|j: int| 0 <= j < i ==> occupied((#[trigger] out@[j])@) == perms@[j]@,
        {
            let t = Team::from_friends(&perms[i]);
            out.push(t);
        }
        proof {
            assert forall|idx: Seq<int>|
                #[trigger] is_perm_index(idx, count_somes(self@) as int) implies exists|e: int|
                0 <= e < out@.len() && occupied((#[trigger] out@[e])@) == reordered(
                    occupied(self@),
                    idx,
                ) by {
                assert(is_perm_index(idx, fs@.len() as int));
                let e = choose|e: int|
                    0 <= e < perms@.len() && (#[trigger] perms@[e])@ == reordered(fs@, idx);
                assert(occupied(out@[e]@) == reordered(occupied(self@), idx));
            }
        }
        out
    }
}

/// One team slot flattened to a plain record, as stored on disk: a presence
/// flag, the unit kind's code, attack, health, the modifier code (1 for the
/// sweetener, 0 for none), and experience.
pub type SlotRecord = (bool, u8, usize, usize, u8, usize);

pub open spec fn slot_record(v: Option<Friend>) -> SlotRecord {
    match v {
        Some(f) => (
            true,
            f.species.code_spec(),
            f.attack,
            f.health,
            if f.modifier is Some {
                1u8
            } else {
                0u8
            },
            f.exp,
        ),
        None => (false, 0u8, 0usize, 0usize, 0u8, 0usize),
    }
}

/// The slot a record decodes to, or `None` on an unknown code.
pub open spec fn parse_slot(r: SlotRecord) -> Option<Option<Friend>> {
    if !r.0 {
        Some(None)
    } else {
        match Species::from_code_spec(r.1) {
            Some(species) => if r.4 <= 1 {
                Some(
                    Some(
                        Friend {
                            species,
                            attack: r.2,
                            health: r.3,
                            modifier: if r.4 == 1 {
                                Some(Modifier::Honey)
                            } else {
                                None
                            },
                            exp: r.5,
                        },
                    ),
                )
            } else {
                None
            },
            None => None,
        }
    }
}

/// What a whole record list decodes to: a full team's slots, or `None` if
/// the list has the wrong length or a record does not decode.
pub open spec fn parse_records(rs: Seq<SlotRecord>) -> Option<Seq<Option<Friend>>> {
    if rs.len() == TEAM_SIZE && (forall|i: int| 0 <= i < rs.len() ==> parse_slot(
        #[trigger] rs[i],
    ) is Some) {
        Some(Seq::new(rs.len(), |i: int| parse_slot(rs[i])->0))
    } else {
        None
    }
}

/// Flattening a team to records and parsing them back yields the same
/// slots, stat for stat.
pub proof fn lemma_records_round_trip(s: Seq<Option<Friend>>)
    requires
        s.len() == TEAM_SIZE,
    ensures
        parse_records(s.map_values(|v: Option<Friend>| slot_record(v))) == Some(s),
{
    let rs = s.map_values(|v: Option<Friend>| slot_record(v));
    assert forall|i: int| 0 <= i < rs.len() implies parse_slot(#[trigger] rs[i]) == Some(
        s[i],
    ) by {
        match s[i] {
            Some(f) => {
                lemma_species_code_round_trip(f.species);
                match f.modifier {
                    Some(m) => {
                        lemma_modifier_is_honey(m);
                    },
                    None => {},
                }
            },
            None => {},
        }
    }
    assert(parse_records(rs) matches Some(d) && d =~= s);
}

impl Team {
    /// Flattens the team into plain per-slot records, ready for any binary
    /// or textual encoding outside the engine.
    pub fn records(&self) -> (r: Vec<SlotRecord>)
        requires
            self@.len() == TEAM_SIZE,
        ensures
            r@ == self@.map_values(|v: Option<Friend>| slot_record(v)),
    {
        let mut r: Vec<SlotRecord> = Vec::new();
        let len = self.0.len();
        for i in 0..len
            invariant
                len == self@.len(),
                r@.len() == i,
                forall|j: int| 0 <= j < i ==> r@[j] == slot_record(#[trigger] self@[j]),
        {
            match &self.0[i] {
                Some(f) => {
                    let modifier_code: u8 = if f.modifier.is_some() {
                        1
                    } else {
                        0
                    };
                    r.push((true, f.species.code(), f.attack, f.health, modifier_code, f.exp));
                },
                None => {
                    r.push((false, 0, 0, 0, 0, 0));
                },
            }
        }
        proof {
            assert(r@ =~= self@.map_values(|v: Option<Friend>| slot_record(v)));
        }
        r
    }

    /// Rebuilds a team from flattened records; reports `None` on a list of
    /// the wrong length or a record holding an unknown code.
    pub fn from_records(rs: &Vec<SlotRecord>) -> (r: Option<Team>)
        ensures
            match parse_records(rs@) {
                Some(s) => r matches Some(t) && t@ == s,
                None => r is None,
            },
    {
        if rs.len() != TEAM_SIZE {
            return None;
        }
        let mut v: Vec<Option<Friend>> = Vec::new();
        let mut i: usize = 0;
        while i < TEAM_SIZE
            invariant
                i <= TEAM_SIZE,
                rs@.len() == TEAM_SIZE,
                v@.len() == i,
                forall|j: int| 0 <= j < i ==> parse_slot(#[trigger] rs@[j]) == Some(v@[j]),
            decreases TEAM_SIZE - i,
        {
            let (present, code, attack, health, modifier_code, exp) = rs[i];
            if !present {
                v.push(None);
            } else {
                let species = match Species::from_code(code) {
                    Some(s) => s,
                    None => {
                        return None;
                    },
                };
                if modifier_code > 1 {
                    return None;
                }
                let modifier = if modifier_code == 1 {
                    Some(Modifier::Honey)
                } else {
                    None
                };
                v.push(Some(Friend { species, attack, health, modifier, exp }));
            }
            i = i + 1;
        }
        let t = Team(v);
        proof {
            let parsed = parse_records(rs@);
            assert(parsed matches Some(s) && t@ =~= s);
        }
        Some(t)
    }
}

/// No unit of the sequence has reached zero health.
pub open spec fn all_alive(s: Seq<Option<Friend>>) -> bool {
    forall|j: int| 0 <= j < s.len() ==> (#[trigger] s[j] matches Some(f) ==> f.health > 0)
}

pub proof fn lemma_count_somes_pos(s: Seq<Option<Friend>>, k: int)
    requires
        0 <= k < s.len(),
        s[k] is Some,
    ensures
        count_somes(s) > 0,
    decreases s.len(),
{
    if k < s.len() - 1 {
        lemma_count_somes_pos(s.drop_last(), k);
    }
}

/// Two slot sequences that agree on occupancy and tokens slot by slot have
/// the same team measures; one whose healths are bounded by the other's has
/// a bounded total.
pub proof fn lemma_measures_pointwise(a: Seq<Option<Friend>>, b: Seq<Option<Friend>>)
    requires
        a.len() == b.len(),
        forall|j: int| 0 <= j < a.len() ==> ((#[trigger] a[j]) is Some <==> b[j] is Some),
        forall|j: int| 0 <= j < a.len() ==> slot_tokens(#[trigger] a[j]) == slot_tokens(b[j]),
        forall|j: int| 0 <= j < a.len() ==> slot_health(#[trigger] a[j]) <= slot_health(b[j]),
    ensures
        team_tokens(a) == team_tokens(b),
        count_somes(a) == count_somes(b),
        team_health(a) <= team_health(b),
    decreases a.len(),
{
    if a.len() > 0 {
        assert forall|j: int| 0 <= j < a.drop_last().len() implies ((
        #[trigger] a.drop_last()[j]) is Some <==> b.drop_last()[j] is Some) && slot_tokens(
            a.drop_last()[j],
        ) == slot_tokens(b.drop_last()[j]) && slot_health(a.drop_last()[j]) <= slot_health(
            b.drop_last()[j],
        ) by {
            assert(a.drop_last()[j] == a[j]);
            assert(b.drop_last()[j] == b[j]);
        }
        lemma_measures_pointwise(a.drop_last(), b.drop_last());
        match a.last() {
            Some(f) => {
                let g = b.last()->0;
                lemma_sum_one(f);
                lemma_sum_one(g);
                lemma_token_sum_add(occupied(a.drop_last()), seq![f]);
                lemma_token_sum_add(occupied(b.drop_last()), seq![g]);
                lemma_health_sum_add(occupied(a.drop_last()), seq![f]);
                lemma_health_sum_add(occupied(b.drop_last()), seq![g]);
                assert(occupied(a) == occupied(a.drop_last()) + seq![f]);
                assert(occupied(b) == occupied(b.drop_last()) + seq![g]);
                assert(slot_tokens(a.last()) == token_count(f));
            },
            None => {
                assert(occupied(a) =~= occupied(a.drop_last()));
                assert(occupied(b) =~= occupied(b.drop_last()));
            },
        }
    }
}

/// The occupied units laid out from the front and padded with empty slots.
pub open spec fn padded(fs: Seq<Friend>, n: nat) -> Seq<Option<Friend>> {
    Seq::new(
        n,
        |p: int|
            if p < fs.len() {
                Some(fs[p])
            } else {
                None
            },
    )
}

proof fn lemma_occupied_padded(fs: Seq<Friend>, n: nat)
    requires
        fs.len() <= n,
    ensures
        occupied(padded(fs, n)) == fs,
    decreases n,
{
    let s = padded(fs, n);
    if n == 0 {
        assert(occupied(s) =~= fs);
    } else if n > fs.len() {
        assert(s.drop_last() =~= padded(fs, (n - 1) as nat));
        lemma_occupied_padded(fs, (n - 1) as nat);
        assert(occupied(s) =~= fs);
    } else {
        assert(s.drop_last() =~= padded(fs.drop_last(), (n - 1) as nat));
        lemma_occupied_padded(fs.drop_last(), (n - 1) as nat);
        assert(s.last() == Some(fs[n - 1]));
        assert(occupied(s) =~= fs);
    }
}

/// Packing the slots keeps the occupied units.
pub proof fn lemma_occupied_compacted(s: Seq<Option<Friend>>)
    ensures
        occupied(compacted(s)) == occupied(s),
{
    lemma_occupied_len(s);
    lemma_count_somes_le(s);
    assert(compacted(s) =~= padded(occupied(s), s.len()));
    lemma_occupied_padded(occupied(s), s.len());
}

/// A team holds no death-trigger token exactly when no slot does.
pub proof fn lemma_team_tokens_zero(s: Seq<Option<Friend>>)
    ensures
        (team_tokens(s) == 0) <==> (forall|p: int|
            0 <= p < s.len() ==> slot_tokens(#[trigger] s[p]) == 0),
    decreases s.len(),
{
    if s.len() > 0 {
        lemma_team_tokens_zero(s.drop_last());
        match s.last() {
            Some(g) => {
                lemma_sum_one(g);
                lemma_token_sum_add(occupied(s.drop_last()), seq![g]);
                assert(occupied(s) == occupied(s.drop_last()) + seq![g]);
            },
            None => {
                assert(occupied(s) =~= occupied(s.drop_last()));
            },
        }
        assert(team_tokens(s) == team_tokens(s.drop_last()) + slot_tokens(s.last()));
        assert forall|p: int|
            0 <= p < s.len() - 1 implies s.drop_last()[p] == s[p] by {}
        if team_tokens(s) == 0 {
            assert forall|p: int| 0 <= p < s.len() implies slot_tokens(#[trigger] s[p])
                == 0 by {
                if p < s.len() - 1 {
                    assert(slot_tokens(s.drop_last()[p]) == 0);
                }
            }
        }
        if forall|p: int| 0 <= p < s.len() ==> slot_tokens(#[trigger] s[p]) == 0 {
            assert forall|p: int|
                0 <= p < s.drop_last().len() implies slot_tokens(
                #[trigger] s.drop_last()[p],
            ) == 0 by {
                assert(s.drop_last()[p] == s[p]);
            }
        }
    }
}

/// A team holds no unit of a kind exactly when no slot does.
pub proof fn lemma_team_species_zero(s: Seq<Option<Friend>>, sp: Species)
    ensures
        (team_species(s, sp) == 0) <==> (forall|p: int|
            0 <= p < s.len() ==> slot_species(#[trigger] s[p], sp) == 0),
    decreases s.len(),
{
    if s.len() > 0 {
        lemma_team_species_zero(s.drop_last(), sp);
        match s.last() {
            Some(g) => {
                lemma_sum_one(g);
                lemma_species_sum_add(occupied(s.drop_last()), seq![g], sp);
                assert(occupied(s) == occupied(s.drop_last()) + seq![g]);
            },
            None => {
                assert(occupied(s) =~= occupied(s.drop_last()));
            },
        }
        assert(team_species(s, sp) == team_species(s.drop_last(), sp) + slot_species(
            s.last(),
            sp,
        ));
        if team_species(s, sp) == 0 {
            assert forall|p: int| 0 <= p < s.len() implies slot_species(#[trigger] s[p], sp)
                == 0 by {
                if p < s.len() - 1 {
                    assert(slot_species(s.drop_last()[p], sp) == 0);
                }
            }
        }
        if forall|p: int| 0 <= p < s.len() ==> slot_species(#[trigger] s[p], sp) == 0 {
            assert forall|p: int|
                0 <= p < s.drop_last().len() implies slot_species(
                #[trigger] s.drop_last()[p],
                sp,
            ) == 0 by {
                assert(s.drop_last()[p] == s[p]);
            }
        }
    }
}

/// Death effects never create tokens, and a token-free death does nothing
/// at all beyond the already-cleared slot.
proof fn lemma_spec_on_death_measures(s: Seq<Option<Friend>>, f: Friend, i: int)
    requires
        s.len() == TEAM_SIZE,
        0 <= i < TEAM_SIZE,
        s[i] is None,
    ensures
        team_tokens(spec_on_death(s, f, i)) == team_tokens(s),
        token_count(f) == 0 ==> spec_on_death(s, f, i) == s,
{
    let after = if f.species == Species::Cricket {
        summoned(s, ghost_of(f), i)
    } else {
        s
    };
    if f.species == Species::Cricket {
        lemma_update_measures(s, i, after[i]);
    }
    assert(team_tokens(after) == team_tokens(s));
    if f.modifier == Some(Modifier::Honey) {
        if after[i] is None {
            lemma_update_measures(after, i, summoned(after, spawned_bee(), i)[i]);
        } else if count_somes(after) < TEAM_SIZE {
            let moved = make_space_spec(after, i);
            assert(occupied(moved) == occupied(after) && moved[i] is None && moved.len()
                == after.len()) by {
                lemma_make_space_spec_frees(after, i);
            }
            lemma_update_measures(moved, i, summoned(moved, spawned_bee(), i)[i]);
            assert(team_tokens(summoned(moved, spawned_bee(), i)) == team_tokens(after));
        }
    } else {
        if token_count(f) == 0 {
            match f.modifier {
                Some(m) => {
                    crate::modifier::lemma_modifier_is_honey(m);
                },
                None => {},
            }
        }
    }
}

/// When the team has room, making space really does free the slot and keeps
/// the occupied units.
proof fn lemma_make_space_spec_frees(s: Seq<Option<Friend>>, i: int)
    requires
        s.len() == TEAM_SIZE,
        0 <= i < TEAM_SIZE,
        s[i] is Some,
        count_somes(s) < TEAM_SIZE,
    ensures
        make_space_spec(s, i)[i] is None,
        make_space_spec(s, i).len() == s.len(),
        occupied(make_space_spec(s, i)) == occupied(s),
{
    if forall|e: int| 0 <= e < s.len() ==> (#[trigger] s[e]) is Some {
        lemma_count_somes_full(s);
    }
    let e = choose|e: int| 0 <= e < s.len() && !((#[trigger] s[e]) is Some);
    let jb = first_empty_from(s, i + 1);
    if jb < s.len() {
        lemma_first_empty_is_none(s, i + 1);
        let a = shifted_back(s, i, jb);
        lemma_occupied_shift_back(s, a, i, jb);
    } else {
        if e >= i + 1 {
            lemma_first_empty_ge(s, i + 1, e);
        }
        assert(e < i);
        let jf = first_empty_from(s, 0);
        lemma_first_empty_is_none(s, 0);
        lemma_first_empty_ge(s, 0, e);
        assert(jf < i);
        let a = shifted_front(s, jf, i);
        lemma_occupied_shift_front(s, a, jf, i);
    }
}

/// Wherever the searcher stops short of the end, that slot is empty.
proof fn lemma_first_empty_is_none(s: Seq<Option<Friend>>, k: int)
    requires
        0 <= k <= s.len(),
    ensures
        first_empty_from(s, k) < s.len() ==> k <= first_empty_from(s, k) && s[first_empty_from(
            s,
            k,
        )] is None,
    decreases s.len() - k,
{
    if k < s.len() && !(s[k] is None) {
        lemma_first_empty_is_none(s, k + 1);
    }
}

/// The searcher never passes an empty slot by.
proof fn lemma_first_empty_ge(s: Seq<Option<Friend>>, k: int, e: int)
    requires
        0 <= k <= s.len(),
        k <= e < s.len(),
        s[e] is None,
    ensures
        first_empty_from(s, k) <= e,
    decreases s.len() - k,
{
    if k < e && !(s[k] is None) {
        lemma_first_empty_ge(s, k + 1, e);
    }
}

/// The death scan never raises the token count; if a dead unit stood in
/// the scanned range, the (tokens, units, health) measure strictly drops.
proof fn lemma_sweep_measure(s: Seq<Option<Friend>>, k: int)
    requires
        s.len() == TEAM_SIZE,
        0 <= k <= TEAM_SIZE,
    ensures
        team_tokens(sweep_from(s, k)) <= team_tokens(s),
        (forall|j: int|
            k <= j < s.len() ==> !((#[trigger] s[j]) is Some && (s[j]->0).health == 0))
            ==> sweep_from(s, k) == s,
        (exists|j: int| k <= j < s.len() && (#[trigger] s[j]) is Some && (s[j]->0).health == 0)
            ==> (team_tokens(sweep_from(s, k)) < team_tokens(s) || (team_tokens(sweep_from(s, k))
            == team_tokens(s) && count_somes(sweep_from(s, k)) < count_somes(s) && team_health(
            sweep_from(s, k),
        ) <= team_health(s))),
    decreases TEAM_SIZE - k,
{
    if k >= TEAM_SIZE {
        return ;
    }
    if s[k] is Some && (s[k]->0).health == 0 {
        let f = s[k]->0;
        let c = s.update(k, None);
        lemma_update_measures(s, k, None);
        lemma_spec_on_death_measures(c, f, k);
        let s1 = spec_on_death(c, f, k);
        assert(sweep_from(s, k) == sweep_from(s1, k + 1));
        lemma_sweep_measure(s1, k + 1);
        if token_count(f) == 0 {
            assert(s1 == c);
            assert(team_tokens(s1) == team_tokens(s));
            assert(count_somes(s1) + 1 == count_somes(s));
            assert(team_health(s1) == team_health(s));
            if exists|j: int|
                k + 1 <= j < s1.len() && (#[trigger] s1[j]) is Some && (s1[j]->0).health == 0 {
            } else {
                assert forall|j: int|
                    k + 1 <= j < s1.len() implies !((#[trigger] s1[j]) is Some && (
                s1[j]->0).health == 0) by {}
                assert(sweep_from(s1, k + 1) == s1);
            }
        } else {
            assert(team_tokens(s1) < team_tokens(s));
        }
    } else {
        assert(sweep_from(s, k) == sweep_from(s, k + 1));
        lemma_sweep_measure(s, k + 1);
        if exists|j: int| k <= j < s.len() && (#[trigger] s[j]) is Some && (s[j]->0).health == 0 {
            let jw = choose|j: int|
                k <= j < s.len() && (#[trigger] s[j]) is Some && (s[j]->0).health == 0;
            assert(jw != k);
            assert(exists|j: int|
                k + 1 <= j < s.len() && (#[trigger] s[j]) is Some && (s[j]->0).health == 0);
        }
    }
}

/// The whole death pass: tokens never rise; a no-op without a dead unit; a
/// strict (tokens, units, health) drop with one.
pub proof fn lemma_spec_remove_dead_measures(s: Seq<Option<Friend>>)
    requires
        s.len() == TEAM_SIZE,
    ensures
        team_tokens(spec_remove_dead(s)) <= team_tokens(s),
        (forall|j: int|
            0 <= j < s.len() ==> !((#[trigger] s[j]) is Some && (s[j]->0).health == 0))
            ==> spec_remove_dead(s) == s,
        (exists|j: int| 0 <= j < s.len() && (#[trigger] s[j]) is Some && (s[j]->0).health == 0)
            ==> (team_tokens(spec_remove_dead(s)) < team_tokens(s) || (team_tokens(
            spec_remove_dead(s),
        ) == team_tokens(s) && count_somes(spec_remove_dead(s)) < count_somes(s) && team_health(
            spec_remove_dead(s),
        ) <= team_health(s))),
{
    lemma_sweep_measure(s, 0);
    if exists|j: int| 0 <= j < s.len() && (#[trigger] s[j] matches Some(f) && f.health == 0) {
        assert(exists|j: int|
            0 <= j < s.len() && (#[trigger] s[j]) is Some && (s[j]->0).health == 0);
        lemma_occupied_compacted(sweep_from(s, 0));
        lemma_occupied_len(compacted(sweep_from(s, 0)));
        lemma_occupied_len(sweep_from(s, 0));
    } else {
        if exists|j: int| 0 <= j < s.len() && (#[trigger] s[j]) is Some && (s[j]->0).health == 0 {
            let jw = choose|j: int|
                0 <= j < s.len() && (#[trigger] s[j]) is Some && (s[j]->0).health == 0;
            assert(s[jw] matches Some(f) && f.health == 0);
        }
    }
}

} // verus!
