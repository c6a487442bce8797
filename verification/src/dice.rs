use vstd::prelude::*;

verus! {

/// A source of bounded random decisions.  Every random choice in the engine
/// is a draw of one integer from a half-open range.
pub trait Dice {
    /// Draws an integer from the half-open range `[lo, hi)`.
    fn roll(&mut self, lo: usize, hi: usize) -> (r: usize)
        requires
            lo < hi,
        ensures
            lo <= r < hi,
    ;
}

/// Base of the digits used by `key` / `from_key`.
pub const KEY_BASE: usize = 36;

/// The odometer step over a recorded decision list: trailing entries whose
/// chosen value is at its maximum are discarded, and the last surviving
/// entry's value is incremented.  An empty result means the enumeration is
/// exhausted.
pub open spec fn odometer_next(s: Seq<(usize, usize, usize)>) -> Seq<(usize, usize, usize)>
    decreases s.len(),
{
    if s.len() == 0 {
        s
    } else {
        let e = s.last();
        if e.2 + 1 >= e.1 {
            odometer_next(s.drop_last())
        } else {
            s.drop_last().push((e.0, e.1, (e.2 + 1) as usize))
        }
    }
}

/// A deterministic dice: replays an ordered list of recorded decisions and
/// extends it, seeded at the range minimum, whenever the simulation asks for
/// a decision past the recorded history.  Together with `next` this
/// enumerates every path of a decision tree depth first, without building
/// the tree.
///
/// A replayed draw whose requested range differs from the recorded one means
/// the driver did not reproduce the prior control flow.  That inconsistency
/// is fatal to the enumeration: the dice sets its failure flag, every later
/// draw is inert, and `next` reports the enumeration as finished, so no
/// further branch is ever explored.  A verified library cannot abort the
/// process itself; a driver that must stop hard checks `has_failed` after
/// each run and aborts there.
#[derive(Debug)]
pub struct DeterministicDice {
    initialized: bool,
    index: usize,
    data: Vec<(usize, usize, usize)>,
    failed: bool,
}

impl DeterministicDice {
    /// The recorded decisions, oldest first.
    pub closed spec fn entries(&self) -> Seq<(usize, usize, usize)> {
        self.data@
    }

    /// Position of the next decision to replay in the current run.
    pub closed spec fn cursor(&self) -> int {
        self.index as int
    }

    /// Whether the first run has been handed out by `next`.
    pub closed spec fn is_initialized(&self) -> bool {
        self.initialized
    }

    /// Whether a replayed draw ever disagreed with the recorded history.
    pub closed spec fn spec_has_failed(&self) -> bool {
        self.failed
    }

    /// Reports whether a replayed draw disagreed with the recorded history,
    /// which means the driver did not reproduce its prior control flow.
    pub fn has_failed(&self) -> (r: bool)
        ensures
            r == self.spec_has_failed(),
    {
        self.failed
    }

    pub fn new() -> (d: Self)
        ensures
            !d.is_initialized(),
            !d.spec_has_failed(),
            d.cursor() == 0,
            d.entries() == Seq::<(usize, usize, usize)>::empty(),
    {
        DeterministicDice { initialized: false, index: 0, data: Vec::new(), failed: false }
    }

    /// Starts the next run: the first call reports that work remains with an
    /// empty history; afterwards it advances the recorded decisions one
    /// odometer step and rewinds the cursor, reporting whether any history
    /// is left to explore.  A failed dice reports no more work.
    pub fn next(&mut self) -> (more: bool)
        ensures
            old(self).spec_has_failed() ==> !more && *final(self) == *old(self),
            !old(self).is_initialized() && !old(self).spec_has_failed() ==> {
                &&& more
                &&& final(self).is_initialized()
                &&& !final(self).spec_has_failed()
                &&& final(self).entries() == old(self).entries()
                &&& final(self).cursor() == old(self).cursor()
            },
            old(self).is_initialized() && !old(self).spec_has_failed() ==> {
                &&& final(self).entries() == odometer_next(old(self).entries())
                &&& final(self).cursor() == 0
                &&& !final(self).spec_has_failed()
                &&& more == (final(self).entries().len() > 0)
            },
    {
        if self.failed {
            return false;
        }
        if !self.initialized {
            self.initialized = true;
            return true;
        }
        self.index = 0;
        let ghost orig = self.data@;
        loop
            invariant
                self.index == 0,
                !self.failed,
                self.initialized,
                old(self).is_initialized(),
                !old(self).spec_has_failed(),
                orig == old(self).entries(),
                odometer_next(self.data@) == odometer_next(orig),
            decreases self.data@.len(),
        {
            match self.data.pop() {
                None => {
                    return false;
                },
                Some((lo, hi, v)) => {
                    if v >= hi {
                        continue;
                    } else if v + 1 >= hi {
                        continue;
                    } else {
                        self.data.push((lo, hi, v + 1));
                        proof {
                            assert(self.data@ =~= odometer_next(orig));
                        }
                        return true;
                    }
                },
            }
        }
    }

    /// Draws from `[lo, hi)` by replaying the recorded decision at the
    /// cursor, or, past the end of the history, by recording a fresh
    /// decision seeded at `lo`.  A recorded range that disagrees with the
    /// requested one (or a restored value outside it) marks the dice failed
    /// and yields `lo`.
    pub fn replay_roll(&mut self, lo: usize, hi: usize) -> (r: usize)
        requires
            lo < hi,
        ensures
            lo <= r < hi,
            final(self).is_initialized() == old(self).is_initialized(),
            old(self).spec_has_failed() ==> *final(self) == *old(self) && r == lo,
            !old(self).spec_has_failed() && old(self).cursor() == old(self).entries().len() ==> {
                &&& final(self).entries() == old(self).entries().push((lo, hi, lo))
                &&& final(self).cursor() == old(self).cursor() + 1
                &&& r == lo
                &&& !final(self).spec_has_failed()
            },
            !old(self).spec_has_failed() && old(self).cursor() < old(self).entries().len() ==> {
                let e = old(self).entries()[old(self).cursor()];
                if e.0 == e.1 {
                    if lo <= e.2 < hi {
                        &&& final(self).entries() == old(self).entries().update(
                            old(self).cursor(),
                            (lo, hi, e.2),
                        )
                        &&& final(self).cursor() == old(self).cursor() + 1
                        &&& r == e.2
                        &&& !final(self).spec_has_failed()
                    } else {
                        &&& final(self).spec_has_failed()
                        &&& r == lo
                        &&& final(self).entries() == old(self).entries()
                    }
                } else if e.0 == lo && e.1 == hi && lo <= e.2 < hi {
                    &&& final(self).entries() == old(self).entries()
                    &&& final(self).cursor() == old(self).cursor() + 1
                    &&& r == e.2
                    &&& !final(self).spec_has_failed()
                } else {
                    &&& final(self).spec_has_failed()
                    &&& r == lo
                    &&& final(self).entries() == old(self).entries()
                }
            },
    {
        if self.failed {
            return lo;
        }
        if self.index < self.data.len() {
            let (elo, ehi, v) = self.data[self.index];
            if elo == ehi {
                // An entry restored from a key: adopt the requested range if
                // the restored value fits it.
                if lo <= v && v < hi {
                    self.data[self.index] = (lo, hi, v);
                    self.index = self.index + 1;
                    v
                } else {
                    self.failed = true;
                    lo
                }
            } else if elo == lo && ehi == hi && lo <= v && v < hi {
                self.index = self.index + 1;
                v
            } else {
                self.failed = true;
                lo
            }
        } else {
            self.data.push((lo, hi, lo));
            self.index = self.data.len();
            lo
        }
    }
}

impl Dice for DeterministicDice {
    fn roll(&mut self, lo: usize, hi: usize) -> (r: usize) {
        self.replay_roll(lo, hi)
    }
}

impl DeterministicDice {
    /// Converts the recorded choices into a compact string key, one base-36
    /// digit per decision.  Choices too large for a single digit have no key
    /// form, so they are excluded.
    pub fn key(&self) -> (s: String)
        requires
            forall|i: int| 0 <= i < self.entries().len() ==> (#[trigger] self.entries()[i]).2
                < KEY_BASE,
        ensures
            s@.len() == self.entries().len(),
            forall|i: int| 0 <= i < s@.len() ==> s@[i] == key_digit(
                (#[trigger] self.entries()[i]).2 as int,
            ),
    {
        let mut out: Vec<char> = Vec::new();
        let n = self.data.len();
        for i in 0..n
            invariant
                n == self.entries().len(),
                out@.len() == i,
                forall|j: int| 0 <= j < self.entries().len() ==> (#[trigger] self.entries()[j]).2
                    < KEY_BASE,
                forall|j: int| 0 <= j < i ==> out@[j] == key_digit(
                    (#[trigger] self.entries()[j]).2 as int,
                ),
        {
            let v = self.data[i].2;
            out.push(digit_char(v));
        }
        chars_to_string(&out)
    }

    /// Restores a dice from a string key.  The recorded ranges are not part
    /// of a key, so each entry starts with an empty range marker that is
    /// adopted on first replay.  Only base-36 digit characters form valid
    /// keys.
    pub fn from_key(s: &str) -> (d: Self)
        requires
            forall|i: int| 0 <= i < s@.len() ==> is_key_digit(#[trigger] s@[i]),
        ensures
            d.is_initialized(),
            !d.spec_has_failed(),
            d.cursor() == 0,
            d.entries().len() == s@.len(),
            forall|i: int| 0 <= i < s@.len() ==> #[trigger] d.entries()[i] == (
                0usize,
                0usize,
                key_digit_val(s@[i]) as usize,
            ),
    {
        let chars = str_chars(s);
        let mut data: Vec<(usize, usize, usize)> = Vec::new();
        let n = chars.len();
        for i in 0..n
            invariant
                n == chars@.len(),
                chars@ == s@,
                forall|j: int| 0 <= j < s@.len() ==> is_key_digit(#[trigger] s@[j]),
                data@.len() == i,
                forall|j: int| 0 <= j < i ==> #[trigger] data@[j] == (
                    0usize,
                    0usize,
                    key_digit_val(s@[j]) as usize,
                ),
        {
            let c = chars[i];
            data.push((0, 0, digit_val(c)));
        }
        DeterministicDice { initialized: true, index: 0, data, failed: false }
    }
}

/// The base-36 digit character for a choice value: `0`-`9` then `a`-`z`.
pub open spec fn key_digit(v: int) -> char {
    if v < 10 {
        ((48 + v) as u32) as char
    } else {
        ((87 + v) as u32) as char
    }
}

/// Whether a character is a base-36 digit as used in keys.
pub open spec fn is_key_digit(c: char) -> bool {
    48 <= c as u32 <= 57 || 97 <= c as u32 <= 122
}

/// The choice value a base-36 digit character stands for.
pub open spec fn key_digit_val(c: char) -> int {
    if c as u32 <= 57 {
        c as u32 - 48
    } else {
        c as u32 - 87
    }
}

fn digit_char(v: usize) -> (c: char)
    requires
        v < KEY_BASE,
    ensures
        c == key_digit(v as int),
{
    if v < 10 {
        ((48u8 + v as u8) as char)
    } else {
        ((87u8 + v as u8) as char)
    }
}

fn digit_val(c: char) -> (v: usize)
    requires
        is_key_digit(c),
    ensures
        v == key_digit_val(c),
        v < KEY_BASE,
{
    let u = c as u32;
    if u <= 57 {
        (u - 48) as usize
    } else {
        (u - 87) as usize
    }
}

/// Relies on `String`'s `FromIterator` over characters: collecting yields a
/// string holding exactly the given characters in order.
#[verifier::external_body]
fn chars_to_string(v: &Vec<char>) -> (s: String)
    ensures
        s@ == v@,
{
    v.iter().collect()
}

/// Relies on `str::chars`: the iterator yields the string's characters in
/// order.
#[verifier::external_body]
fn str_chars(s: &str) -> (v: Vec<char>)
    ensures
        v@ == s@,
{
    s.chars().collect()
}

/// The random mode of the dice: every draw is fresh uniform randomness, with
/// no replay semantics.
pub struct RandomDice {}

impl RandomDice {
    pub fn new() -> RandomDice {
        RandomDice {}
    }
}

/// Relies on `rand::random_range`: returns a value of the given range,
/// which must not be empty.
#[verifier::external_body]
fn sample_range(lo: usize, hi: usize) -> (r: usize)
    requires
        lo < hi,
    ensures
        lo <= r < hi,
{
    rand::random_range(lo..hi)
}

impl Dice for RandomDice {
    fn roll(&mut self, lo: usize, hi: usize) -> (r: usize) {
        sample_range(lo, hi)
    }
}

/// How many of the optional slots are occupied.
pub open spec fn count_somes<T>(s: Seq<Option<T>>) -> nat
    decreases s.len(),
{
    if s.len() == 0 {
        0
    } else {
        count_somes(s.drop_last()) + if s.last() is Some {
            1nat
        } else {
            0nat
        }
    }
}

/// How many entries of a mask are set.
pub open spec fn count_trues(s: Seq<bool>) -> nat
    decreases s.len(),
{
    if s.len() == 0 {
        0
    } else {
        count_trues(s.drop_last()) + if s.last() {
            1nat
        } else {
            0nat
        }
    }
}

pub proof fn lemma_count_trues_take_step(s: Seq<bool>, i: int)
    requires
        0 <= i < s.len(),
    ensures
        count_trues(s.take(i + 1)) == count_trues(s.take(i)) + if s[i] {
            1nat
        } else {
            0nat
        },
{
    assert(s.take(i + 1).drop_last() =~= s.take(i));
}

pub proof fn lemma_count_somes_take_step<T>(s: Seq<Option<T>>, i: int)
    requires
        0 <= i < s.len(),
    ensures
        count_somes(s.take(i + 1)) == count_somes(s.take(i)) + if s[i] is Some {
            1nat
        } else {
            0nat
        },
{
    assert(s.take(i + 1).drop_last() =~= s.take(i));
}

pub proof fn lemma_count_trues_zero(s: Seq<bool>)
    ensures
        (count_trues(s) == 0) <==> (forall|j: int| 0 <= j < s.len() ==> !s[j]),
    decreases s.len(),
{
    if s.len() > 0 {
        lemma_count_trues_zero(s.drop_last());
        if count_trues(s) == 0 {
            assert forall|j: int| 0 <= j < s.len() implies !s[j] by {
                if j < s.len() - 1 {
                    assert(s.drop_last()[j] == s[j]);
                }
            }
        }
    }
}

proof fn lemma_count_match<T>(vs: Seq<Option<T>>, m: Seq<bool>)
    requires
        vs.len() == m.len(),
        forall|j: int| 0 <= j < m.len() ==> m[j] == (vs[j] is Some),
    ensures
        count_trues(m) == count_somes(vs),
    decreases m.len(),
{
    if m.len() > 0 {
        lemma_count_match(vs.drop_last(), m.drop_last());
    }
}

proof fn lemma_count_trues_clear(s: Seq<bool>, k: int)
    requires
        0 <= k < s.len(),
        s[k],
    ensures
        count_trues(s.update(k, false)) == count_trues(s) - 1,
    decreases s.len(),
{
    if k == s.len() - 1 {
        assert(s.update(k, false).drop_last() =~= s.drop_last());
    } else {
        assert(s.update(k, false).drop_last() =~= s.drop_last().update(k, false));
        lemma_count_trues_clear(s.drop_last(), k);
    }
}

pub(crate) fn count_set(mask: &Vec<bool>) -> (n: usize)
    ensures
        n == count_trues(mask@),
{
    let mut n: usize = 0;
    let len = mask.len();
    for i in 0..len
        invariant
            len == mask@.len(),
            n == count_trues(mask@.take(i as int)),
            n <= i,
    {
        proof {
            lemma_count_trues_take_step(mask@, i as int);
        }
        if mask[i] {
            n = n + 1;
        }
    }
    proof {
        assert(mask@.take(len as int) =~= mask@);
    }
    n
}

/// Finds the position of the `j`-th set mask entry (counting from zero).
pub(crate) fn nth_set(mask: &Vec<bool>, j: usize) -> (k: usize)
    requires
        j < count_trues(mask@),
    ensures
        k < mask@.len(),
        mask@[k as int],
        count_trues(mask@.take(k as int)) == j,
{
    let len = mask.len();
    let mut seen: usize = 0;
    for i in 0..len
        invariant
            len == mask@.len(),
            j < count_trues(mask@),
            seen == count_trues(mask@.take(i as int)),
            seen <= j,
    {
        proof {
            lemma_count_trues_take_step(mask@, i as int);
        }
        if mask[i] {
            if seen == j {
                return i;
            }
            seen = seen + 1;
        }
    }
    proof {
        assert(mask@.take(len as int) =~= mask@);
        assert(false);
    }
    0
}

/// Chooses up to `n` distinct indices of occupied slots from `vs`, drawing
/// each pick uniformly from the slots not yet chosen: the `k`-th draw spans
/// a range one smaller than the previous one.  Under a full deterministic
/// enumeration this visits every ordered selection exactly once.
pub fn pick_some<D: Dice, T>(dice: &mut D, n: usize, vs: &Vec<Option<T>>) -> (r: Vec<usize>)
    ensures
        r@.len() == if n <= count_somes(vs@) {
            n as nat
        } else {
            count_somes(vs@)
        },
        forall|a: int| 0 <= a < r@.len() ==> #[trigger] r@[a] < vs@.len() && vs@[r@[a] as int]
            is Some,
        forall|a: int, b: int| 0 <= a < b < r@.len() ==> r@[a] != r@[b],
        n == 0 || count_somes(vs@) == 0 ==> *final(dice) == *old(dice),
{
    let len = vs.len();
    let mut mask: Vec<bool> = Vec::new();
    for i in 0..len
        invariant
            len == vs@.len(),
            mask@.len() == i,
            forall|j: int| 0 <= j < i ==> mask@[j] == (vs@[j] is Some),
    {
        mask.push(vs[i].is_some());
    }
    let count = count_set(&mask);
    proof {
        lemma_count_match(vs@, mask@);
    }
    let n = if n <= count {
        n
    } else {
        count
    };
    let mut out: Vec<usize> = Vec::new();
    for i in 0..n
        invariant
            n == 0 ==> *dice == *old(dice),
            n <= count,
            count == count_somes(vs@),
            mask@.len() == vs@.len(),
            count_trues(mask@) == count - i,
            out@.len() == i,
            forall|j: int| 0 <= j < mask@.len() ==> mask@[j] ==> (vs@[j] is Some),
            forall|a: int| 0 <= a < out@.len() ==> #[trigger] out@[a] < vs@.len()
                && vs@[out@[a] as int] is Some && !mask@[out@[a] as int],
            forall|a: int, b: int| 0 <= a < b < out@.len() ==> out@[a] != out@[b],
    {
        let j = dice.roll(0, count - i);
        let k = nth_set(&mask, j);
        proof {
            lemma_count_trues_clear(mask@, k as int);
        }
        mask[k] = false;
        out.push(k);
    }
    out
}

/// Chooses one occupied slot index, or `None` if every slot is empty.
pub fn pick_one<D: Dice, T>(dice: &mut D, vs: &Vec<Option<T>>) -> (r: Option<usize>)
    ensures
        r is Some <==> count_somes(vs@) > 0,
        r is Some ==> r->0 < vs@.len() && vs@[r->0 as int] is Some,
        count_somes(vs@) == 0 ==> *final(dice) == *old(dice),
{
    let picked = pick_some(dice, 1, vs);
    if picked.len() > 0 {
        Some(picked[0])
    } else {
        None
    }
}

/// A recorded decision whose chosen value lies inside its range.
pub open spec fn entry_in_range(e: (usize, usize, usize)) -> bool {
    e.0 <= e.2 < e.1
}

pub open spec fn all_in_range(s: Seq<(usize, usize, usize)>) -> bool {
    forall|i: int| 0 <= i < s.len() ==> entry_in_range(#[trigger] s[i])
}

/// The history read as a mixed-radix number: each decision is a digit
/// (value minus range low) with the range width as its radix, the first
/// decision most significant.
pub open spec fn odometer_value(s: Seq<(usize, usize, usize)>) -> nat
    decreases s.len(),
{
    if s.len() == 0 {
        0
    } else {
        odometer_value(s.drop_last()) * ((s.last().1 - s.last().0) as nat) + (
        (s.last().2 - s.last().0) as nat)
    }
}

/// How many value combinations the recorded ranges admit in all.
pub open spec fn odometer_total(s: Seq<(usize, usize, usize)>) -> nat
    decreases s.len(),
{
    if s.len() == 0 {
        1
    } else {
        odometer_total(s.drop_last()) * ((s.last().1 - s.last().0) as nat)
    }
}

/// An advanced history padded back to the shape of the one it came from:
/// the decisions the carry discarded reappear at their range minimum, just
/// as the next run will rediscover them when the tree shape is fixed.
pub open spec fn reseeded(
    u: Seq<(usize, usize, usize)>,
    s: Seq<(usize, usize, usize)>,
) -> Seq<(usize, usize, usize)> {
    Seq::new(
        s.len(),
        |k: int|
            if k < u.len() {
                u[k]
            } else {
                (s[k].0, s[k].1, s[k].0)
            },
    )
}

/// Under a fixed decision-tree shape — every run rediscovers the same
/// ranges in the same order — the odometer is a mixed-radix counter: one
/// `next` moves the history (reseeded at the discarded digits) to the value
/// exactly one greater, and reports exhaustion precisely at the last
/// combination.  Every combination of decision values is therefore visited
/// exactly once over a full enumeration.
pub proof fn lemma_odometer_next_counts(s: Seq<(usize, usize, usize)>)
    requires
        all_in_range(s),
    ensures
        (odometer_next(s).len() == 0) <==> (odometer_value(s) + 1 == odometer_total(s)),
        odometer_next(s).len() > 0 ==> {
            let p = reseeded(odometer_next(s), s);
            &&& odometer_next(s).len() <= s.len()
            &&& p.len() == s.len()
            &&& all_in_range(p)
            &&& (forall|k: int| 0 <= k < s.len() ==> (#[trigger] p[k]).0 == s[k].0 && p[k].1
                == s[k].1)
            &&& odometer_value(p) == odometer_value(s) + 1
        },
    decreases s.len(),
{
    if s.len() == 0 {
        return ;
    }
    let e = s.last();
    let d = (e.1 - e.0) as nat;
    let rest = s.drop_last();
    assert(all_in_range(rest)) by {
        assert(forall|i: int| 0 <= i < rest.len() ==> rest[i] == s[i]);
    }
    assert(entry_in_range(e));
    assert(d >= 1);
    if e.2 + 1 >= e.1 {
        // The last digit is at its maximum: it is discarded and the carry
        // moves into the shorter history.
        assert(odometer_next(s) == odometer_next(rest));
        assert((e.2 - e.0) as nat == d - 1);
        lemma_odometer_next_counts(rest);
        let vr = odometer_value(rest);
        let tr = odometer_total(rest);
        assert(odometer_value(s) == vr * d + (d - 1));
        assert(odometer_total(s) == tr * d);
        lemma_odometer_total_pos(rest);
        if odometer_next(rest).len() == 0 {
            assert(vr + 1 == tr);
            assert((vr + 1) * d == tr * d) by (nonlinear_arith)
                requires
                    vr + 1 == tr,
            ;
            assert((vr + 1) * d == vr * d + d) by (nonlinear_arith);
            assert(odometer_value(s) + 1 == odometer_total(s));
        } else {
            // The advanced shorter history counts up by one; appending this
            // digit reseeded at its minimum multiplies that by the radix.
            let u = odometer_next(rest);
            let pr = reseeded(u, rest);
            assert(odometer_value(pr) == vr + 1);
            let p = reseeded(u, s);
            assert(p.drop_last() =~= pr);
            assert(p.last() == (e.0, e.1, e.0));
            assert(all_in_range(p)) by {
                assert forall|k: int| 0 <= k < p.len() implies entry_in_range(
                    #[trigger] p[k],
                ) by {
                    if k < p.len() - 1 {
                        assert(p[k] == pr[k]);
                    }
                }
            }
            assert forall|k: int| 0 <= k < s.len() implies (#[trigger] p[k]).0 == s[k].0
                && p[k].1 == s[k].1 by {
                if k < s.len() - 1 {
                    assert(p[k] == pr[k]);
                    assert(rest[k] == s[k]);
                }
            }
            assert(odometer_value(p) == (vr + 1) * d);
            assert((vr + 1) * d == vr * d + d) by (nonlinear_arith);
            assert(odometer_value(p) == odometer_value(s) + 1);
            lemma_odometer_value_bound(rest);
            assert(vr + 1 != tr);
            assert(vr + 1 < tr);
            assert(vr * d + (d - 1) + 1 < tr * d) by (nonlinear_arith)
                requires
                    vr + 1 < tr,
                    d >= 1,
            ;
            assert(odometer_value(s) + 1 != odometer_total(s));
        }
    } else {
        // The last digit simply increments in place.
        let u = odometer_next(s);
        assert(u == rest.push((e.0, e.1, (e.2 + 1) as usize)));
        let p = reseeded(u, s);
        assert(p =~= u);
        assert(u.drop_last() =~= rest);
        assert(all_in_range(p)) by {
            assert forall|k: int| 0 <= k < p.len() implies entry_in_range(#[trigger] p[k]) by {
                if k < p.len() - 1 {
                    assert(p[k] == rest[k]);
                    assert(entry_in_range(rest[k]));
                }
            }
        }
        assert forall|k: int| 0 <= k < s.len() implies (#[trigger] p[k]).0 == s[k].0 && p[k].1
            == s[k].1 by {
            if k < s.len() - 1 {
                assert(p[k] == rest[k]);
                assert(rest[k] == s[k]);
            }
        }
        assert(odometer_value(u) == odometer_value(rest) * d + ((e.2 + 1 - e.0) as nat));
        assert(odometer_value(p) == odometer_value(s) + 1);
        lemma_odometer_total_pos(rest);
        lemma_odometer_value_bound(rest);
        let vr = odometer_value(rest);
        let tr = odometer_total(rest);
        let g0 = (e.2 - e.0) as nat;
        assert(odometer_value(s) == vr * d + g0);
        assert(g0 + 1 <= d - 1);
        assert(vr * d + g0 + 1 < tr * d) by (nonlinear_arith)
            requires
                vr < tr,
                g0 + 1 <= d - 1,
                d >= 1,
        ;
        assert(odometer_value(s) + 1 != odometer_total(s));
    }
}

/// Every history admits at least one combination.
pub proof fn lemma_odometer_total_pos(s: Seq<(usize, usize, usize)>)
    requires
        all_in_range(s),
    ensures
        odometer_total(s) >= 1,
    decreases s.len(),
{
    if s.len() > 0 {
        assert(all_in_range(s.drop_last())) by {
            assert(forall|i: int| 0 <= i < s.len() - 1 ==> s.drop_last()[i] == s[i]);
        }
        lemma_odometer_total_pos(s.drop_last());
        assert(entry_in_range(s.last()));
        let d = (s.last().1 - s.last().0) as nat;
        let t = odometer_total(s.drop_last());
        assert(t * d >= 1) by (nonlinear_arith)
            requires
                t >= 1,
                d >= 1,
        ;
    }
}

/// A history's mixed-radix value stays below the combination count.
pub proof fn lemma_odometer_value_bound(s: Seq<(usize, usize, usize)>)
    requires
        all_in_range(s),
    ensures
        odometer_value(s) < odometer_total(s),
    decreases s.len(),
{
    if s.len() > 0 {
        assert(all_in_range(s.drop_last())) by {
            assert(forall|i: int| 0 <= i < s.len() - 1 ==> s.drop_last()[i] == s[i]);
        }
        lemma_odometer_value_bound(s.drop_last());
        assert(entry_in_range(s.last()));
        let d = (s.last().1 - s.last().0) as nat;
        let v = odometer_value(s.drop_last());
        let t = odometer_total(s.drop_last());
        let g = (s.last().2 - s.last().0) as nat;
        assert(v * d + g < t * d) by (nonlinear_arith)
            requires
                v < t,
                g < d,
        ;
    }
}

} // verus!
