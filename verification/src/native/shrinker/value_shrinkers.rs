//! Standalone value shrinkers.
//!
//! Each shrinker takes an initial value and a predicate, keeps track of the
//! values it has already considered (its `calls` count), and moves towards
//! smaller values while the predicate keeps holding:
//!
//! - [`IntegerShrinker`] for non-negative integers,
//! - [`OrderingShrinker`] that makes a sequence more sorted without changing
//!   its contents,
//! - [`CollectionShrinker`], [`BytesShrinker`], [`StringShrinker`] and the
//!   collection pipeline that shortens sequences and shrinks their elements.

use vstd::prelude::*;
use std::collections::HashSet;

use crate::native::charutil::chars_to_string;

verus! {

// ---------------------------------------------------------------------------
// Orders on sequences
// ---------------------------------------------------------------------------

/// Lexicographic `<` on sequences, as `Vec`'s `Ord` compares them: the first
/// differing element decides, and a proper prefix is smaller.
pub open spec fn lex_lt(a: Seq<u64>, b: Seq<u64>) -> bool
    decreases a.len(),
{
    if b.len() == 0 {
        false
    } else if a.len() == 0 {
        true
    } else if a[0] != b[0] {
        a[0] < b[0]
    } else {
        lex_lt(a.drop_first(), b.drop_first())
    }
}

/// Whether `a` comes before `b` lexicographically.
pub fn lex_less(a: &[u64], b: &[u64]) -> (r: bool)
    ensures
        r == lex_lt(a@, b@),
{
    let mut i: usize = 0;
    proof {
        assert(a@.skip(0) =~= a@);
        assert(b@.skip(0) =~= b@);
    }
    while i < a.len() && i < b.len()
        invariant
            i <= a@.len(),
            i <= b@.len(),
            lex_lt(a@, b@) == lex_lt(a@.skip(i as int), b@.skip(i as int)),
        decreases a@.len() - i,
    {
        if a[i] != b[i] {
            return a[i] < b[i];
        }
        proof {
            assert(a@.skip(i as int).drop_first() =~= a@.skip(i + 1));
            assert(b@.skip(i as int).drop_first() =~= b@.skip(i + 1));
        }
        i += 1;
    }
    i < b.len()
}

/// `n` zeros: the simplest sequence of length `n`.
pub open spec fn zeros(n: nat) -> Seq<u64> {
    Seq::new(n, |i: int| 0u64)
}

/// Zeros at most as long as `v`, and different from it, are better.
proof fn lemma_zeros_better(v: Seq<u64>, n: nat)
    requires
        n <= v.len(),
        zeros(n) != v,
    ensures
        better_collection(zeros(n), v),
    decreases v.len(),
{
    if n == v.len() {
        lemma_zeros_lex(v);
    }
}

/// Zeros come before any other sequence of their length.
proof fn lemma_zeros_lex(v: Seq<u64>)
    requires
        zeros(v.len()) != v,
    ensures
        lex_lt(zeros(v.len()), v),
    decreases v.len(),
{
    let z = zeros(v.len());
    if v.len() == 0 {
        assert(z =~= v);
    } else if v[0] != 0 {
    } else {
        assert(z.drop_first() =~= zeros(v.drop_first().len()));
        if zeros(v.drop_first().len()) == v.drop_first() {
            assert(z =~= v) by {
                assert forall|i: int| 0 <= i < v.len() implies z[i] == v[i] by {
                    if i > 0 {
                        assert(v.drop_first()[i - 1] == v[i]);
                    }
                }
            }
        }
        lemma_zeros_lex(v.drop_first());
    }
}

/// The collection order: a shorter sequence is better; otherwise the first
/// element at which the two differ decides (a left side that runs past the
/// right one without a difference is not better).
pub open spec fn better_collection(left: Seq<u64>, right: Seq<u64>) -> bool {
    left.len() < right.len() || lex_lt(left, right)
}

/// Whether `left` is better than `right` under the collection order.
fn collection_left_is_better(left: &[u64], right: &[u64]) -> (r: bool)
    ensures
        r == better_collection(left@, right@),
{
    if left.len() < right.len() {
        return true;
    }
    lex_less(left, right)
}

/// Whether a sequence is in ascending order.
pub open spec fn sorted(s: Seq<u64>) -> bool {
    forall|a: int, b: int| 0 <= a < b < s.len() ==> s[a] <= s[b]
}

/// Sorts in place (`slice::sort`).
#[verifier::external_body]
fn sort_values(v: &mut Vec<u64>)
    ensures
        sorted(final(v)@),
        final(v)@.to_multiset() == old(v)@.to_multiset(),
        final(v)@.len() == old(v)@.len(),
{
    v.sort();
}

/// Appends `src[a..b]` to `dst`.
fn append_range(dst: &mut Vec<u64>, src: &[u64], a: usize, b: usize)
    requires
        a <= b <= src@.len(),
    ensures
        final(dst)@ == old(dst)@ + src@.subrange(a as int, b as int),
{
    let mut k = a;
    while k < b
        invariant
            a <= k <= b <= src@.len(),
            dst@ == old(dst)@ + src@.subrange(a as int, k as int),
        decreases b - k,
    {
        dst.push(src[k]);
        proof {
            assert(src@.subrange(a as int, k + 1) =~= src@.subrange(a as int, k as int).push(src@[k as int]));
        }
        k += 1;
    }
}

/// `lex_lt` is a strict order.
pub proof fn lemma_lex_irreflexive(a: Seq<u64>)
    ensures
        !lex_lt(a, a),
    decreases a.len(),
{
    if a.len() > 0 {
        lemma_lex_irreflexive(a.drop_first());
    }
}

/// `lex_lt` is transitive.
pub proof fn lemma_lex_transitive(a: Seq<u64>, b: Seq<u64>, c: Seq<u64>)
    requires
        lex_lt(a, b),
        lex_lt(b, c),
    ensures
        lex_lt(a, c),
    decreases a.len(),
{
    if a.len() > 0 && b.len() > 0 && c.len() > 0 && a[0] == b[0] && b[0] == c[0] {
        lemma_lex_transitive(a.drop_first(), b.drop_first(), c.drop_first());
    }
}

/// The weight of a position `k` places from the end, in base `2^64`.
pub open spec fn place_weight(k: nat) -> nat
    decreases k,
{
    if k == 0 {
        1
    } else {
        0x1_0000_0000_0000_0000 * place_weight((k - 1) as nat)
    }
}

/// A sequence read as a number in base `2^64`, first element most
/// significant.
pub open spec fn seq_rank(s: Seq<u64>) -> nat
    decreases s.len(),
{
    if s.len() == 0 {
        0
    } else {
        s[0] as nat * place_weight((s.len() - 1) as nat) + seq_rank(s.drop_first())
    }
}

proof fn lemma_rank_bound(s: Seq<u64>)
    ensures
        seq_rank(s) < place_weight(s.len()),
    decreases s.len(),
{
    if s.len() > 0 {
        lemma_rank_bound(s.drop_first());
        let w = place_weight((s.len() - 1) as nat);
        let x = s[0] as nat;
        assert(x * w + w <= 0x1_0000_0000_0000_0000 * w) by (nonlinear_arith)
            requires
                x < 0x1_0000_0000_0000_0000,
        ;
    }
}

/// Among sequences of one length, the lexicographic order is the order of
/// their ranks.
pub proof fn lemma_rank_lex(a: Seq<u64>, b: Seq<u64>)
    requires
        a.len() == b.len(),
        lex_lt(a, b),
    ensures
        seq_rank(a) < seq_rank(b),
    decreases a.len(),
{
    let w = place_weight((a.len() - 1) as nat);
    if a[0] == b[0] {
        lemma_rank_lex(a.drop_first(), b.drop_first());
    } else {
        lemma_rank_bound(a.drop_first());
        let x = a[0] as nat;
        let y = b[0] as nat;
        assert(x * w + w <= y * w) by (nonlinear_arith)
            requires
                x < y,
        ;
    }
}

/// The multiset of a sequence split into three parts.
proof fn lemma_multiset_three(a: Seq<u64>, b: Seq<u64>, c: Seq<u64>)
    ensures
        (a + b + c).to_multiset() == a.to_multiset().add(b.to_multiset()).add(c.to_multiset()),
{
    vstd::seq_lib::lemma_multiset_commutative(a + b, c);
    vstd::seq_lib::lemma_multiset_commutative(a, b);
}

/// `current` with `current[i..i + k]` sorted.
fn sort_region(current: &[u64], i: usize, k: usize) -> (r: Vec<u64>)
    requires
        i + k <= current@.len(),
    ensures
        r@.len() == current@.len(),
        r@.to_multiset() == current@.to_multiset(),
        r@.subrange(0, i as int) == current@.subrange(0, i as int),
        sorted(r@.subrange(i as int, i + k)),
        r@.subrange(i as int, i + k).to_multiset() == current@.subrange(i as int, i + k).to_multiset(),
        r@.subrange(i + k, r@.len() as int) == current@.subrange(i + k, current@.len() as int),
{
    let n = current.len();
    let mut attempt: Vec<u64> = Vec::new();
    append_range(&mut attempt, current, 0, i);
    let mut middle: Vec<u64> = Vec::new();
    append_range(&mut middle, current, i, i + k);
    sort_values(&mut middle);
    append_range(&mut attempt, middle.as_slice(), 0, middle.len());
    append_range(&mut attempt, current, i + k, current.len());
    proof {
        let a = current@.subrange(0, i as int);
        let b = current@.subrange(i as int, i + k);
        let c = current@.subrange(i + k, current@.len() as int);
        assert(current@ =~= a + b + c);
        assert(middle@.subrange(0, middle@.len() as int) =~= middle@);
        assert(attempt@ =~= a + middle@ + c);
        lemma_multiset_three(a, b, c);
        lemma_multiset_three(a, middle@, c);
        assert(attempt@.subrange(0, i as int) =~= a);
        assert(attempt@.subrange(i as int, i + k) =~= middle@);
        assert(attempt@.subrange(i + k, attempt@.len() as int) =~= c);
    }
    attempt
}

/// A "gap sort": sorts `current[a..b]` except position `i`, whose value
/// stays where it is while the sorted values fill the other positions.
fn build_gap_sort(current: &[u64], a: usize, b: usize, i: usize) -> (r: Vec<u64>)
    requires
        a <= i < b <= current@.len(),
    ensures
        r@.len() == current@.len(),
        r@.to_multiset() == current@.to_multiset(),
        r@[i as int] == current@[i as int],
        r@.subrange(0, a as int) == current@.subrange(0, a as int),
        r@.subrange(b as int, r@.len() as int) == current@.subrange(b as int, current@.len() as int),
{
    let split = i - a;
    let mut values: Vec<u64> = Vec::new();
    append_range(&mut values, current, a, i);
    append_range(&mut values, current, i + 1, b);
    let ghost unsorted = values@;
    sort_values(&mut values);
    let mut attempt: Vec<u64> = Vec::new();
    append_range(&mut attempt, current, 0, a);
    append_range(&mut attempt, values.as_slice(), 0, split);
    attempt.push(current[i]);
    append_range(&mut attempt, values.as_slice(), split, values.len());
    append_range(&mut attempt, current, b, current.len());
    proof {
        let pre = current@.subrange(0, a as int);
        let left = current@.subrange(a as int, i as int);
        let mid = seq![current@[i as int]];
        let right = current@.subrange(i + 1, b as int);
        let post = current@.subrange(b as int, current@.len() as int);
        let v1 = values@.subrange(0, split as int);
        let v2 = values@.subrange(split as int, values@.len() as int);
        assert(unsorted =~= left + right);
        assert(values@ =~= v1 + v2);
        assert(current@ =~= pre + left + mid + right + post);
        assert(attempt@ =~= pre + v1 + mid + v2 + post);
        vstd::seq_lib::lemma_multiset_commutative(pre + left + mid + right, post);
        vstd::seq_lib::lemma_multiset_commutative(pre + left + mid, right);
        vstd::seq_lib::lemma_multiset_commutative(pre + left, mid);
        vstd::seq_lib::lemma_multiset_commutative(pre, left);
        vstd::seq_lib::lemma_multiset_commutative(pre + v1 + mid + v2, post);
        vstd::seq_lib::lemma_multiset_commutative(pre + v1 + mid, v2);
        vstd::seq_lib::lemma_multiset_commutative(pre + v1, mid);
        vstd::seq_lib::lemma_multiset_commutative(pre, v1);
        vstd::seq_lib::lemma_multiset_commutative(v1, v2);
        vstd::seq_lib::lemma_multiset_commutative(left, right);
        broadcast use vstd::multiset::group_multiset_axioms;
        assert(v1.to_multiset().add(v2.to_multiset()) == left.to_multiset().add(right.to_multiset()));
        let ma = pre.to_multiset().add(v1.to_multiset()).add(mid.to_multiset()).add(v2.to_multiset()).add(
            post.to_multiset(),
        );
        let mc = pre.to_multiset().add(left.to_multiset()).add(mid.to_multiset()).add(right.to_multiset()).add(
            post.to_multiset(),
        );
        assert(attempt@.to_multiset() == ma);
        assert(current@.to_multiset() == mc);
        assert forall|x: u64| ma.count(x) == mc.count(x) by {
            assert(v1.to_multiset().add(v2.to_multiset()).count(x) == left.to_multiset().add(
                right.to_multiset(),
            ).count(x));
        }
        assert(ma =~= mc);
        assert(attempt@.subrange(0, a as int) =~= pre);
        assert(attempt@.subrange(b as int, attempt@.len() as int) =~= post);
    }
    attempt
}

/// Whether two sequences are equal.
fn values_equal(a: &[u64], b: &[u64]) -> (r: bool)
    ensures
        r == (a@ == b@),
{
    if a.len() != b.len() {
        return false;
    }
    let mut i: usize = 0;
    while i < a.len()
        invariant
            i <= a@.len(),
            a@.len() == b@.len(),
            forall|j: int| 0 <= j < i ==> a@[j] == b@[j],
        decreases a@.len() - i,
    {
        if a[i] != b[i] {
            return false;
        }
        i += 1;
    }
    assert(a@ =~= b@);
    true
}

/// The values of the vectors of `vs`.
pub open spec fn views(vs: Seq<Vec<u64>>) -> Seq<Seq<u64>> {
    vs.map_values(|v: Vec<u64>| v@)
}

/// Whether some vector of `seen` holds `value`.
fn seen_contains(seen: &Vec<Vec<u64>>, value: &[u64]) -> (r: bool)
    ensures
        r == views(seen@).contains(value@),
{
    let mut i: usize = 0;
    while i < seen.len()
        invariant
            i <= seen@.len(),
            forall|j: int| 0 <= j < i ==> #[trigger] seen@[j]@ != value@,
        decreases seen@.len() - i,
    {
        if values_equal(seen[i].as_slice(), value) {
            assert(views(seen@)[i as int] == value@);
            return true;
        }
        i += 1;
    }
    assert forall|j: int| 0 <= j < views(seen@).len() implies #[trigger] views(seen@)[j] != value@ by {
        assert(seen@[j]@ != value@);
    }
    false
}

/// A copy of a vector, element for element.
fn copy_values(v: &[u64]) -> (r: Vec<u64>)
    ensures
        r@ == v@,
{
    let mut r: Vec<u64> = Vec::new();
    append_range(&mut r, v, 0, v.len());
    assert(v@.subrange(0, v@.len() as int) =~= v@);
    r
}

// ---------------------------------------------------------------------------
// Searching for a large integer
// ---------------------------------------------------------------------------

/// A question that [`find_integer`] asks at increasing integers.
pub trait Probe: Sized {
    /// What holds between questions.
    spec fn probe_inv(&self) -> bool;

    /// No integer above this bound is ever answered yes.
    spec fn limit(&self) -> nat;

    /// How the asker's state may change while questions are asked.
    spec fn may_become(&self, later: Self) -> bool;

    proof fn lemma_may_become_refl(a: Self)
        ensures
            a.may_become(a),
    ;

    proof fn lemma_may_become_trans(a: Self, b: Self, c: Self)
        requires
            a.may_become(b),
            b.may_become(c),
        ensures
            a.may_become(c),
    ;

    /// The state is where a yes at `k` leaves it (0: where it started).
    spec fn reached(&self, k: nat) -> bool;

    /// The question at `k` is known to be answered no.
    spec fn refuted(&self, k: nat) -> bool;

    /// Asks the question at `n`; 0 is never asked.
    fn holds(&mut self, n: u128) -> (r: bool)
        requires
            old(self).probe_inv(),
            n >= 1,
        ensures
            final(self).probe_inv(),
            final(self).limit() == old(self).limit(),
            old(self).may_become(*final(self)),
            r ==> n <= old(self).limit(),
            r ==> final(self).reached(n as nat),
            !r ==> final(self).refuted(n as nat),
            forall|j: nat| !r && old(self).reached(j) ==> #[trigger] final(self).reached(j),
            forall|j: nat| #[trigger] old(self).refuted(j) ==> final(self).refuted(j),
    ;
}

/// Finds a (hopefully large) integer at which the probe holds: a linear scan
/// over `1..5` first (it is wasteful to probe 2 if the answer is 0), then
/// exponential probing, then a binary search between the last yes and the
/// first no. The probe is taken to hold at 0, which is not asked.
pub(crate) fn find_integer<P: Probe>(p: &mut P) -> (r: u128)
    requires
        old(p).probe_inv(),
        old(p).limit() <= u64::MAX,
        old(p).reached(0),
    ensures
        final(p).probe_inv(),
        final(p).limit() == old(p).limit(),
        old(p).may_become(*final(p)),
        r <= old(p).limit(),
        final(p).reached(r as nat),
        final(p).refuted((r + 1) as nat),
{
    let ghost lim = p.limit();
    let ghost start = *p;
    proof {
        P::lemma_may_become_refl(start);
    }
    let mut i: u128 = 1;
    while i < 5
        invariant
            1 <= i <= 5,
            p.probe_inv(),
            p.limit() == lim,
            lim == old(p).limit(),
            start == *old(p),
            start.may_become(*p),
            lim <= u64::MAX,
            i - 1 <= lim,
            p.reached((i - 1) as nat),
        decreases 5 - i,
    {
        let ghost before = *p;
        let yes = p.holds(i);
        proof {
            P::lemma_may_become_trans(start, before, *p);
        }
        if !yes {
            return i - 1;
        }
        i += 1;
    }
    let mut lo: u128 = 4;
    let mut hi: u128 = 5;
    loop
        invariant
            p.probe_inv(),
            p.limit() == lim,
            lim == old(p).limit(),
            start == *old(p),
            start.may_become(*p),
            lim <= u64::MAX,
            lo <= lim,
            lo < hi,
            hi <= 2 * lim + 2,
            p.reached(lo as nat),
        ensures
            p.probe_inv(),
            p.limit() == lim,
            start.may_become(*p),
            lo <= lim,
            lo < hi,
            hi <= 2 * lim + 2,
            p.reached(lo as nat),
            p.refuted(hi as nat),
        decreases lim - lo,
    {
        let ghost before = *p;
        let yes = p.holds(hi);
        proof {
            P::lemma_may_become_trans(start, before, *p);
        }
        if !yes {
            break;
        }
        lo = hi;
        hi = hi * 2;
    }
    while lo + 1 < hi
        invariant
            p.probe_inv(),
            p.limit() == lim,
            lim == old(p).limit(),
            start == *old(p),
            start.may_become(*p),
            lim <= u64::MAX,
            lo <= lim,
            lo < hi,
            hi <= 2 * lim + 2,
            p.reached(lo as nat),
            p.refuted(hi as nat),
        decreases hi - lo,
    {
        let mid = (lo + hi) / 2;
        let ghost before = *p;
        let yes = p.holds(mid);
        proof {
            P::lemma_may_become_trans(start, before, *p);
        }
        if yes {
            lo = mid;
        } else {
            hi = mid;
        }
    }
    lo
}

// ---------------------------------------------------------------------------
// Integers
// ---------------------------------------------------------------------------

/// Answers whether a candidate value keeps the property being shrunk for.
pub trait ValueOracle: Sized {
    /// What holds between questions.
    spec fn oracle_inv(&self) -> bool;

    /// How asking may change the oracle.
    spec fn keeps(&self, later: Self) -> bool;

    proof fn lemma_keeps_refl(a: Self)
        ensures
            a.keeps(a),
    ;

    proof fn lemma_keeps_trans(a: Self, b: Self, c: Self)
        requires
            a.keeps(b),
            b.keeps(c),
        ensures
            a.keeps(c),
    ;

    /// The oracle has answered yes to `v`.
    spec fn accepted(&self, v: u64) -> bool;

    /// The oracle has answered no to `v`.
    spec fn rejected(&self, v: u64) -> bool;

    /// Every question asked so far, in order.
    spec fn asked(&self) -> Seq<u64>;

    /// Asks about `v`. Answers, once given, are remembered.
    fn test(&mut self, v: u64) -> (r: bool)
        requires
            old(self).oracle_inv(),
        ensures
            final(self).oracle_inv(),
            old(self).keeps(*final(self)),
            final(self).asked() == old(self).asked().push(v),
            r ==> final(self).accepted(v),
            !r ==> final(self).rejected(v),
            forall|w: u64| old(self).accepted(w) ==> #[trigger] final(self).accepted(w),
            forall|w: u64| old(self).rejected(w) ==> #[trigger] final(self).rejected(w),
    ;
}

/// A predicate on integers, asked directly.
pub struct IntPredicate<F> {
    pub f: F,
    /// Every value `f` was called with, in order.
    pub log: Ghost<Seq<u64>>,
}

impl<F: Fn(u64) -> bool> ValueOracle for IntPredicate<F> {
    open spec fn oracle_inv(&self) -> bool {
        forall|v: u64| call_requires(self.f, (v,))
    }

    open spec fn keeps(&self, later: Self) -> bool {
        later.f == self.f
    }

    proof fn lemma_keeps_refl(a: Self) {
    }

    proof fn lemma_keeps_trans(a: Self, b: Self, c: Self) {
    }

    open spec fn accepted(&self, v: u64) -> bool {
        call_ensures(self.f, (v,), true)
    }

    open spec fn rejected(&self, v: u64) -> bool {
        call_ensures(self.f, (v,), false)
    }

    closed spec fn asked(&self) -> Seq<u64> {
        self.log@
    }

    fn test(&mut self, v: u64) -> (r: bool) {
        proof {
            self.log@ = self.log@.push(v);
        }
        (self.f)(v)
    }
}

/// The number of bits needed to write `v` (0 for 0).
fn bit_length(v: u64) -> (n: u64)
    ensures
        n <= 64,
        n == 0 <==> v == 0,
{
    broadcast use vstd::std_specs::bits::axiom_u64_leading_zeros;
    let lz = v.leading_zeros();
    64 - lz as u64
}

/// The step of the integer search that [`find_integer`] is driving.
enum IntPass {
    /// Try `base >> k`.
    ShiftRight { base: u64, size: u64 },
    /// Try `base` with its top `k` bits cleared.
    MaskHigh { base: u64, n: u64 },
    /// Try `base - k * step`.
    Multiples { base: u64, step: u64 },
}

/// The state of an integer shrink: the best value so far, every value
/// considered, and the oracle asked about them.
struct IntegerRun<O> {
    current: u64,
    seen: HashSet<u64>,
    initial: Ghost<u64>,
    oracle: O,
    pass: IntPass,
    /// What the oracle had been asked before this shrink began.
    asked0: Ghost<Seq<u64>>,
    /// The values this shrink asked the oracle about, in order.
    calls: Ghost<Seq<u64>>,
}

impl<O: ValueOracle> IntegerRun<O> {
    /// The current value is the initial one or was accepted; it never grows;
    /// and every considered value below it was rejected.
    pub closed spec fn wf(&self) -> bool {
        &&& self.oracle.oracle_inv()
        &&& self.seen@.contains(self.current)
        &&& self.seen@.contains(self.initial@)
        &&& self.current <= self.initial@
        &&& (self.current == self.initial@ || self.oracle.accepted(self.current))
        &&& forall|v: u64| #[trigger] self.seen@.contains(v) && v < self.current ==> self.oracle.rejected(v)
        &&& (self.pass matches IntPass::Multiples { step, .. } ==> 1 <= step <= 2)
        &&& self.oracle.asked() == self.asked0@ + self.calls@
        &&& self.calls@.no_duplicates()
        &&& forall|v: u64| #[trigger] self.calls@.contains(v) <==> (self.seen@.contains(v) && v != self.initial@)
    }

    pub closed spec fn moves_to(&self, later: Self) -> bool {
        &&& self.oracle.keeps(later.oracle)
        &&& later.initial == self.initial
        &&& later.asked0 == self.asked0
        &&& later.current <= self.current
        &&& self.seen@.subset_of(later.seen@)
        &&& forall|w: u64| #[trigger] self.oracle.rejected(w) ==> later.oracle.rejected(w)
    }

    fn new(initial: u64, oracle: O) -> (r: Self)
        requires
            oracle.oracle_inv(),
        ensures
            r.wf(),
            r.current == initial,
            r.initial@ == initial,
            r.seen@ == set![initial],
            r.oracle == oracle,
            r.asked0@ == oracle.asked(),
            r.calls@ == Seq::<u64>::empty(),
    {
        broadcast use vstd::std_specs::hash::group_hash_axioms;
        let mut seen: HashSet<u64> = HashSet::new();
        seen.insert(initial);
        IntegerRun {
            current: initial,
            seen,
            initial: Ghost(initial),
            pass: IntPass::ShiftRight { base: initial, size: 0 },
            asked0: Ghost(oracle.asked()),
            calls: Ghost(Seq::empty()),
            oracle,
        }
    }

    proof fn lemma_moves_refl(a: Self)
        ensures
            a.moves_to(a),
    {
        O::lemma_keeps_refl(a.oracle);
    }

    proof fn lemma_moves_trans(a: Self, b: Self, c: Self)
        requires
            a.moves_to(b),
            b.moves_to(c),
        ensures
            a.moves_to(c),
    {
        O::lemma_keeps_trans(a.oracle, b.oracle, c.oracle);
    }

    /// Considers `value`: it becomes current when the oracle accepts it and
    /// it is smaller. The answer is whether `value` is (now) current.
    fn consider(&mut self, value: u64) -> (r: bool)
        requires
            old(self).wf(),
        ensures
            final(self).wf(),
            old(self).moves_to(*final(self)),
            final(self).pass == old(self).pass,
            final(self).seen@.contains(value),
            r ==> final(self).current == value,
            !r ==> final(self).current == old(self).current,
            !r ==> final(self).oracle.rejected(value) || value > old(self).current,
            value == old(self).current ==> r,
    {
        broadcast use vstd::std_specs::hash::group_hash_axioms;
        proof {
            Self::lemma_moves_refl(*self);
        }
        if value == self.current {
            return true;
        }
        if self.seen.contains(&value) {
            return false;
        }
        let ghost seen0 = self.seen@;
        self.seen.insert(value);
        let ghost calls0 = self.calls@;
        proof {
            self.calls@ = self.calls@.push(value);
        }
        let yes = self.oracle.test(value);
        proof {
            assert(self.oracle.asked() =~= self.asked0@ + self.calls@);
            assert forall|a: int, b: int| 0 <= a < b < self.calls@.len() implies self.calls@[a] != self.calls@[b] by {
                if b == calls0.len() {
                    assert(calls0.contains(calls0[a]));
                }
            }
            assert(seen0.contains(self.initial@));
            assert(value != self.initial@);
            assert forall|v: u64| #[trigger] self.calls@.contains(v) <==> (self.seen@.contains(v) && v != self.initial@) by {
                assert(self.seen@.contains(v) <==> (seen0.contains(v) || v == value));
                assert(calls0.contains(v) <==> (seen0.contains(v) && v != self.initial@));
                if self.calls@.contains(v) && v != value {
                    let j = choose|j: int| 0 <= j < self.calls@.len() && self.calls@[j] == v;
                    assert(calls0[j] == v);
                }
                if v != value && self.seen@.contains(v) && v != self.initial@ {
                    assert(calls0.contains(v));
                    let j = choose|j: int| 0 <= j < calls0.len() && calls0[j] == v;
                    assert(self.calls@[j] == v);
                }
                assert(self.calls@[calls0.len() as int] == value);
            }
        }
        if yes && value < self.current {
            self.current = value;
            true
        } else {
            false
        }
    }

    fn search(&mut self, pass: IntPass)
        requires
            old(self).wf(),
            pass matches IntPass::Multiples { step, .. } ==> 1 <= step <= 2,
            pass matches IntPass::Multiples { base, .. } ==> base == old(self).current,
        ensures
            final(self).wf(),
            old(self).moves_to(*final(self)),
            final(self).pass == pass,
            exists|k: nat| #[trigger] final(self).reached(k) && final(self).refuted(k + 1),
    {
        self.pass = pass;
        let k = find_integer(self);
        assert(self.reached(k as nat) && self.refuted((k + 1) as nat));
    }

    fn mask_high_bits(&mut self)
        requires
            old(self).wf(),
        ensures
            final(self).wf(),
            old(self).moves_to(*final(self)),
    {
        let base = self.current;
        let n = bit_length(base);
        self.search(IntPass::MaskHigh { base, n });
    }

    fn short_circuit(&mut self) -> (r: bool)
        requires
            old(self).wf(),
        ensures
            final(self).wf(),
            old(self).moves_to(*final(self)),
            final(self).seen@.contains(0),
            r ==> final(self).current == 0 || final(self).oracle.rejected((final(self).current - 1) as u64),
    {
        let ghost s0 = *self;
        proof {
            Self::lemma_moves_refl(s0);
        }
        let mut i: u64 = 0;
        while i < 2
            invariant
                i <= 2,
                self.wf(),
                s0 == *old(self),
                s0.moves_to(*self),
                i >= 1 ==> self.seen@.contains(0),
                i >= 1 ==> self.current >= 1 && self.oracle.rejected(0),
                i >= 2 ==> self.current >= 2 && self.oracle.rejected(1),
            decreases 2 - i,
        {
            let ghost s1 = *self;
            let accepted = self.consider(i);
            proof {
                Self::lemma_moves_trans(s0, s1, *self);
            }
            if accepted {
                return true;
            }
            i += 1;
        }
        let ghost s1 = *self;
        self.mask_high_bits();
        proof {
            Self::lemma_moves_trans(s0, s1, *self);
        }
        let size = bit_length(self.current);
        if size > 8 {
            let shifted = self.current >> (size - 8);
            let ghost s2 = *self;
            self.consider(shifted);
            proof {
                Self::lemma_moves_trans(s0, s2, *self);
            }
            let masked = self.current & 0xFF;
            let ghost s3 = *self;
            self.consider(masked);
            proof {
                Self::lemma_moves_trans(s0, s3, *self);
            }
        }
        self.current == 2
    }

    fn run_step(&mut self)
        requires
            old(self).wf(),
        ensures
            final(self).wf(),
            old(self).moves_to(*final(self)),
            final(self).current == 0 || final(self).oracle.rejected((final(self).current - 1) as u64),
    {
        let ghost s0 = *self;
        self.shift_right();
        let ghost s1 = *self;
        self.shrink_by_multiples(2);
        proof {
            Self::lemma_moves_trans(s0, s1, *self);
        }
        let ghost s2 = *self;
        self.shrink_by_multiples(1);
        proof {
            Self::lemma_moves_trans(s0, s2, *self);
        }
    }

    /// Tries the current value shifted right by as many bits as keep it
    /// accepted.
    fn shift_right(&mut self)
        requires
            old(self).wf(),
        ensures
            final(self).wf(),
            old(self).moves_to(*final(self)),
    {
        let base = self.current;
        let size = bit_length(base);
        self.search(IntPass::ShiftRight { base, size });
    }

    /// Tries the current value lowered by as many multiples of `k` as keep
    /// it accepted.
    fn shrink_by_multiples(&mut self, k: u64)
        requires
            old(self).wf(),
            1 <= k <= 2,
        ensures
            final(self).wf(),
            old(self).moves_to(*final(self)),
            k == 1 ==> final(self).current == 0 || final(self).oracle.rejected((final(self).current - 1) as u64),
    {
        let base = self.current;
        self.search(IntPass::Multiples { base, step: k });
        proof {
            let j = choose|j: nat| #[trigger] self.reached(j) && self.refuted(j + 1);
            if k == 1 {
                assert(self.current == base - j);
                if j + 1 <= base {
                    assert((base - (j + 1)) as u64 == (self.current - 1) as u64);
                }
            }
        }
    }

    fn run(&mut self)
        requires
            old(self).wf(),
        ensures
            final(self).wf(),
            old(self).moves_to(*final(self)),
            final(self).seen@.contains(0),
            final(self).current == 0 || final(self).oracle.rejected((final(self).current - 1) as u64),
    {
        let ghost s0 = *self;
        if self.short_circuit() {
            return;
        }
        let ghost s1 = *self;
        self.run_step();
        proof {
            Self::lemma_moves_trans(s0, s1, *self);
        }
    }
}

impl<O: ValueOracle> Probe for IntegerRun<O> {
    closed spec fn probe_inv(&self) -> bool {
        self.wf()
    }

    closed spec fn limit(&self) -> nat {
        match self.pass {
            IntPass::ShiftRight { size, .. } => size as nat,
            IntPass::MaskHigh { n, .. } => n as nat,
            IntPass::Multiples { base, .. } => base as nat,
        }
    }

    closed spec fn may_become(&self, later: Self) -> bool {
        self.moves_to(later) && later.pass == self.pass
    }

    closed spec fn reached(&self, k: nat) -> bool {
        match self.pass {
            IntPass::Multiples { base, step } => k * step <= base && self.current == base - k * step,
            _ => true,
        }
    }

    closed spec fn refuted(&self, k: nat) -> bool {
        match self.pass {
            IntPass::Multiples { base, step } => k * step > base || self.oracle.rejected((base - k * step) as u64)
                || base - k * step > self.current,
            _ => true,
        }
    }

    proof fn lemma_may_become_refl(a: Self) {
        O::lemma_keeps_refl(a.oracle);
    }

    proof fn lemma_may_become_trans(a: Self, b: Self, c: Self) {
        O::lemma_keeps_trans(a.oracle, b.oracle, c.oracle);
    }

    fn holds(&mut self, k: u128) -> (r: bool) {
        proof {
            Self::lemma_moves_refl(*self);
        }
        match self.pass {
            IntPass::ShiftRight { base, size } => {
                if k > size as u128 {
                    return false;
                }
                let shifted = if k >= 64 { 0 } else { base >> (k as u64) };
                self.consider(shifted)
            },
            IntPass::MaskHigh { base, n } => {
                if k >= n as u128 {
                    return false;
                }
                let width = n - k as u64;
                let mask = if width >= 64 {
                    u64::MAX
                } else {
                    assert(1u64 << width >= 1) by (bit_vector)
                        requires
                            width < 64,
                    ;
                    (1u64 << width) - 1
                };
                self.consider(mask & base)
            },
            IntPass::Multiples { base, step } => {
                if k > base as u128 {
                    assert(k * step > base) by (nonlinear_arith)
                        requires
                            k > base,
                            step >= 1,
                    ;
                    return false;
                }
                assert(k * step <= 2 * u64::MAX) by (nonlinear_arith)
                    requires
                        k <= u64::MAX,
                        step <= 2,
                ;
                let prod = k * step as u128;
                if prod > base as u128 {
                    return false;
                }
                self.consider(base - prod as u64)
            },
        }
    }
}

/// Standalone shrinker for non-negative integers.
///
/// Constructed with an initial value and a predicate, `run` looks for a
/// smaller value that still satisfies the predicate: first 0 and 1, then
/// masking off high bits, shifting right, and subtracting multiples of 2
/// and 1. `calls` is the number of distinct values considered.
pub struct IntegerShrinker<F> {
    run: IntegerRun<IntPredicate<F>>,
}

impl<F: Fn(u64) -> bool> IntegerShrinker<F> {
    pub closed spec fn inner_ok(&self) -> bool {
        &&& self.run.wf()
        &&& self.run.asked0@ == Seq::<u64>::empty()
    }

    /// The best value found so far.
    pub closed spec fn spec_current(&self) -> u64 {
        self.run.current
    }

    /// The value the shrinker started from.
    pub closed spec fn spec_initial(&self) -> u64 {
        self.run.initial@
    }

    /// Every value considered so far.
    pub closed spec fn tried(&self) -> Set<u64> {
        self.run.seen@
    }

    pub closed spec fn predicate(&self) -> F {
        self.run.oracle.f
    }

    /// Every value the predicate was called with, in order.
    pub closed spec fn asked(&self) -> Seq<u64> {
        self.run.oracle.log@
    }

    /// The current value is the initial value or one that the predicate
    /// accepted, it is never above the initial value, and every value tried
    /// below it was rejected by the predicate. The predicate was called once
    /// on each value tried other than the initial one, and on nothing else.
    pub open spec fn wf(&self) -> bool {
        &&& self.inner_ok()
        &&& self.asked().no_duplicates()
        &&& forall|v: u64| #[trigger] self.asked().contains(v) <==> (self.tried().contains(v) && v != self.spec_initial())
        &&& forall|v: u64| call_requires(self.predicate(), (v,))
        &&& self.tried().contains(self.spec_current())
        &&& self.tried().contains(self.spec_initial())
        &&& self.spec_current() <= self.spec_initial()
        &&& (self.spec_current() == self.spec_initial() || call_ensures(
            self.predicate(),
            (self.spec_current(),),
            true,
        ))
        &&& forall|v: u64|
            #[trigger] self.tried().contains(v) && v < self.spec_current() ==> call_ensures(
                self.predicate(),
                (v,),
                false,
            )
    }

    pub fn new(initial: u64, predicate: F) -> (s: Self)
        requires
            forall|v: u64| call_requires(predicate, (v,)),
        ensures
            s.wf(),
            s.spec_current() == initial,
            s.spec_initial() == initial,
            s.tried() == set![initial],
            s.predicate() == predicate,
            s.asked() == Seq::<u64>::empty(),
    {
        IntegerShrinker { run: IntegerRun::new(initial, IntPredicate { f: predicate, log: Ghost(Seq::empty()) }) }
    }

    /// The number of distinct values considered.
    pub fn calls(&self) -> (r: usize)
        ensures
            r == self.tried().len(),
    {
        broadcast use vstd::std_specs::hash::group_hash_axioms;
        self.run.seen.len()
    }

    pub fn current(&self) -> (r: &u64)
        ensures
            *r == self.spec_current(),
    {
        &self.run.current
    }

    /// Shrinks as far as the passes get. Afterwards the current value is 0
    /// or the predicate rejected 0.
    pub fn run(&mut self)
        requires
            old(self).wf(),
        ensures
            final(self).wf(),
            final(self).predicate() == old(self).predicate(),
            final(self).spec_initial() == old(self).spec_initial(),
            final(self).spec_current() <= old(self).spec_current(),
            old(self).tried().subset_of(final(self).tried()),
            final(self).spec_current() == 0 || call_ensures(final(self).predicate(), (0u64,), false),
            final(self).spec_current() == 0 || call_ensures(
                final(self).predicate(),
                ((final(self).spec_current() - 1) as u64,),
                false,
            ),
    {
        self.run.run();
    }
}

/// For a predicate that holds exactly at the values from a threshold `t`
/// up, a shrinker that started at or above `t` and whose value's
/// predecessor was rejected (as after `run`) is at `t`.
pub proof fn lemma_integer_threshold<F: Fn(u64) -> bool>(s: IntegerShrinker<F>, t: u64)
    requires
        s.wf(),
        t <= s.spec_initial(),
        forall|v: u64, b: bool| #[trigger] call_ensures(s.predicate(), (v,), b) ==> b == (v >= t),
        s.spec_current() == 0 || call_ensures(s.predicate(), ((s.spec_current() - 1) as u64,), false),
    ensures
        s.spec_current() == t,
{
    if s.spec_current() != s.spec_initial() {
        assert(call_ensures(s.predicate(), (s.spec_current(),), true));
    }
    if s.spec_current() != 0 {
        assert(call_ensures(s.predicate(), ((s.spec_current() - 1) as u64,), false));
    }
}

// ---------------------------------------------------------------------------
// Orderings
// ---------------------------------------------------------------------------

/// Answers whether a candidate sequence keeps the property being shrunk for.
pub trait SeqOracle: Sized {
    /// What holds between questions.
    spec fn oracle_inv(&self) -> bool;

    /// How asking may change the oracle.
    spec fn keeps(&self, later: Self) -> bool;

    proof fn lemma_keeps_refl(a: Self)
        ensures
            a.keeps(a),
    ;

    proof fn lemma_keeps_trans(a: Self, b: Self, c: Self)
        requires
            a.keeps(b),
            b.keeps(c),
        ensures
            a.keeps(c),
    ;

    /// The oracle has answered yes to `v`.
    spec fn accepted(&self, v: Seq<u64>) -> bool;

    /// The oracle has answered no to `v`.
    spec fn rejected(&self, v: Seq<u64>) -> bool;

    /// Every question asked so far, in order.
    spec fn asked(&self) -> Seq<Seq<u64>>;

    /// Asks about `v`. Answers, once given, are remembered.
    fn test(&mut self, v: &Vec<u64>) -> (r: bool)
        requires
            old(self).oracle_inv(),
        ensures
            final(self).oracle_inv(),
            old(self).keeps(*final(self)),
            final(self).asked() == old(self).asked().push(v@),
            r ==> final(self).accepted(v@),
            !r ==> final(self).rejected(v@),
            forall|w: Seq<u64>| old(self).accepted(w) ==> #[trigger] final(self).accepted(w),
            forall|w: Seq<u64>| old(self).rejected(w) ==> #[trigger] final(self).rejected(w),
    ;
}

/// A predicate on sequences, asked directly.
pub struct SeqPredicate<F> {
    pub f: F,
    /// Every sequence `f` was called with, in order.
    pub log: Ghost<Seq<Seq<u64>>>,
}

impl<F: Fn(&[u64]) -> bool> SeqOracle for SeqPredicate<F> {
    open spec fn oracle_inv(&self) -> bool {
        forall|s: &[u64]| call_requires(self.f, (s,))
    }

    open spec fn keeps(&self, later: Self) -> bool {
        later.f == self.f
    }

    proof fn lemma_keeps_refl(a: Self) {
    }

    proof fn lemma_keeps_trans(a: Self, b: Self, c: Self) {
    }

    open spec fn accepted(&self, v: Seq<u64>) -> bool {
        exists|s: &[u64]| s@ == v && #[trigger] call_ensures(self.f, (s,), true)
    }

    open spec fn rejected(&self, v: Seq<u64>) -> bool {
        exists|s: &[u64]| s@ == v && #[trigger] call_ensures(self.f, (s,), false)
    }

    closed spec fn asked(&self) -> Seq<Seq<u64>> {
        self.log@
    }

    fn test(&mut self, v: &Vec<u64>) -> (r: bool) {
        let s = v.as_slice();
        proof {
            self.log@ = self.log@.push(v@);
        }
        (self.f)(s)
    }
}

/// The step of the ordering search that [`find_integer`] is driving.
enum OrderPass {
    /// Try sorting `current[i..i + k]`.
    SortRegion { i: usize },
    /// Try gap-sorting around `left` up to `right + k`.
    GrowRight { left: usize, right: usize },
    /// Try gap-sorting around `left` from `left - k`.
    GrowLeft { left: usize, right: usize },
}

/// The state of an ordering shrink.
struct OrderingRun<O> {
    current: Vec<u64>,
    seen: Vec<Vec<u64>>,
    changes: usize,
    initial: Ghost<Seq<u64>>,
    oracle: O,
    pass: OrderPass,
    /// The number of changes when the current search began.
    pass_changes: Ghost<usize>,
    /// What the oracle had been asked before this shrink began.
    asked0: Ghost<Seq<Seq<u64>>>,
}

impl<O: SeqOracle> OrderingRun<O> {
    /// The current sequence is a permutation of the initial one, no greater
    /// than it, accepted unless it is the initial one; every considered
    /// sequence below it was rejected; nothing was considered twice.
    pub closed spec fn wf(&self) -> bool {
        let n = self.initial@.len();
        &&& self.oracle.oracle_inv()
        &&& self.current@.len() == n
        &&& self.current@.to_multiset() == self.initial@.to_multiset()
        &&& (self.current@ == self.initial@ || lex_lt(self.current@, self.initial@))
        &&& (self.current@ == self.initial@ || self.oracle.accepted(self.current@))
        &&& views(self.seen@).contains(self.current@)
        &&& views(self.seen@).contains(self.initial@)
        &&& views(self.seen@).no_duplicates()
        &&& self.seen@.len() >= 1
        &&& self.seen@[0]@ == self.initial@
        &&& self.oracle.asked() == self.asked0@ + views(self.seen@).drop_first()
        &&& forall|j: int|
            0 <= j < self.seen@.len() && lex_lt(#[trigger] self.seen@[j]@, self.current@) ==> self.oracle.rejected(
                self.seen@[j]@,
            )
        &&& self.changes < self.seen@.len()
        &&& match self.pass {
            OrderPass::SortRegion { i } => i <= n,
            OrderPass::GrowRight { left, right } => left < right <= n,
            OrderPass::GrowLeft { left, right } => left < right <= n,
        }
    }

    pub closed spec fn moves_to(&self, later: Self) -> bool {
        &&& self.oracle.keeps(later.oracle)
        &&& later.initial == self.initial
        &&& later.asked0 == self.asked0
        &&& self.seen@.len() <= later.seen@.len()
        &&& forall|j: int| 0 <= j < self.seen@.len() ==> #[trigger] later.seen@[j]@ == self.seen@[j]@
        &&& self.changes <= later.changes
        &&& (later.changes == self.changes ==> later.current@ == self.current@)
        &&& (later.changes > self.changes ==> lex_lt(later.current@, self.current@))
        &&& forall|w: Seq<u64>| #[trigger] self.oracle.rejected(w) ==> later.oracle.rejected(w)
    }

    proof fn lemma_moves_refl(a: Self)
        ensures
            a.moves_to(a),
    {
        O::lemma_keeps_refl(a.oracle);
    }

    proof fn lemma_moves_trans(a: Self, b: Self, c: Self)
        requires
            a.moves_to(b),
            b.moves_to(c),
        ensures
            a.moves_to(c),
    {
        O::lemma_keeps_trans(a.oracle, b.oracle, c.oracle);
        if a.changes < b.changes && b.changes < c.changes {
            lemma_lex_transitive(c.current@, b.current@, a.current@);
        }
    }

    fn new(initial: Vec<u64>, oracle: O) -> (r: Self)
        requires
            oracle.oracle_inv(),
        ensures
            r.wf(),
            r.current@ == initial@,
            r.initial@ == initial@,
            views(r.seen@) == seq![initial@],
            r.oracle == oracle,
            r.changes == 0,
            r.asked0@ == oracle.asked(),
    {
        let mut seen: Vec<Vec<u64>> = Vec::new();
        seen.push(copy_values(initial.as_slice()));
        let ghost g = initial@;
        let r = OrderingRun {
            current: initial,
            seen,
            changes: 0,
            initial: Ghost(g),
            oracle,
            pass: OrderPass::SortRegion { i: 0 },
            pass_changes: Ghost(0),
            asked0: Ghost(oracle.asked()),
        };
        proof {
            assert(views(r.seen@) =~= seq![g]);
            assert(views(r.seen@).drop_first() =~= Seq::<Seq<u64>>::empty());
            assert(r.oracle.asked() =~= r.asked0@ + views(r.seen@).drop_first());
            assert(views(r.seen@)[0] == g);
            lemma_lex_irreflexive(g);
        }
        r
    }

    /// Considers a permutation of the current sequence: it becomes current
    /// when the oracle accepts it and it is lexicographically smaller. The
    /// answer is whether `value` is (now) current.
    fn consider(&mut self, value: Vec<u64>) -> (r: bool)
        requires
            old(self).wf(),
            value@.len() == old(self).initial@.len(),
            value@.to_multiset() == old(self).initial@.to_multiset(),
        ensures
            final(self).wf(),
            old(self).moves_to(*final(self)),
            final(self).pass == old(self).pass,
            final(self).pass_changes == old(self).pass_changes,
            views(final(self).seen@).contains(value@),
            r ==> final(self).current@ == value@,
            !r ==> final(self).current@ == old(self).current@,
            value@ == old(self).current@ ==> r,
            !r && better_collection(value@, old(self).current@) && !views(old(self).seen@).contains(value@)
                ==> final(self).oracle.rejected(value@),
    {
        proof {
            Self::lemma_moves_refl(*self);
        }
        if values_equal(value.as_slice(), self.current.as_slice()) {
            return true;
        }
        if seen_contains(&self.seen, value.as_slice()) {
            return false;
        }
        let ghost old_seen = self.seen@;
        let ghost old_cur = self.current@;
        let n_seen = self.seen.len();
        self.seen.push(copy_values(value.as_slice()));
        proof {
            assert(views(self.seen@) =~= views(old_seen).push(value@));
            assert(views(self.seen@)[old_seen.len() as int] == value@);
            assert forall|t: Seq<u64>| views(old_seen).contains(t) implies views(self.seen@).contains(t) by {
                let j = choose|j: int| 0 <= j < views(old_seen).len() && views(old_seen)[j] == t;
                assert(views(self.seen@)[j] == t);
            }
        }
        let accepted = self.oracle.test(&value);
        proof {
            assert(views(self.seen@).drop_first() =~= views(old_seen).drop_first().push(value@));
            assert(self.seen@[0]@ == old_seen[0]@);
        }
        if accepted && lex_less(value.as_slice(), self.current.as_slice()) {
            proof {
                lemma_lex_irreflexive(value@);
                assert forall|j: int|
                    0 <= j < self.seen@.len() && lex_lt(#[trigger] self.seen@[j]@, value@) implies self.oracle.rejected(
                    self.seen@[j]@,
                ) by {
                    lemma_lex_transitive(self.seen@[j]@, value@, old_cur);
                }
                if old_cur != self.initial@ {
                    lemma_lex_transitive(value@, old_cur, self.initial@);
                }
            }
            self.current = value;
            self.changes = self.changes + 1;
            true
        } else {
            false
        }
    }

    fn short_circuit(&mut self) -> (r: bool)
        requires
            old(self).wf(),
        ensures
            final(self).wf(),
            old(self).moves_to(*final(self)),
            final(self).pass == old(self).pass,
            exists|t: Seq<u64>|
                views(final(self).seen@).contains(t) && sorted(t) && t.to_multiset()
                    == final(self).initial@.to_multiset(),
            r ==> sorted(final(self).current@),
    {
        let mut sorted_copy = copy_values(self.current.as_slice());
        sort_values(&mut sorted_copy);
        let ghost t = sorted_copy@;
        let r = self.consider(sorted_copy);
        assert(views(self.seen@).contains(t));
        r
    }

    fn search(&mut self, pass: OrderPass) -> (r: u128)
        requires
            old(self).wf(),
            match pass {
                OrderPass::SortRegion { i } => i <= old(self).initial@.len(),
                OrderPass::GrowRight { left, right } => left < right <= old(self).initial@.len(),
                OrderPass::GrowLeft { left, right } => left < right <= old(self).initial@.len(),
            },
        ensures
            final(self).wf(),
            old(self).moves_to(*final(self)),
            final(self).pass == pass,
            r <= (match pass {
                OrderPass::SortRegion { i } => old(self).initial@.len() - i,
                OrderPass::GrowRight { right, .. } => old(self).initial@.len() - right,
                OrderPass::GrowLeft { left, .. } => left as int,
            }),
            pass is SortRegion && final(self).changes == old(self).changes ==> {
                let i = pass->i;
                &&& i + r <= final(self).current@.len()
                &&& sorted(final(self).current@.subrange(i as int, i + r))
                &&& (i + r + 1 <= final(self).current@.len() ==> !sorted(
                    final(self).current@.subrange(i as int, i + r + 1),
                ) && exists|t: Seq<u64>|
                    #[trigger] region_sort_of(final(self).current@, i as int, r + 1, t) && final(self).oracle.rejected(t))
            },
    {
        let _n = self.current.len();
        self.pass = pass;
        self.pass_changes = Ghost(self.changes);
        proof {
            if pass is SortRegion {
                let i = pass->i;
                assert(self.current@.subrange(i as int, i as int) =~= Seq::<u64>::empty());
            }
        }
        let r = find_integer(self);
        proof {
            assert(self.reached(r as nat) && self.refuted((r + 1) as nat));
        }
        r
    }
}

impl<O: SeqOracle> OrderingRun<O> {
    /// Sorts growing regions, left to right. When nothing changes, the
    /// sequence is cut into sorted runs, each refused when sorted together
    /// with the element after it.
    fn sort_regions(&mut self)
        requires
            old(self).wf(),
        ensures
            final(self).wf(),
            old(self).moves_to(*final(self)),
            final(self).changes == old(self).changes ==> exists|b: Seq<int>|
                runs_upto(final(self).current@, b, final(self).current@.len() as int, final(self).oracle),
    {
        let ghost s0 = *self;
        proof {
            Self::lemma_moves_refl(s0);
        }
        let n = self.current.len();
        let mut i: usize = 0;
        let ghost mut b: Seq<int> = seq![0int];
        while n > 0 && i < n - 1
            invariant
                self.wf(),
                s0 == *old(self),
                s0.moves_to(*self),
                n == self.initial@.len(),
                i <= n,
                self.changes == s0.changes ==> runs_upto(self.current@, b, i as int, self.oracle),
            decreases n - i,
        {
            let ghost s1 = *self;
            let k = self.search(OrderPass::SortRegion { i });
            proof {
                Self::lemma_moves_trans(s0, s1, *self);
            }
            let step: usize = if k > 1 { k as usize } else { 1 };
            proof {
                if self.changes == s0.changes {
                    assert(s1.changes == s0.changes);
                    if k == 0 {
                        assert(s1.current@.subrange(i as int, i + 1) =~= seq![s1.current@[i as int]]);
                    }
                    assert(k >= 1);
                    lemma_runs_keep(self.current@, b, i as int, s1.oracle, self.oracle);
                    lemma_runs_extend(self.current@, b, i as int, k as int, self.oracle);
                    b = b.push(i + k);
                }
            }
            i = i + step;
        }
        proof {
            if self.changes == s0.changes {
                if n == 0 {
                    assert(runs_upto(self.current@, b, 0, self.oracle));
                } else if i == n - 1 {
                    assert(self.current@.subrange(i as int, i + 1) =~= seq![self.current@[i as int]]);
                    lemma_runs_extend(self.current@, b, i as int, 1, self.oracle);
                    b = b.push(i + 1);
                }
                assert(runs_upto(self.current@, b, self.current@.len() as int, self.oracle));
            }
        }
    }

    /// Sorts regions around each out-of-order element, leaving it in place.
    fn sort_regions_with_gaps(&mut self)
        requires
            old(self).wf(),
        ensures
            final(self).wf(),
            old(self).moves_to(*final(self)),
    {
        let ghost s0 = *self;
        proof {
            Self::lemma_moves_refl(s0);
        }
        let n = self.current.len();
        let mut i: usize = 1;
        while n > 1 && i < n - 1
            invariant
                self.wf(),
                s0 == *old(self),
                s0.moves_to(*self),
                n == self.initial@.len(),
                1 <= i <= n + 1,
            decreases n + 1 - i,
        {
            if self.current[i - 1] <= self.current[i] && self.current[i] <= self.current[i + 1] {
                i += 1;
                continue;
            }
            let left = i;
            let mut right = i + 1;
            let ghost s1 = *self;
            let grow = self.search(OrderPass::GrowRight { left, right });
            proof {
                Self::lemma_moves_trans(s0, s1, *self);
            }
            right = right + grow as usize;
            let ghost s2 = *self;
            self.search(OrderPass::GrowLeft { left, right });
            proof {
                Self::lemma_moves_trans(s0, s2, *self);
            }
            i += 1;
        }
    }

    fn run_step(&mut self)
        requires
            old(self).wf(),
        ensures
            final(self).wf(),
            old(self).moves_to(*final(self)),
            final(self).changes == old(self).changes ==> exists|b: Seq<int>|
                runs_upto(final(self).current@, b, final(self).current@.len() as int, final(self).oracle),
    {
        let ghost s0 = *self;
        self.sort_regions();
        let ghost s1 = *self;
        self.sort_regions_with_gaps();
        proof {
            Self::lemma_moves_trans(s0, s1, *self);
            if self.changes == s0.changes {
                let b = choose|b: Seq<int>| runs_upto(s1.current@, b, s1.current@.len() as int, s1.oracle);
                lemma_runs_keep(s1.current@, b, s1.current@.len() as int, s1.oracle, self.oracle);
            }
        }
    }

    /// Tries the sorted sequence first; otherwise runs the passes once, or,
    /// when `full`, until a round of passes changes nothing.
    fn run(&mut self, full: bool)
        requires
            old(self).wf(),
        ensures
            final(self).wf(),
            old(self).moves_to(*final(self)),
            exists|t: Seq<u64>|
                views(final(self).seen@).contains(t) && sorted(t) && t.to_multiset()
                    == final(self).initial@.to_multiset(),
            full ==> exists|b: Seq<int>|
                runs_upto(final(self).current@, b, final(self).current@.len() as int, final(self).oracle),
    {
        let ghost s0 = *self;
        if self.short_circuit() {
            proof {
                let c = self.current@;
                if c.len() == 0 {
                    assert(runs_upto(c, seq![0int], 0, self.oracle));
                } else {
                    let b = seq![0int, c.len() as int];
                    assert(c.subrange(0, c.len() as int) =~= c);
                    assert(run_sorted(c, b, 0));
                    assert(run_refused(c, b, 0, self.oracle));
                    assert(runs_upto(c, b, c.len() as int, self.oracle));
                }
            }
            return;
        }
        let ghost t = choose|t: Seq<u64>|
            views(self.seen@).contains(t) && sorted(t) && t.to_multiset() == self.initial@.to_multiset();
        let ghost s1 = *self;
        proof {
            Self::lemma_moves_refl(s1);
        }
        if full {
            loop
                invariant
                    self.wf(),
                    s1.moves_to(*self),
                    views(s1.seen@).contains(t),
                ensures
                    self.wf(),
                    s1.moves_to(*self),
                    views(s1.seen@).contains(t),
                    exists|b: Seq<int>| runs_upto(self.current@, b, self.current@.len() as int, self.oracle),
                decreases seq_rank(self.current@),
            {
                let ghost s2 = *self;
                let prev = self.changes;
                self.run_step();
                proof {
                    Self::lemma_moves_trans(s1, s2, *self);
                }
                if self.changes == prev {
                    break;
                }
                proof {
                    lemma_rank_lex(self.current@, s2.current@);
                }
            }
        } else {
            self.run_step();
        }
        proof {
            Self::lemma_moves_trans(s0, s1, *self);
            let j = choose|j: int| 0 <= j < views(s1.seen@).len() && views(s1.seen@)[j] == t;
            assert(views(self.seen@)[j] == t);
        }
    }
}

impl<O: SeqOracle> Probe for OrderingRun<O> {
    closed spec fn probe_inv(&self) -> bool {
        self.wf() && self.pass_changes@ <= self.changes
    }

    closed spec fn limit(&self) -> nat {
        let n = self.initial@.len();
        match self.pass {
            OrderPass::SortRegion { i } => (n - i) as nat,
            OrderPass::GrowRight { right, .. } => (n - right) as nat,
            OrderPass::GrowLeft { left, .. } => left as nat,
        }
    }

    closed spec fn may_become(&self, later: Self) -> bool {
        self.moves_to(later) && later.pass == self.pass && later.pass_changes == self.pass_changes
    }

    /// For the region search: something changed since the search began, or
    /// the region of length `k` is sorted.
    closed spec fn reached(&self, k: nat) -> bool {
        match self.pass {
            OrderPass::SortRegion { i } => self.changes != self.pass_changes@ || (i + k <= self.current@.len()
                && sorted(self.current@.subrange(i as int, i + k))),
            _ => true,
        }
    }

    /// For the region search: something changed since the search began,
    /// the region of length `k` runs past the end, or it is not sorted and
    /// its sort was rejected.
    closed spec fn refuted(&self, k: nat) -> bool {
        match self.pass {
            OrderPass::SortRegion { i } => self.changes != self.pass_changes@ || i + k > self.current@.len() || (
            !sorted(self.current@.subrange(i as int, i + k)) && exists|t: Seq<u64>|
                #[trigger] region_sort_of(self.current@, i as int, k as int, t) && self.oracle.rejected(t)),
            _ => true,
        }
    }

    proof fn lemma_may_become_refl(a: Self) {
        Self::lemma_moves_refl(a);
    }

    proof fn lemma_may_become_trans(a: Self, b: Self, c: Self) {
        Self::lemma_moves_trans(a, b, c);
    }

    fn holds(&mut self, k: u128) -> (r: bool) {
        proof {
            Self::lemma_moves_refl(*self);
        }
        let n = self.current.len();
        match self.pass {
            OrderPass::SortRegion { i } => {
                if k > (n - i) as u128 {
                    return false;
                }
                let attempt = sort_region(self.current.as_slice(), i, k as usize);
                let ghost before = *self;
                let ghost t = attempt@;
                proof {
                    reveal(region_sort_of);
                    assert(region_sort_of(before.current@, i as int, k as int, t));
                    if t != before.current@ {
                        lemma_region_first(before.current@, i as int, k as int, t);
                    } else {
                        assert(t.subrange(i as int, i + k) == before.current@.subrange(i as int, i + k));
                    }
                }
                let r = self.consider(attempt);
                proof {
                    if !r && self.changes == self.pass_changes@ {
                        if views(before.seen@).contains(t) {
                            let j = choose|j: int| 0 <= j < views(before.seen@).len() && views(before.seen@)[j] == t;
                            assert(before.seen@[j]@ == t);
                        }
                        assert(self.oracle.rejected(t));
                    }
                }
                r
            },
            OrderPass::GrowRight { left, right } => {
                if k > (n - right) as u128 {
                    return false;
                }
                let attempt = build_gap_sort(self.current.as_slice(), left, right + k as usize, left);
                self.consider(attempt)
            },
            OrderPass::GrowLeft { left, right } => {
                if k > left as u128 {
                    return false;
                }
                let attempt = build_gap_sort(self.current.as_slice(), left - k as usize, right, left);
                self.consider(attempt)
            },
        }
    }
}

/// Standalone shrinker that makes a sequence more sorted.
///
/// It never changes the length or the contents of the sequence, only the
/// order of its elements: it tries the fully sorted sequence first, then
/// sorts growing regions and regions around out-of-order elements, keeping
/// each change that the predicate accepts and that is lexicographically
/// smaller.
pub struct OrderingShrinker<F> {
    run: OrderingRun<SeqPredicate<F>>,
    full: bool,
}

impl<F: Fn(&[u64]) -> bool> OrderingShrinker<F> {
    pub closed spec fn inner_ok(&self) -> bool {
        &&& self.run.wf()
        &&& self.run.asked0@ == Seq::<Seq<u64>>::empty()
    }

    /// The best sequence found so far.
    pub closed spec fn spec_current(&self) -> Seq<u64> {
        self.run.current@
    }

    /// The sequence the shrinker started from.
    pub closed spec fn spec_initial(&self) -> Seq<u64> {
        self.run.initial@
    }

    /// Every sequence considered so far, in the order they were considered.
    pub closed spec fn tried(&self) -> Seq<Seq<u64>> {
        views(self.run.seen@)
    }

    pub closed spec fn predicate(&self) -> F {
        self.run.oracle.f
    }

    /// Every sequence the predicate was called with, in order.
    pub closed spec fn asked(&self) -> Seq<Seq<u64>> {
        self.run.oracle.log@
    }

    /// Whether `run` repeats its passes until they change nothing.
    pub closed spec fn is_full(&self) -> bool {
        self.full
    }

    /// The current sequence is a permutation of the initial one and no
    /// greater than it lexicographically; it is the initial sequence or one
    /// that the predicate accepted; every sequence tried below it was
    /// rejected; no sequence was tried twice; the initial sequence was tried
    /// first, and the predicate was called on each later one, once, in
    /// the order they were tried.
    pub open spec fn wf(&self) -> bool {
        &&& self.inner_ok()
        &&& self.tried().len() >= 1
        &&& self.tried()[0] == self.spec_initial()
        &&& self.asked() == self.tried().drop_first()
        &&& forall|s: &[u64]| call_requires(self.predicate(), (s,))
        &&& self.spec_current().len() == self.spec_initial().len()
        &&& self.spec_current().to_multiset() == self.spec_initial().to_multiset()
        &&& (self.spec_current() == self.spec_initial() || lex_lt(self.spec_current(), self.spec_initial()))
        &&& (self.spec_current() == self.spec_initial() || exists|s: &[u64]|
            s@ == self.spec_current() && #[trigger] call_ensures(self.predicate(), (s,), true))
        &&& self.tried().contains(self.spec_current())
        &&& self.tried().contains(self.spec_initial())
        &&& self.tried().no_duplicates()
        &&& forall|j: int|
            0 <= j < self.tried().len() && lex_lt(#[trigger] self.tried()[j], self.spec_current()) ==> exists|
                s: &[u64],
            | s@ == self.tried()[j] && #[trigger] call_ensures(self.predicate(), (s,), false)
    }

    proof fn lemma_inner(&self)
        requires
            self.inner_ok(),
        ensures
            self.wf(),
    {
        assert forall|j: int|
            0 <= j < self.tried().len() && lex_lt(#[trigger] self.tried()[j], self.spec_current()) implies exists|
            s: &[u64],
        | s@ == self.tried()[j] && #[trigger] call_ensures(self.predicate(), (s,), false) by {
            assert(self.tried()[j] == self.run.seen@[j]@);
            assert(self.run.oracle.rejected(self.run.seen@[j]@));
            let w = choose|s: &[u64]| s@ == self.run.seen@[j]@ && #[trigger] call_ensures(self.run.oracle.f, (s,), false);
            assert(call_ensures(self.predicate(), (w,), false));
        }
        if self.spec_current() != self.spec_initial() {
            assert(self.run.oracle.accepted(self.run.current@));
            let w = choose|s: &[u64]| s@ == self.run.current@ && #[trigger] call_ensures(self.run.oracle.f, (s,), true);
            assert(call_ensures(self.predicate(), (w,), true));
        }
    }

    pub fn new(initial: Vec<u64>, predicate: F) -> (s: Self)
        requires
            forall|s: &[u64]| call_requires(predicate, (s,)),
        ensures
            s.wf(),
            s.spec_current() == initial@,
            s.spec_initial() == initial@,
            s.tried() == seq![initial@],
            s.predicate() == predicate,
            s.asked() == Seq::<Seq<u64>>::empty(),
            !s.is_full(),
    {
        let s = OrderingShrinker { run: OrderingRun::new(initial, SeqPredicate { f: predicate, log: Ghost(Seq::empty()) }), full: false };
        proof {
            s.lemma_inner();
        }
        s
    }

    /// Sets whether `run` repeats its passes until they change nothing.
    pub fn full(self, full: bool) -> (s: Self)
        ensures
            s.is_full() == full,
            s.spec_current() == self.spec_current(),
            s.spec_initial() == self.spec_initial(),
            s.tried() == self.tried(),
            s.predicate() == self.predicate(),
            s.asked() == self.asked(),
            self.wf() ==> s.wf(),
    {
        let s = OrderingShrinker { run: self.run, full };
        proof {
            if self.wf() {
                assert(s.run == self.run);
                s.lemma_inner();
            }
        }
        s
    }

    /// The number of distinct sequences considered.
    pub fn calls(&self) -> (r: usize)
        ensures
            r == self.tried().len(),
    {
        self.run.seen.len()
    }

    pub fn current(&self) -> (r: &[u64])
        ensures
            r@ == self.spec_current(),
    {
        self.run.current.as_slice()
    }

    /// Shrinks as far as the passes get. The sorted arrangement of the
    /// initial sequence is always among the sequences tried.
    pub fn run(&mut self)
        requires
            old(self).wf(),
        ensures
            final(self).wf(),
            final(self).predicate() == old(self).predicate(),
            final(self).spec_initial() == old(self).spec_initial(),
            final(self).is_full() == old(self).is_full(),
            final(self).spec_current() == old(self).spec_current() || lex_lt(
                final(self).spec_current(),
                old(self).spec_current(),
            ),
            forall|t: Seq<u64>| old(self).tried().contains(t) ==> final(self).tried().contains(t),
            exists|t: Seq<u64>|
                final(self).tried().contains(t) && sorted(t) && t.to_multiset()
                    == final(self).spec_initial().to_multiset(),
            final(self).is_full() ==> exists|b: Seq<int>| sorted_runs(final(self).spec_current(), b, final(self).predicate()),
    {
        let ghost s0 = self.run;
        self.run.run(self.full);
        proof {
            if self.full {
                let c = self.run.current@;
                let b = choose|b: Seq<int>| runs_upto(c, b, c.len() as int, self.run.oracle);
                assert forall|t: int| 0 <= t < b.len() - 1 implies #[trigger] run_refused_by(c, b, t, self.run.oracle.f) by {
                    assert(run_refused(c, b, t, self.run.oracle));
                    if b[t + 1] < c.len() {
                        let u = choose|u: Seq<u64>|
                            #[trigger] region_sort_of(c, b[t], b[t + 1] - b[t] + 1, u) && self.run.oracle.rejected(u);
                        assert(refused_by(self.run.oracle.f, u));
                    }
                }
                assert(sorted_runs(c, b, self.run.oracle.f));
                assert(self.spec_current() == c);
                assert(self.predicate() == self.run.oracle.f);
                assert(sorted_runs(self.spec_current(), b, self.predicate()));
            }
            assert forall|t: Seq<u64>| views(s0.seen@).contains(t) implies views(self.run.seen@).contains(t) by {
                let j = choose|j: int| 0 <= j < views(s0.seen@).len() && views(s0.seen@)[j] == t;
                assert(views(self.run.seen@)[j] == t);
            }
            self.lemma_inner();
        }
    }
}

/// An ordering shrink never calls its predicate on the initial sequence,
/// nor twice on one sequence: it calls it exactly on the sequences it
/// tried after the initial one.
pub proof fn lemma_ordering_asks_each_once<F: Fn(&[u64]) -> bool>(s: OrderingShrinker<F>)
    requires
        s.wf(),
    ensures
        s.asked().no_duplicates(),
        !s.asked().contains(s.spec_initial()),
        forall|t: Seq<u64>| s.asked().contains(t) <==> (s.tried().contains(t) && t != s.spec_initial()),
{
    let tr = s.tried();
    assert forall|a: int, b: int| 0 <= a < b < s.asked().len() implies s.asked()[a] != s.asked()[b] by {
        assert(s.asked()[a] == tr[a + 1]);
        assert(s.asked()[b] == tr[b + 1]);
    }
    assert forall|t: Seq<u64>| s.asked().contains(t) <==> (tr.contains(t) && t != s.spec_initial()) by {
        if s.asked().contains(t) {
            let j = choose|j: int| 0 <= j < s.asked().len() && s.asked()[j] == t;
            assert(tr[j + 1] == t);
            assert(tr[0] != tr[j + 1]);
        }
        if tr.contains(t) && t != s.spec_initial() {
            let j = choose|j: int| 0 <= j < tr.len() && tr[j] == t;
            assert(j != 0);
            assert(s.asked()[j - 1] == t);
        }
    }
}

/// A sorted arrangement of some values comes before every other
/// arrangement of them lexicographically.
pub proof fn lemma_sorted_first(t: Seq<u64>, c: Seq<u64>)
    requires
        sorted(t),
        t.to_multiset() == c.to_multiset(),
        t != c,
    ensures
        lex_lt(t, c),
    decreases t.len(),
{
    t.to_multiset_ensures();
    c.to_multiset_ensures();
    if t.len() == 0 {
        assert(t =~= c);
    } else {
        assert(c.contains(c[0]));
        assert(t.to_multiset().count(c[0]) > 0);
        assert(t.contains(c[0]));
        let j = choose|j: int| 0 <= j < t.len() && t[j] == c[0];
        if j > 0 {
            assert(t[0] <= t[j]);
        }
        if t[0] == c[0] {
            assert(t.remove(0) =~= t.drop_first());
            assert(c.remove(0) =~= c.drop_first());
            assert(t.drop_first().to_multiset() == c.drop_first().to_multiset());
            assert(sorted(t.drop_first())) by {
                assert forall|a: int, b: int| 0 <= a < b < t.drop_first().len() implies t.drop_first()[a]
                    <= t.drop_first()[b] by {
                    assert(t[a + 1] <= t[b + 1]);
                }
            }
            if t.drop_first() == c.drop_first() {
                assert forall|i: int| 0 <= i < t.len() implies t[i] == c[i] by {
                    if i > 0 {
                        assert(t[i] == t.drop_first()[i - 1]);
                        assert(c[i] == c.drop_first()[i - 1]);
                    }
                }
                assert(t =~= c);
            }
            lemma_sorted_first(t.drop_first(), c.drop_first());
        }
    }
}

/// Whether `t` is `s` with `s[i..i + k]` sorted.
#[verifier::opaque]
pub open spec fn region_sort_of(s: Seq<u64>, i: int, k: int, t: Seq<u64>) -> bool {
    &&& t.len() == s.len()
    &&& t.subrange(0, i) == s.subrange(0, i)
    &&& sorted(t.subrange(i, i + k))
    &&& t.subrange(i, i + k).to_multiset() == s.subrange(i, i + k).to_multiset()
    &&& t.subrange(i + k, t.len() as int) == s.subrange(i + k, s.len() as int)
}

/// The order is kept when both sides are extended (equal lengths before).
proof fn lemma_lex_append(a: Seq<u64>, b: Seq<u64>, x: Seq<u64>, y: Seq<u64>)
    requires
        lex_lt(a, b),
        a.len() == b.len(),
    ensures
        lex_lt(a + x, b + y),
    decreases a.len(),
{
    if a[0] == b[0] {
        assert((a + x).drop_first() =~= a.drop_first() + x);
        assert((b + y).drop_first() =~= b.drop_first() + y);
        lemma_lex_append(a.drop_first(), b.drop_first(), x, y);
    }
}

/// The order is kept under a common prefix.
proof fn lemma_lex_prefix(p: Seq<u64>, x: Seq<u64>, y: Seq<u64>)
    requires
        lex_lt(x, y),
    ensures
        lex_lt(p + x, p + y),
    decreases p.len(),
{
    if p.len() == 0 {
        assert(p + x =~= x);
        assert(p + y =~= y);
    } else {
        assert((p + x).drop_first() =~= p.drop_first() + x);
        assert((p + y).drop_first() =~= p.drop_first() + y);
        lemma_lex_prefix(p.drop_first(), x, y);
    }
}

/// Sorting a region that was not sorted gives a smaller sequence; a
/// region that was sorted sorts to itself.
proof fn lemma_region_first(c: Seq<u64>, i: int, k: int, t: Seq<u64>)
    requires
        0 <= i,
        0 <= k,
        i + k <= c.len(),
        region_sort_of(c, i, k, t),
        t != c,
    ensures
        lex_lt(t, c),
        !sorted(c.subrange(i, i + k)),
{
    reveal(region_sort_of);
    let a = t.subrange(i, i + k);
    let b = c.subrange(i, i + k);
    let pre = c.subrange(0, i);
    let suf = c.subrange(i + k, c.len() as int);
    assert(t =~= pre + a + suf);
    assert(c =~= pre + b + suf);
    if a == b {
        assert(t =~= c);
    }
    lemma_sorted_first(a, b);
    lemma_lex_append(a, b, suf, suf);
    lemma_lex_prefix(pre, a + suf, b + suf);
    assert(pre + (a + suf) =~= pre + a + suf);
    assert(pre + (b + suf) =~= pre + b + suf);
    if sorted(b) {
        lemma_sorted_first(b, a);
        lemma_lex_transitive(a, b, a);
        lemma_lex_irreflexive(a);
    }
}

/// Run `t` of the cut `b` is non-empty and sorted.
pub open spec fn run_sorted(s: Seq<u64>, b: Seq<int>, t: int) -> bool {
    b[t] < b[t + 1] && sorted(s.subrange(b[t], b[t + 1]))
}

/// Run `t` of the cut `b`, when an element follows it, sorted together
/// with that element gives an arrangement the oracle rejected.
pub open spec fn run_refused<O: SeqOracle>(s: Seq<u64>, b: Seq<int>, t: int, o: O) -> bool {
    b[t + 1] < s.len() ==> exists|u: Seq<u64>|
        #[trigger] region_sort_of(s, b[t], b[t + 1] - b[t] + 1, u) && o.rejected(u)
}

/// Whether `b` cuts `s[..end]` into sorted runs such that each run that
/// an element follows, sorted together with that element, gives an
/// arrangement the oracle rejected.
pub open spec fn runs_upto<O: SeqOracle>(s: Seq<u64>, b: Seq<int>, end: int, o: O) -> bool {
    &&& b.len() >= 1
    &&& b[0] == 0
    &&& b.last() == end
    &&& forall|t: int| 0 <= t < b.len() - 1 ==> #[trigger] run_sorted(s, b, t)
    &&& forall|t: int| 0 <= t < b.len() - 1 ==> #[trigger] run_refused(s, b, t, o)
}

/// Runs stay refused when the oracle remembers more refusals.
proof fn lemma_runs_keep<O: SeqOracle>(s: Seq<u64>, b: Seq<int>, end: int, o1: O, o2: O)
    requires
        runs_upto(s, b, end, o1),
        forall|w: Seq<u64>| #[trigger] o1.rejected(w) ==> o2.rejected(w),
    ensures
        runs_upto(s, b, end, o2),
{
    assert forall|t: int| 0 <= t < b.len() - 1 implies #[trigger] run_refused(s, b, t, o2) by {
        assert(run_refused(s, b, t, o1));
        if b[t + 1] < s.len() {
            let u = choose|u: Seq<u64>| #[trigger] region_sort_of(s, b[t], b[t + 1] - b[t] + 1, u) && o1.rejected(u);
            assert(o2.rejected(u));
        }
    }
}

/// One more sorted run, refused together with the element after it.
proof fn lemma_runs_extend<O: SeqOracle>(s: Seq<u64>, b: Seq<int>, i: int, k: int, o: O)
    requires
        runs_upto(s, b, i, o),
        k >= 1,
        i + k <= s.len(),
        sorted(s.subrange(i, i + k)),
        i + k < s.len() ==> exists|u: Seq<u64>| #[trigger] region_sort_of(s, i, k + 1, u) && o.rejected(u),
    ensures
        runs_upto(s, b.push(i + k), i + k, o),
{
    let c = b.push(i + k);
    assert forall|t: int| 0 <= t < c.len() - 1 implies #[trigger] run_sorted(s, c, t) by {
        if t < b.len() - 1 {
            assert(run_sorted(s, b, t));
            assert(c[t] == b[t] && c[t + 1] == b[t + 1]);
        } else {
            assert(c[t] == i && c[t + 1] == i + k);
        }
    }
    assert forall|t: int| 0 <= t < c.len() - 1 implies #[trigger] run_refused(s, c, t, o) by {
        if t < b.len() - 1 {
            assert(run_refused(s, b, t, o));
            assert(c[t] == b[t] && c[t + 1] == b[t + 1]);
        } else {
            assert(c[t] == i && c[t + 1] == i + k);
            if i + k < s.len() {
                let u = choose|u: Seq<u64>| #[trigger] region_sort_of(s, i, k + 1, u) && o.rejected(u);
                assert(c[t + 1] - c[t] + 1 == k + 1);
                assert(region_sort_of(s, c[t], c[t + 1] - c[t] + 1, u));
            }
        }
    }
}

/// Whether the predicate `f` has answered no to `u`.
pub open spec fn refused_by<F: Fn(&[u64]) -> bool>(f: F, u: Seq<u64>) -> bool {
    exists|p: &[u64]| p@ == u && #[trigger] call_ensures(f, (p,), false)
}

/// Run `t` of the cut `b`, when an element follows it, sorted together
/// with that element gives an arrangement that `f` refused.
pub open spec fn run_refused_by<F: Fn(&[u64]) -> bool>(s: Seq<u64>, b: Seq<int>, t: int, f: F) -> bool {
    b[t + 1] < s.len() ==> exists|u: Seq<u64>|
        #[trigger] region_sort_of(s, b[t], b[t + 1] - b[t] + 1, u) && refused_by(f, u)
}

/// Whether `b` cuts `s` into sorted runs such that each run but the last,
/// sorted together with the element after it, gives an arrangement that
/// the predicate `f` refused.
pub open spec fn sorted_runs<F: Fn(&[u64]) -> bool>(s: Seq<u64>, b: Seq<int>, f: F) -> bool {
    &&& b.len() >= 1
    &&& b[0] == 0
    &&& b.last() == s.len()
    &&& forall|t: int| 0 <= t < b.len() - 1 ==> #[trigger] run_sorted(s, b, t)
    &&& forall|t: int| 0 <= t < b.len() - 1 ==> #[trigger] run_refused_by(s, b, t, f)
}

/// When the predicate accepts, on every call, the sorted arrangement of
/// the initial sequence, and that arrangement was tried (as `run` always
/// does), the shrinker is at that arrangement.
pub proof fn lemma_ordering_reaches_sorted<F: Fn(&[u64]) -> bool>(s: OrderingShrinker<F>, t: Seq<u64>)
    requires
        s.wf(),
        s.tried().contains(t),
        sorted(t),
        t.to_multiset() == s.spec_initial().to_multiset(),
        forall|p: &[u64]| p@ == t ==> !#[trigger] call_ensures(s.predicate(), (p,), false),
    ensures
        s.spec_current() == t,
{
    if s.spec_current() != t {
        lemma_sorted_first(t, s.spec_current());
        let j = choose|j: int| 0 <= j < s.tried().len() && s.tried()[j] == t;
        assert(lex_lt(s.tried()[j], s.spec_current()));
    }
}

// ---------------------------------------------------------------------------
// Collections
// ---------------------------------------------------------------------------

/// The state of a collection shrink, in "order space": each element is its
/// position in the caller's shrink order, so smaller is simpler.
struct CollectionInOrderSpace<O> {
    current: Vec<u64>,
    seen: Vec<Vec<u64>>,
    oracle: O,
    initial: Ghost<Seq<u64>>,
}

impl<O: SeqOracle> CollectionInOrderSpace<O> {
    /// The current sequence is the initial one or was accepted; nothing was
    /// considered twice.
    pub closed spec fn wf(&self) -> bool {
        &&& self.oracle.oracle_inv()
        &&& views(self.seen@).contains(self.current@)
        &&& views(self.seen@).contains(self.initial@)
        &&& views(self.seen@).no_duplicates()
        &&& (self.current@ == self.initial@ || self.oracle.accepted(self.current@))
    }

    pub closed spec fn moves_to(&self, later: Self) -> bool {
        &&& self.oracle.keeps(later.oracle)
        &&& later.initial == self.initial
        &&& self.seen@.len() <= later.seen@.len()
        &&& forall|j: int| 0 <= j < self.seen@.len() ==> #[trigger] later.seen@[j]@ == self.seen@[j]@
    }

    proof fn lemma_moves_refl(a: Self)
        ensures
            a.moves_to(a),
    {
        O::lemma_keeps_refl(a.oracle);
    }

    proof fn lemma_moves_trans(a: Self, b: Self, c: Self)
        requires
            a.moves_to(b),
            b.moves_to(c),
        ensures
            a.moves_to(c),
    {
        O::lemma_keeps_trans(a.oracle, b.oracle, c.oracle);
    }

    fn new(initial: Vec<u64>, oracle: O) -> (r: Self)
        requires
            oracle.oracle_inv(),
        ensures
            r.wf(),
            r.current@ == initial@,
            r.initial@ == initial@,
            views(r.seen@) == seq![initial@],
            r.oracle == oracle,
    {
        let mut seen: Vec<Vec<u64>> = Vec::new();
        seen.push(copy_values(initial.as_slice()));
        let ghost g = initial@;
        let r = CollectionInOrderSpace { current: initial, seen, oracle, initial: Ghost(g) };
        proof {
            assert(views(r.seen@) =~= seq![g]);
            assert(views(r.seen@)[0] == g);
        }
        r
    }

    /// Considers `value`: it becomes current when it is better under the
    /// collection order and the oracle accepts it.
    fn consider(&mut self, value: Vec<u64>) -> (r: bool)
        requires
            old(self).wf(),
        ensures
            final(self).wf(),
            old(self).moves_to(*final(self)),
            r ==> final(self).current@ == value@,
            !r ==> final(self).current@ == old(self).current@,
            value@ == old(self).current@ ==> r,
            !r && better_collection(value@, old(self).current@) && !views(old(self).seen@).contains(value@)
                ==> final(self).oracle.rejected(value@),
    {
        proof {
            Self::lemma_moves_refl(*self);
        }
        if values_equal(value.as_slice(), self.current.as_slice()) {
            return true;
        }
        if seen_contains(&self.seen, value.as_slice()) {
            return false;
        }
        let ghost old_seen = self.seen@;
        self.seen.push(copy_values(value.as_slice()));
        proof {
            assert(views(self.seen@) =~= views(old_seen).push(value@));
            assert(views(self.seen@)[old_seen.len() as int] == value@);
            assert forall|t: Seq<u64>| views(old_seen).contains(t) implies views(self.seen@).contains(t) by {
                let j = choose|j: int| 0 <= j < views(old_seen).len() && views(old_seen)[j] == t;
                assert(views(self.seen@)[j] == t);
            }
        }
        if !collection_left_is_better(value.as_slice(), self.current.as_slice()) {
            return false;
        }
        if self.oracle.test(&value) {
            self.current = value;
            true
        } else {
            false
        }
    }

    /// Tries `min_size` zeros first, then the shrink passes. From a fresh
    /// start at least `min_size` long, the result is those zeros unless the
    /// oracle refused them.
    fn run(self, min_size: usize) -> (r: Self)
        requires
            self.wf(),
        ensures
            r.wf(),
            self.moves_to(r),
            min_size <= self.current@.len() && views(self.seen@) == seq![self.current@] ==> r.current@ == zeros(
                min_size as nat,
            ) || exists|o: O| #[trigger] self.oracle.keeps(o) && o.keeps(r.oracle) && o.rejected(zeros(min_size as nat)),
    {
        let mut this = self;
        let first: Vec<u64> = vec![0u64; min_size];
        let ghost z = first@;
        let ghost s0 = this;
        proof {
            assert(first@ =~= zeros(min_size as nat));
        }
        if this.consider(first) {
            return this;
        }
        let ghost s1 = this;
        proof {
            if min_size <= s0.current@.len() && views(s0.seen@) == seq![s0.current@] {
                assert(z != s0.current@);
                lemma_zeros_better(s0.current@, min_size as nat);
                assert(better_collection(z, s0.current@));
                assert(!views(s0.seen@).contains(z)) by {
                    if views(s0.seen@).contains(z) {
                        assert(views(s0.seen@)[0] == s0.current@);
                    }
                }
                assert(s1.oracle.rejected(z));
            }
        }
        let r = this.run_step();
        proof {
            Self::lemma_moves_trans(s0, this, r);
            if min_size <= s0.current@.len() && views(s0.seen@) == seq![s0.current@] {
                assert(s0.oracle.keeps(s1.oracle) && s1.oracle.keeps(r.oracle));
            }
        }
        r
    }

    /// One round of the collection passes: all zeros, deleting each element
    /// from the back, reordering, shrinking each duplicated value together,
    /// and shrinking each element in turn.
    fn run_step(self) -> (r: Self)
        requires
            self.wf(),
        ensures
            r.wf(),
            self.moves_to(r),
    {
        let mut this = self;
        let ghost s0 = this;
        proof {
            Self::lemma_moves_refl(s0);
        }
        // All zeros at the current length.
        let all_zero: Vec<u64> = vec![0u64; this.current.len()];
        this.consider(all_zero);
        // Deleting each element, from the back.
        let n = this.current.len();
        let mut i = n;
        while i > 0
            invariant
                this.wf(),
                s0.moves_to(this),
            decreases i,
        {
            i -= 1;
            if i < this.current.len() {
                let mut candidate = copy_values(this.current.as_slice());
                candidate.remove(i);
                let ghost s1 = this;
                this.consider(candidate);
                proof {
                    Self::lemma_moves_trans(s0, s1, this);
                }
            }
        }
        // Reordering.
        let current_copy = copy_values(this.current.as_slice());
        let ghost s2 = this;
        let mut ordering = OrderingRun::new(current_copy, SpaceOracle { space: this, log: Ghost(Seq::empty()) });
        ordering.run(false);
        let this = ordering.oracle.space;
        proof {
            Self::lemma_moves_trans(s0, s2, this);
        }
        // Each duplicated value, all occurrences together.
        let duplicates = duplicated_values(this.current.as_slice());
        let mut this = this;
        let mut d: usize = 0;
        while d < duplicates.len()
            invariant
                this.wf(),
                s0.moves_to(this),
            decreases duplicates@.len() - d,
        {
            let dup = duplicates[d];
            let ghost s3 = this;
            let mut shrinker = IntegerRun::new(dup, DupOracle { space: this, dup, log: Ghost(Seq::empty()) });
            shrinker.run();
            this = shrinker.oracle.space;
            proof {
                Self::lemma_moves_trans(s0, s3, this);
            }
            d += 1;
        }
        // Each element in turn, from its value at the start of this step.
        let initial_vals = copy_values(this.current.as_slice());
        let mut e: usize = 0;
        while e < initial_vals.len()
            invariant
                this.wf(),
                s0.moves_to(this),
            decreases initial_vals@.len() - e,
        {
            let val = initial_vals[e];
            let ghost s4 = this;
            let mut shrinker = IntegerRun::new(val, ElemOracle { space: this, index: e, log: Ghost(Seq::empty()) });
            shrinker.run();
            this = shrinker.oracle.space;
            proof {
                Self::lemma_moves_trans(s0, s4, this);
            }
            e += 1;
        }
        this
    }
}

/// The number of occurrences of `x` in `s`.
pub open spec fn occurrences(s: Seq<u64>, x: u64) -> nat
    decreases s.len(),
{
    if s.len() == 0 {
        0
    } else {
        occurrences(s.drop_last(), x) + if s.last() == x { 1nat } else { 0nat }
    }
}

/// A value that occurs in a sequence occurs at some position.
proof fn lemma_occurrence_position(s: Seq<u64>, x: u64)
    requires
        occurrences(s, x) > 0,
    ensures
        exists|m: int| 0 <= m < s.len() && s[m] == x,
    decreases s.len(),
{
    if s.last() != x {
        lemma_occurrence_position(s.drop_last(), x);
        let m = choose|m: int| 0 <= m < s.drop_last().len() && s.drop_last()[m] == x;
        assert(s[m] == x);
    } else {
        assert(s[s.len() - 1] == x);
    }
}

/// Each value that occurs more than once, once, in order of first
/// occurrence.
fn duplicated_values(v: &[u64]) -> (r: Vec<u64>)
    ensures
        r@.no_duplicates(),
        forall|x: u64| r@.contains(x) <==> occurrences(v@, x) > 1,
{
    let mut out: Vec<u64> = Vec::new();
    let mut i: usize = 0;
    while i < v.len()
        invariant
            i <= v@.len(),
            out@.no_duplicates(),
            forall|y: u64|
                out@.contains(y) <==> ((exists|m: int| 0 <= m < i && v@[m] == y) && occurrences(v@, y) > 1),
        decreases v@.len() - i,
    {
        let x = v[i];
        let mut count: usize = 0;
        let mut j: usize = 0;
        while j < v.len()
            invariant
                j <= v@.len(),
                count <= j,
                count == occurrences(v@.subrange(0, j as int), x),
            decreases v@.len() - j,
        {
            proof {
                assert(v@.subrange(0, j + 1).drop_last() =~= v@.subrange(0, j as int));
            }
            if v[j] == x {
                count += 1;
            }
            j += 1;
        }
        assert(v@.subrange(0, v@.len() as int) =~= v@);
        let mut already = false;
        let mut k: usize = 0;
        while k < out.len()
            invariant
                k <= out@.len(),
                already <==> exists|m: int| 0 <= m < k && out@[m] == x,
            decreases out@.len() - k,
        {
            if out[k] == x {
                already = true;
            }
            k += 1;
        }
        let ghost old_out = out@;
        assert(already <==> old_out.contains(x));
        if count > 1 && !already {
            out.push(x);
        }
        proof {
            assert forall|y: u64|
                out@.contains(y) <==> ((exists|m: int| 0 <= m < i + 1 && v@[m] == y) && occurrences(v@, y) > 1) by {
                if y == x {
                    assert(v@[i as int] == x);
                    if out@.contains(y) && !old_out.contains(y) {
                        assert(count > 1);
                    }
                    if !out@.contains(y) && occurrences(v@, y) > 1 {
                        assert(!old_out.contains(x));
                        assert(out@ == old_out.push(x));
                        assert(out@[old_out.len() as int] == x);
                    }
                } else {
                    if out@.contains(y) {
                        let m = choose|m: int| 0 <= m < out@.len() && out@[m] == y;
                        if m < old_out.len() {
                            assert(old_out[m] == y);
                        }
                    }
                    if old_out.contains(y) {
                        let m = choose|m: int| 0 <= m < old_out.len() && old_out[m] == y;
                        assert(out@[m] == y);
                    }
                    if exists|m: int| 0 <= m < i + 1 && v@[m] == y {
                        let m = choose|m: int| 0 <= m < i + 1 && v@[m] == y;
                        assert(m < i);
                    }
                }
            }
        }
        i += 1;
    }
    proof {
        assert forall|x: u64| occurrences(v@, x) > 1 implies out@.contains(x) by {
            lemma_occurrence_position(v@, x);
        }
    }
    out
}

/// The collection being shrunk, asked as an oracle by the nested ordering
/// pass.
struct SpaceOracle<O> {
    space: CollectionInOrderSpace<O>,
    log: Ghost<Seq<Seq<u64>>>,
}

impl<O: SeqOracle> SeqOracle for SpaceOracle<O> {
    closed spec fn oracle_inv(&self) -> bool {
        self.space.wf()
    }

    closed spec fn keeps(&self, later: Self) -> bool {
        self.space.moves_to(later.space)
    }

    proof fn lemma_keeps_refl(a: Self) {
        CollectionInOrderSpace::<O>::lemma_moves_refl(a.space);
    }

    proof fn lemma_keeps_trans(a: Self, b: Self, c: Self) {
        CollectionInOrderSpace::<O>::lemma_moves_trans(a.space, b.space, c.space);
    }

    closed spec fn accepted(&self, v: Seq<u64>) -> bool {
        true
    }

    closed spec fn rejected(&self, v: Seq<u64>) -> bool {
        true
    }

    closed spec fn asked(&self) -> Seq<Seq<u64>> {
        self.log@
    }

    fn test(&mut self, v: &Vec<u64>) -> (r: bool) {
        proof {
            self.log@ = self.log@.push(v@);
        }
        self.space.consider(copy_values(v.as_slice()))
    }
}

/// The collection being shrunk, asked about one duplicated value replaced
/// everywhere by a candidate.
struct DupOracle<O> {
    space: CollectionInOrderSpace<O>,
    dup: u64,
    log: Ghost<Seq<u64>>,
}

/// `v` with every occurrence of `from` replaced by `to`.
fn replace_all(v: &[u64], from: u64, to: u64) -> (r: Vec<u64>)
    ensures
        r@.len() == v@.len(),
        forall|i: int| 0 <= i < v@.len() ==> #[trigger] r@[i] == if v@[i] == from { to } else { v@[i] },
{
    let mut r: Vec<u64> = Vec::new();
    let mut i: usize = 0;
    while i < v.len()
        invariant
            i <= v@.len(),
            r@.len() == i,
            forall|j: int| 0 <= j < i ==> #[trigger] r@[j] == if v@[j] == from { to } else { v@[j] },
        decreases v@.len() - i,
    {
        r.push(if v[i] == from { to } else { v[i] });
        i += 1;
    }
    r
}

impl<O: SeqOracle> ValueOracle for DupOracle<O> {
    closed spec fn oracle_inv(&self) -> bool {
        self.space.wf()
    }

    closed spec fn keeps(&self, later: Self) -> bool {
        self.space.moves_to(later.space)
    }

    proof fn lemma_keeps_refl(a: Self) {
        CollectionInOrderSpace::<O>::lemma_moves_refl(a.space);
    }

    proof fn lemma_keeps_trans(a: Self, b: Self, c: Self) {
        CollectionInOrderSpace::<O>::lemma_moves_trans(a.space, b.space, c.space);
    }

    closed spec fn accepted(&self, v: u64) -> bool {
        true
    }

    closed spec fn rejected(&self, v: u64) -> bool {
        true
    }

    closed spec fn asked(&self) -> Seq<u64> {
        self.log@
    }

    fn test(&mut self, v: u64) -> (r: bool) {
        proof {
            self.log@ = self.log@.push(v);
        }
        let candidate = replace_all(self.space.current.as_slice(), self.dup, v);
        self.space.consider(candidate)
    }
}

/// The collection being shrunk, asked about one position set to a
/// candidate.
struct ElemOracle<O> {
    space: CollectionInOrderSpace<O>,
    index: usize,
    log: Ghost<Seq<u64>>,
}

impl<O: SeqOracle> ValueOracle for ElemOracle<O> {
    closed spec fn oracle_inv(&self) -> bool {
        self.space.wf()
    }

    closed spec fn keeps(&self, later: Self) -> bool {
        self.space.moves_to(later.space)
    }

    proof fn lemma_keeps_refl(a: Self) {
        CollectionInOrderSpace::<O>::lemma_moves_refl(a.space);
    }

    proof fn lemma_keeps_trans(a: Self, b: Self, c: Self) {
        CollectionInOrderSpace::<O>::lemma_moves_trans(a.space, b.space, c.space);
    }

    closed spec fn accepted(&self, v: u64) -> bool {
        true
    }

    closed spec fn rejected(&self, v: u64) -> bool {
        true
    }

    closed spec fn asked(&self) -> Seq<u64> {
        self.log@
    }

    fn test(&mut self, v: u64) -> (r: bool) {
        proof {
            self.log@ = self.log@.push(v);
            CollectionInOrderSpace::<O>::lemma_moves_refl(self.space);
        }
        if self.index >= self.space.current.len() {
            return false;
        }
        let mut candidate = copy_values(self.space.current.as_slice());
        candidate.set(self.index, v);
        self.space.consider(candidate)
    }
}

/// Standalone shrinker for ordered collections.
///
/// It holds a value and a minimum size. Its `left_is_better` compares two
/// candidates by length first, then element by element. The collection
/// pipeline itself is what [`BytesShrinker`] runs.
pub struct CollectionShrinker<F> {
    current: Vec<u64>,
    predicate: F,
    min_size: usize,
    seen: Vec<Vec<u64>>,
}

impl<F: Fn(&[u64]) -> bool> CollectionShrinker<F> {
    pub closed spec fn spec_current(&self) -> Seq<u64> {
        self.current@
    }

    pub closed spec fn tried(&self) -> Seq<Seq<u64>> {
        views(self.seen@)
    }

    pub closed spec fn spec_min_size(&self) -> usize {
        self.min_size
    }

    pub closed spec fn predicate(&self) -> F {
        self.predicate
    }

    pub fn new(initial: Vec<u64>, predicate: F, min_size: usize) -> (s: Self)
        ensures
            s.spec_current() == initial@,
            s.tried() == seq![initial@],
            s.spec_min_size() == min_size,
            s.predicate() == predicate,
    {
        let mut seen: Vec<Vec<u64>> = Vec::new();
        seen.push(copy_values(initial.as_slice()));
        let ghost g = initial@;
        let s = CollectionShrinker { current: initial, predicate, min_size, seen };
        assert(views(s.seen@) =~= seq![g]);
        s
    }

    pub fn current(&self) -> (r: &[u64])
        ensures
            r@ == self.spec_current(),
    {
        self.current.as_slice()
    }

    /// The number of distinct values considered.
    pub fn calls(&self) -> (r: usize)
        ensures
            r == self.tried().len(),
    {
        self.seen.len()
    }

    /// Whether `left` is better than `right`: shorter wins; otherwise the
    /// first differing element decides, comparing element by element.
    pub fn left_is_better(&self, left: &[u64], right: &[u64]) -> (r: bool)
        ensures
            r == better_collection(left@, right@),
    {
        collection_left_is_better(left, right)
    }
}

/// Runs the collection passes in order space from `initial`: the result
/// is `initial` or a sequence the oracle accepted, and the oracle as it
/// stands afterwards.
fn run_collection_in_order_space<O: SeqOracle>(initial: Vec<u64>, oracle: O, min_size: usize) -> (r: (
    Vec<u64>,
    O,
))
    requires
        oracle.oracle_inv(),
    ensures
        oracle.keeps(r.1),
        r.0@ == initial@ || r.1.accepted(r.0@),
        min_size <= initial@.len() ==> r.0@ == zeros(min_size as nat) || exists|o: O|
            #[trigger] oracle.keeps(o) && o.keeps(r.1) && o.rejected(zeros(min_size as nat)),
{
    let space = CollectionInOrderSpace::new(initial, oracle);
    let space = space.run(min_size);
    proof {
        if space.current@ != space.initial@ {
            assert(space.oracle.accepted(space.current@));
        }
    }
    (space.current, space.oracle)
}

/// The bytes that order positions stand for.
pub open spec fn narrow(v: Seq<u64>) -> Seq<u8> {
    v.map_values(|o: u64| o as u8)
}

/// The order positions of bytes.
pub open spec fn widen(v: Seq<u8>) -> Seq<u64> {
    v.map_values(|b: u8| b as u64)
}

fn narrow_values(v: &[u64]) -> (r: Vec<u8>)
    ensures
        r@ == narrow(v@),
{
    let mut r: Vec<u8> = Vec::new();
    let mut i: usize = 0;
    while i < v.len()
        invariant
            i <= v@.len(),
            r@ == narrow(v@.subrange(0, i as int)),
        decreases v@.len() - i,
    {
        r.push(v[i] as u8);
        proof {
            assert(narrow(v@.subrange(0, i + 1)) =~= narrow(v@.subrange(0, i as int)).push(v@[i as int] as u8));
        }
        i += 1;
    }
    assert(v@.subrange(0, v@.len() as int) =~= v@);
    r
}

fn widen_values(v: &[u8]) -> (r: Vec<u64>)
    ensures
        r@ == widen(v@),
{
    let mut r: Vec<u64> = Vec::new();
    let mut i: usize = 0;
    while i < v.len()
        invariant
            i <= v@.len(),
            r@ == widen(v@.subrange(0, i as int)),
        decreases v@.len() - i,
    {
        r.push(v[i] as u64);
        proof {
            assert(widen(v@.subrange(0, i + 1)) =~= widen(v@.subrange(0, i as int)).push(v@[i as int] as u64));
        }
        i += 1;
    }
    assert(v@.subrange(0, v@.len() as int) =~= v@);
    r
}

proof fn lemma_narrow_widen(v: Seq<u8>)
    ensures
        narrow(widen(v)) == v,
{
    assert forall|i: int| 0 <= i < v.len() implies #[trigger] narrow(widen(v))[i] == v[i] by {
        let b = v[i];
        assert((b as u64) as u8 == b) by (bit_vector);
    }
    assert(narrow(widen(v)) =~= v);
}

/// `n` zero bytes: the simplest byte string of length `n`.
pub open spec fn zero_bytes(n: nat) -> Seq<u8> {
    Seq::new(n, |i: int| 0u8)
}

/// A predicate on bytes, asked about order positions.
struct BytesPredicate<F> {
    f: F,
    log: Ghost<Seq<Seq<u64>>>,
}

impl<F: Fn(&[u8]) -> bool> SeqOracle for BytesPredicate<F> {
    closed spec fn oracle_inv(&self) -> bool {
        forall|s: &[u8]| call_requires(self.f, (s,))
    }

    closed spec fn keeps(&self, later: Self) -> bool {
        later.f == self.f
    }

    proof fn lemma_keeps_refl(a: Self) {
    }

    proof fn lemma_keeps_trans(a: Self, b: Self, c: Self) {
    }

    closed spec fn accepted(&self, v: Seq<u64>) -> bool {
        exists|s: &[u8]| s@ == narrow(v) && #[trigger] call_ensures(self.f, (s,), true)
    }

    closed spec fn rejected(&self, v: Seq<u64>) -> bool {
        exists|s: &[u8]| s@ == narrow(v) && #[trigger] call_ensures(self.f, (s,), false)
    }

    closed spec fn asked(&self) -> Seq<Seq<u64>> {
        self.log@
    }

    fn test(&mut self, v: &Vec<u64>) -> (r: bool) {
        proof {
            self.log@ = self.log@.push(v@);
        }
        let bytes = narrow_values(v.as_slice());
        let s = bytes.as_slice();
        (self.f)(s)
    }
}

/// Standalone shrinker for byte sequences: the collection pipeline with
/// each byte's value as its position in the shrink order.
pub struct BytesShrinker;

impl BytesShrinker {
    /// Shrinks `initial` while `predicate` holds: tries `min_size` zero
    /// bytes, then all zeros, deleting bytes, reordering, and lowering
    /// repeated and single bytes. The result is `initial` or a byte string
    /// that the predicate accepted.
    pub fn shrink<F: Fn(&[u8]) -> bool>(initial: &[u8], predicate: F, min_size: usize) -> (r: Vec<u8>)
        requires
            forall|s: &[u8]| call_requires(predicate, (s,)),
        ensures
            r@ == initial@ || exists|s: &[u8]| s@ == r@ && #[trigger] call_ensures(predicate, (s,), true),
            min_size <= initial@.len() && (forall|s: &[u8]|
                s@ == zero_bytes(min_size as nat) ==> !#[trigger] call_ensures(predicate, (s,), false)) ==> r@
                == zero_bytes(min_size as nat),
    {
        let orders = widen_values(initial);
        let ghost start = orders@;
        let ghost oracle0 = BytesPredicate { f: predicate, log: Ghost(Seq::empty()) };
        let (current, oracle) = run_collection_in_order_space(orders, BytesPredicate { f: predicate, log: Ghost(Seq::empty()) }, min_size);
        let r = narrow_values(current.as_slice());
        proof {
            lemma_narrow_widen(initial@);
            assert(narrow(zeros(min_size as nat)) =~= zero_bytes(min_size as nat));
            if min_size <= initial@.len() && current@ != zeros(min_size as nat) {
                let o = choose|o: BytesPredicate<F>|
                    #[trigger] oracle0.keeps(o) && o.keeps(oracle) && o.rejected(zeros(min_size as nat));
                assert(o.f == oracle0.f);
            }
        }
        r
    }
}


/// Whether every order position in `v` names a character of `alphabet`.
pub open spec fn in_alphabet(alphabet: Seq<char>, v: Seq<u64>) -> bool {
    forall|i: int| 0 <= i < v.len() ==> v[i] < alphabet.len()
}

/// The characters of `alphabet` that the order positions in `v` name.
pub open spec fn chars_at(alphabet: Seq<char>, v: Seq<u64>) -> Seq<char> {
    v.map_values(|o: u64| alphabet[o as int])
}

/// The position of `c` in `alphabet`: the first one, when it occurs.
fn position_in(alphabet: &[char], c: char) -> (r: u64)
    requires
        alphabet@.contains(c),
        alphabet@.len() <= u64::MAX,
    ensures
        r < alphabet@.len(),
        alphabet@[r as int] == c,
{
    let mut i: usize = 0;
    while i < alphabet.len()
        invariant
            i <= alphabet@.len(),
            alphabet@.len() <= u64::MAX,
            alphabet@.contains(c),
            forall|j: int| 0 <= j < i ==> alphabet@[j] != c,
        decreases alphabet@.len() - i,
    {
        if alphabet[i] == c {
            return i as u64;
        }
        i += 1;
    }
    proof {
        let j = choose|j: int| 0 <= j < alphabet@.len() && alphabet@[j] == c;
        assert(alphabet@[j] != c);
    }
    0
}

/// The order positions of the characters of `s` in `alphabet`.
fn positions_in(alphabet: &[char], s: &[char]) -> (r: Vec<u64>)
    requires
        forall|i: int| 0 <= i < s@.len() ==> alphabet@.contains(#[trigger] s@[i]),
        alphabet@.len() <= u64::MAX,
    ensures
        in_alphabet(alphabet@, r@),
        chars_at(alphabet@, r@) == s@,
{
    let mut r: Vec<u64> = Vec::new();
    let mut i: usize = 0;
    while i < s.len()
        invariant
            i <= s@.len(),
            r@.len() == i,
            forall|k: int| 0 <= k < s@.len() ==> alphabet@.contains(#[trigger] s@[k]),
            alphabet@.len() <= u64::MAX,
            in_alphabet(alphabet@, r@),
            chars_at(alphabet@, r@) == s@.subrange(0, i as int),
        decreases s@.len() - i,
    {
        let o = position_in(alphabet, s[i]);
        r.push(o);
        proof {
            assert(chars_at(alphabet@, r@) =~= s@.subrange(0, i + 1));
        }
        i += 1;
    }
    assert(s@.subrange(0, s@.len() as int) =~= s@);
    r
}

/// The characters that the order positions in `v` name.
fn chars_of(alphabet: &[char], v: &[u64]) -> (r: Vec<char>)
    requires
        in_alphabet(alphabet@, v@),
    ensures
        r@ == chars_at(alphabet@, v@),
{
    let mut r: Vec<char> = Vec::new();
    let mut i: usize = 0;
    while i < v.len()
        invariant
            i <= v@.len(),
            in_alphabet(alphabet@, v@),
            r@ == chars_at(alphabet@, v@.subrange(0, i as int)),
        decreases v@.len() - i,
    {
        r.push(alphabet[v[i] as usize]);
        proof {
            assert(chars_at(alphabet@, v@.subrange(0, i + 1)) =~= chars_at(
                alphabet@,
                v@.subrange(0, i as int),
            ).push(alphabet@[v@[i as int] as int]));
        }
        i += 1;
    }
    assert(v@.subrange(0, v@.len() as int) =~= v@);
    r
}

/// Whether every order position in `v` names a character of `alphabet`.
fn all_in_alphabet(alphabet: &[char], v: &[u64]) -> (r: bool)
    ensures
        r == in_alphabet(alphabet@, v@),
{
    let n = alphabet.len();
    let mut i: usize = 0;
    while i < v.len()
        invariant
            i <= v@.len(),
            n == alphabet@.len(),
            forall|k: int| 0 <= k < i ==> v@[k] < alphabet@.len(),
        decreases v@.len() - i,
    {
        if v[i] as u128 >= n as u128 {
            return false;
        }
        i += 1;
    }
    true
}

/// `n` copies of the first (simplest) character of `alphabet`.
pub open spec fn simplest_string(alphabet: Seq<char>, n: nat) -> Seq<char> {
    Seq::new(n, |i: int| alphabet[0])
}

/// A predicate on strings, asked about order positions in an alphabet.
/// Positions outside the alphabet are refused without asking.
struct StrPredicate<'a, F> {
    f: F,
    alphabet: &'a [char],
    log: Ghost<Seq<Seq<u64>>>,
}

impl<'a, F: Fn(&str) -> bool> SeqOracle for StrPredicate<'a, F> {
    closed spec fn oracle_inv(&self) -> bool {
        forall|s: &str| call_requires(self.f, (s,))
    }

    closed spec fn keeps(&self, later: Self) -> bool {
        later.f == self.f && later.alphabet == self.alphabet
    }

    proof fn lemma_keeps_refl(a: Self) {
    }

    proof fn lemma_keeps_trans(a: Self, b: Self, c: Self) {
    }

    closed spec fn accepted(&self, v: Seq<u64>) -> bool {
        &&& in_alphabet(self.alphabet@, v)
        &&& exists|s: &str| s@ == chars_at(self.alphabet@, v) && #[trigger] call_ensures(self.f, (s,), true)
    }

    closed spec fn rejected(&self, v: Seq<u64>) -> bool {
        ||| !in_alphabet(self.alphabet@, v)
        ||| exists|s: &str| s@ == chars_at(self.alphabet@, v) && #[trigger] call_ensures(self.f, (s,), false)
    }

    closed spec fn asked(&self) -> Seq<Seq<u64>> {
        self.log@
    }

    fn test(&mut self, v: &Vec<u64>) -> (r: bool) {
        let ghost before = *self;
        proof {
            self.log@ = self.log@.push(v@);
        }
        if !all_in_alphabet(self.alphabet, v.as_slice()) {
            proof {
                assert forall|w: Seq<u64>| before.accepted(w) implies #[trigger] self.accepted(w) by {
                    let s = choose|s: &str| s@ == chars_at(before.alphabet@, w) && #[trigger] call_ensures(before.f, (s,), true);
                    assert(call_ensures(self.f, (s,), true));
                }
                assert forall|w: Seq<u64>| before.rejected(w) implies #[trigger] self.rejected(w) by {
                    if in_alphabet(self.alphabet@, w) {
                        let s = choose|s: &str| s@ == chars_at(before.alphabet@, w) && #[trigger] call_ensures(before.f, (s,), false);
                        assert(call_ensures(self.f, (s,), false));
                    }
                }
            }
            return false;
        }
        let chars = chars_of(self.alphabet, v.as_slice());
        let text = chars_to_string(chars.as_slice());
        (self.f)(text.as_str())
    }
}

/// Standalone shrinker for strings over an alphabet: the collection
/// pipeline with each character's position in `alphabet` as its place in
/// the shrink order, so characters earlier in `alphabet` are simpler.
pub struct StringShrinker;

impl StringShrinker {
    /// Shrinks `initial` while `predicate` holds, using only characters of
    /// `alphabet` (which lists them simplest first): tries `min_size`
    /// copies of the simplest character, then all simplest characters,
    /// deleting characters, reordering, and simplifying repeated and single
    /// characters. The result is `initial` or a string, all of whose
    /// characters are in `alphabet`, that the predicate accepted.
    pub fn shrink<F: Fn(&str) -> bool>(initial: &str, predicate: F, alphabet: &[char], min_size: usize) -> (r: Vec<char>)
        requires
            forall|s: &str| call_requires(predicate, (s,)),
            forall|i: int| 0 <= i < initial@.len() ==> alphabet@.contains(#[trigger] initial@[i]),
            alphabet@.len() <= u64::MAX,
        ensures
            r@ == initial@ || (exists|s: &str| s@ == r@ && #[trigger] call_ensures(predicate, (s,), true))
                && forall|i: int| 0 <= i < r@.len() ==> alphabet@.contains(#[trigger] r@[i]),
            alphabet@.len() > 0 && min_size <= initial@.len() && (forall|s: &str|
                s@ == simplest_string(alphabet@, min_size as nat) ==> !#[trigger] call_ensures(predicate, (s,), false))
                ==> r@ == simplest_string(alphabet@, min_size as nat),
    {
        let chars = crate::native::charutil::str_to_chars(initial);
        let orders = positions_in(alphabet, chars.as_slice());
        let ghost start = orders@;
        let ghost oracle0 = StrPredicate { f: predicate, alphabet, log: Ghost(Seq::empty()) };
        let (current, oracle) = run_collection_in_order_space(orders, StrPredicate { f: predicate, alphabet, log: Ghost(Seq::empty()) }, min_size);
        let r = chars_of(alphabet, current.as_slice());
        proof {
            assert(chars_at(alphabet@, start).len() == start.len());
            if alphabet@.len() > 0 {
                assert(chars_at(alphabet@, zeros(min_size as nat)) =~= simplest_string(alphabet@, min_size as nat));
                assert(in_alphabet(alphabet@, zeros(min_size as nat)));
            }
            if alphabet@.len() > 0 && min_size <= initial@.len() && current@ != zeros(min_size as nat) {
                let o = choose|o: StrPredicate<F>|
                    #[trigger] oracle0.keeps(o) && o.keeps(oracle) && o.rejected(zeros(min_size as nat));
                assert(o.f == oracle0.f);
            }
            if current@ != start {
                assert forall|i: int| 0 <= i < r@.len() implies alphabet@.contains(#[trigger] r@[i]) by {
                    assert(alphabet@[current@[i] as int] == r@[i]);
                }
            }
        }
        r
    }
}

} // verus!
