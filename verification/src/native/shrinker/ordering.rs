//! Making a permutation of `0..n` more sorted under a key, one proposal at
//! a time.
//!
//! [`shrink_ordering`] proposes permutations to its caller, which answers
//! whether a proposal became the new shrink target. Three phases: a full
//! sort; sorting regions that grow from each index (probed with
//! [`find_integer`]); and sorting around each out-of-place index while that
//! index stays where it is. Every proposal is a permutation of `0..n`: the
//! length and the multiset of keys never change.

use vstd::prelude::*;

use crate::native::shrinker::value_shrinkers::{find_integer, Probe};

verus! {

/// Whether `p` is a permutation of `0..n`.
pub open spec fn is_permutation(p: Seq<usize>, n: nat) -> bool {
    &&& p.len() == n
    &&& forall|i: int| 0 <= i < p.len() ==> p[i] < n
    &&& p.no_duplicates()
}

/// Whether `s` is in ascending order of `key`.
pub open spec fn sorted_by_key(s: Seq<usize>, key: Seq<u64>) -> bool {
    forall|a: int, b: int| 0 <= a < b < s.len() ==> key[s[a] as int] <= key[s[b] as int]
}

/// Whether `s` is strictly ascending.
pub open spec fn ascending(s: Seq<usize>) -> bool {
    forall|a: int, b: int| 0 <= a < b < s.len() ==> s[a] < s[b]
}

/// Whether entries of `s` with equal keys stand in ascending order.
pub open spec fn stable_by_key(s: Seq<usize>, key: Seq<u64>) -> bool {
    forall|a: int, b: int| 0 <= a < b < s.len() && key[s[a] as int] == key[s[b] as int] ==> s[a] < s[b]
}

/// `0..n` in order.
pub open spec fn identity(n: nat) -> Seq<usize> {
    Seq::new(n, |m: int| m as usize)
}

/// Whether `s` is the stable sort of `0..n` by `key`: a permutation, sorted
/// by key, with ties in ascending order.
pub open spec fn stable_sort_of(s: Seq<usize>, n: nat, key: Seq<u64>) -> bool {
    &&& is_permutation(s, n)
    &&& sorted_by_key(s, key)
    &&& stable_by_key(s, key)
}

/// Whether `accept` was asked about (a slice holding) `q`.
pub open spec fn asked<F: Fn(&[usize]) -> bool>(accept: F, q: Seq<usize>) -> bool {
    exists|p: &[usize], b: bool| p@ == q && #[trigger] call_ensures(accept, (p,), b)
}

/// Whether every entry of `log` is a permutation of `0..n` that `accept`
/// was asked about.
pub open spec fn proposals_ok<F: Fn(&[usize]) -> bool>(log: Seq<Seq<usize>>, n: nat, accept: F) -> bool {
    forall|j: int| 0 <= j < log.len() ==> is_permutation(#[trigger] log[j], n) && asked(accept, log[j])
}

/// Whether `b` begins with `a`.
pub open spec fn extends(a: Seq<Seq<usize>>, b: Seq<Seq<usize>>) -> bool {
    &&& a.len() <= b.len()
    &&& forall|j: int| 0 <= j < a.len() ==> #[trigger] b[j] == a[j]
}

/// Whether every entry of `s` indexes `key`.
pub open spec fn keyed(s: Seq<usize>, key: Seq<u64>) -> bool {
    forall|i: int| 0 <= i < s.len() ==> s[i] < key.len()
}

/// A sequence with the multiset of a permutation is a permutation.
proof fn lemma_same_multiset_permutation(s: Seq<usize>, t: Seq<usize>, n: nat)
    requires
        is_permutation(s, n),
        t.to_multiset() == s.to_multiset(),
    ensures
        is_permutation(t, n),
{
    broadcast use vstd::seq_lib::group_to_multiset_ensures;

    s.lemma_multiset_has_no_duplicates();
    t.to_multiset_ensures();
    s.to_multiset_ensures();
    assert forall|x: usize| t.to_multiset().contains(x) implies t.to_multiset().count(x) == 1 by {
        assert(s.to_multiset().contains(x));
    }
    t.lemma_multiset_has_no_duplicates_conv();
    assert forall|i: int| 0 <= i < t.len() implies t[i] < n by {
        assert(t.contains(t[i]));
        assert(t.to_multiset().count(t[i]) > 0);
        assert(s.contains(t[i]));
        let j = choose|j: int| 0 <= j < s.len() && s[j] == t[i];
    }
}

/// The multiset of a sequence split into three parts.
proof fn lemma_multiset_three(a: Seq<usize>, b: Seq<usize>, c: Seq<usize>)
    ensures
        (a + b + c).to_multiset() == a.to_multiset().add(b.to_multiset()).add(c.to_multiset()),
{
    vstd::seq_lib::lemma_multiset_commutative(a + b, c);
    vstd::seq_lib::lemma_multiset_commutative(a, b);
}

/// The entries of `s`, stably sorted by `key` (an insertion sort).
fn sort_by_key(s: &[usize], key: &Vec<u64>) -> (r: Vec<usize>)
    requires
        keyed(s@, key@),
    ensures
        r@.to_multiset() == s@.to_multiset(),
        r@.len() == s@.len(),
        sorted_by_key(r@, key@),
        keyed(r@, key@),
        ascending(s@) ==> stable_by_key(r@, key@),
{
    broadcast use vstd::seq_lib::group_to_multiset_ensures;

    let mut r: Vec<usize> = Vec::new();
    let mut i: usize = 0;
    while i < s.len()
        invariant
            i <= s@.len(),
            keyed(s@, key@),
            r@.to_multiset() == s@.take(i as int).to_multiset(),
            r@.len() == i,
            sorted_by_key(r@, key@),
            keyed(r@, key@),
            forall|m: int| 0 <= m < r@.len() ==> exists|t: int| 0 <= t < i && s@[t] == #[trigger] r@[m],
            ascending(s@) ==> stable_by_key(r@, key@),
        decreases s@.len() - i,
    {
        let x = s[i];
        let kx = key[x];
        let mut j: usize = r.len();
        while j > 0 && key[r[j - 1]] > kx
            invariant
                j <= r@.len(),
                keyed(r@, key@),
                sorted_by_key(r@, key@),
                x < key@.len(),
                kx == key@[x as int],
                forall|m: int| j <= m < r@.len() ==> key@[r@[m] as int] > kx,
            decreases j,
        {
            j -= 1;
        }
        let ghost before = r@;
        r.insert(j, x);
        proof {
            assert(r@ =~= before.insert(j as int, x));
            assert(s@.take(i + 1) =~= s@.take(i as int).push(x));
            vstd::seq_lib::to_multiset_insert(before, j as int, x);
            vstd::seq_lib::to_multiset_build(s@.take(i as int), x);
            assert(r@.to_multiset() == s@.take(i + 1).to_multiset());
            assert forall|a: int, b: int| 0 <= a < b < r@.len() implies key@[r@[a] as int]
                <= key@[r@[b] as int] by {
                if b < j {
                } else if b == j {
                    assert(a < j);
                    assert(j > 0 ==> key@[before[j - 1] as int] <= kx);
                    if a < j - 1 {
                        assert(key@[before[a] as int] <= key@[before[j - 1] as int]);
                    }
                } else if a < j {
                    assert(key@[r@[b] as int] > kx);
                    if j > 0 {
                        assert(key@[before[a] as int] <= key@[before[j - 1] as int]);
                    }
                } else if a == j {
                } else {
                }
            }
            assert forall|m: int| 0 <= m < r@.len() implies exists|t: int| 0 <= t < i + 1 && s@[t] == #[trigger] r@[m] by {
                if m < j {
                    assert(r@[m] == before[m]);
                    let t = choose|t: int| 0 <= t < i && s@[t] == before[m];
                } else if m == j {
                    assert(s@[i as int] == r@[m]);
                } else {
                    assert(r@[m] == before[m - 1]);
                    let t = choose|t: int| 0 <= t < i && s@[t] == before[m - 1];
                }
            }
            if ascending(s@) {
                assert forall|a: int, b: int| 0 <= a < b < r@.len() && key@[r@[a] as int] == key@[r@[b] as int]
                    implies r@[a] < r@[b] by {
                    if b < j {
                        assert(r@[a] == before[a] && r@[b] == before[b]);
                    } else if b == j {
                        assert(r@[a] == before[a]);
                        let t = choose|t: int| 0 <= t < i && s@[t] == before[a];
                    } else if a < j {
                        assert(key@[r@[b] as int] > kx);
                        if j > 0 {
                            assert(key@[before[a] as int] <= key@[before[j - 1] as int]);
                        }
                    } else if a == j {
                        assert(key@[r@[b] as int] > kx);
                    } else {
                        assert(r@[a] == before[a - 1] && r@[b] == before[b - 1]);
                    }
                }
            }
        }
        i += 1;
    }
    proof {
        assert(s@.take(i as int) =~= s@);
    }
    r
}

/// Appends `src[a..b]` to `dst`.
fn append_indices(dst: &mut Vec<usize>, src: &[usize], a: usize, b: usize)
    requires
        a <= b <= src@.len(),
    ensures
        final(dst)@ == old(dst)@ + src@.subrange(a as int, b as int),
{
    let mut k = a;
    while k < b
        invariant
            a <= k <= b <= src@.len(),
            dst@ == old(dst)@ + src@.subrange(a as int, k as int),
        decreases b - k,
    {
        dst.push(src[k]);
        proof {
            assert(src@.subrange(a as int, k + 1) =~= src@.subrange(a as int, k as int).push(
                src@[k as int],
            ));
        }
        k += 1;
    }
}

/// Whether two index sequences are equal.
fn indices_equal(a: &[usize], b: &[usize]) -> (r: bool)
    ensures
        r == (a@ == b@),
{
    if a.len() != b.len() {
        return false;
    }
    let mut k: usize = 0;
    while k < a.len()
        invariant
            a@.len() == b@.len(),
            k <= a@.len(),
            forall|j: int| 0 <= j < k ==> a@[j] == b@[j],
        decreases a@.len() - k,
    {
        if a[k] != b[k] {
            return false;
        }
        k += 1;
    }
    proof {
        assert(a@ =~= b@);
    }
    true
}

/// `current` with `current[i..i + k]` sorted by key.
fn sort_region_by_key(current: &[usize], i: usize, k: usize, key: &Vec<u64>) -> (r: Vec<usize>)
    requires
        i + k <= current@.len(),
        keyed(current@, key@),
    ensures
        r@.to_multiset() == current@.to_multiset(),
        r@.subrange(0, i as int) == current@.subrange(0, i as int),
        sorted_by_key(r@.subrange(i as int, i + k), key@),
        r@.subrange(i + k, r@.len() as int) == current@.subrange(i + k, current@.len() as int),
{
    let n = current.len();
    let mut region: Vec<usize> = Vec::new();
    append_indices(&mut region, current, i, i + k);
    let sorted = sort_by_key(region.as_slice(), key);
    let mut attempt: Vec<usize> = Vec::new();
    append_indices(&mut attempt, current, 0, i);
    append_indices(&mut attempt, sorted.as_slice(), 0, sorted.len());
    append_indices(&mut attempt, current, i + k, current.len());
    proof {
        let a = current@.subrange(0, i as int);
        let b = current@.subrange(i as int, i + k);
        let c = current@.subrange(i + k, current@.len() as int);
        assert(current@ =~= a + b + c);
        assert(region@ =~= b);
        assert(sorted@.subrange(0, sorted@.len() as int) =~= sorted@);
        assert(attempt@ =~= a + sorted@ + c);
        lemma_multiset_three(a, b, c);
        lemma_multiset_three(a, sorted@, c);
        assert(attempt@.subrange(0, i as int) =~= a);
        assert(attempt@.subrange(i as int, i + k) =~= sorted@);
        assert(attempt@.subrange(i + k, attempt@.len() as int) =~= c);
    }
    attempt
}

/// `current` with `current[a..b]` sorted by key around position `centre`,
/// whose entry stays where it is while the sorted entries fill the rest.
fn sort_around_by_key(current: &[usize], a: usize, b: usize, centre: usize, key: &Vec<u64>) -> (r:
    Vec<usize>)
    requires
        a < centre < b <= current@.len(),
        keyed(current@, key@),
    ensures
        r@.to_multiset() == current@.to_multiset(),
        r@[centre as int] == current@[centre as int],
        r@.subrange(0, a as int) == current@.subrange(0, a as int),
        r@.subrange(b as int, r@.len() as int) == current@.subrange(b as int, current@.len() as int),
        sorted_by_key(r@.subrange(a as int, centre as int) + r@.subrange(centre + 1, b as int), key@),
{
    let split = centre - a;
    let mut sides: Vec<usize> = Vec::new();
    append_indices(&mut sides, current, a, centre);
    append_indices(&mut sides, current, centre + 1, b);
    let values = sort_by_key(sides.as_slice(), key);
    let mut attempt: Vec<usize> = Vec::new();
    append_indices(&mut attempt, current, 0, a);
    append_indices(&mut attempt, values.as_slice(), 0, split);
    attempt.push(current[centre]);
    append_indices(&mut attempt, values.as_slice(), split, values.len());
    append_indices(&mut attempt, current, b, current.len());
    proof {
        let pre = current@.subrange(0, a as int);
        let left = current@.subrange(a as int, centre as int);
        let mid = seq![current@[centre as int]];
        let right = current@.subrange(centre + 1, b as int);
        let post = current@.subrange(b as int, current@.len() as int);
        let v1 = values@.subrange(0, split as int);
        let v2 = values@.subrange(split as int, values@.len() as int);
        assert(sides@ =~= left + right);
        assert(values@ =~= v1 + v2);
        assert(current@ =~= pre + left + mid + right + post);
        assert(attempt@ =~= pre + v1 + mid + v2 + post);
        vstd::seq_lib::lemma_multiset_commutative(pre + left + mid + right, post);
        vstd::seq_lib::lemma_multiset_commutative(pre + left + mid, right);
        vstd::seq_lib::lemma_multiset_commutative(pre + left, mid);
        vstd::seq_lib::lemma_multiset_commutative(pre, left);
        vstd::seq_lib::lemma_multiset_commutative(pre + v1 + mid + v2, post);
        vstd::seq_lib::lemma_multiset_commutative(pre + v1 + mid, v2);
        vstd::seq_lib::lemma_multiset_commutative(pre + v1, mid);
        vstd::seq_lib::lemma_multiset_commutative(pre, v1);
        vstd::seq_lib::lemma_multiset_commutative(v1, v2);
        vstd::seq_lib::lemma_multiset_commutative(left, right);
        broadcast use vstd::multiset::group_multiset_axioms;

        let ma = pre.to_multiset().add(v1.to_multiset()).add(mid.to_multiset()).add(
            v2.to_multiset(),
        ).add(post.to_multiset());
        let mc = pre.to_multiset().add(left.to_multiset()).add(mid.to_multiset()).add(
            right.to_multiset(),
        ).add(post.to_multiset());
        assert(attempt@.to_multiset() == ma);
        assert(current@.to_multiset() == mc);
        assert forall|x: usize| ma.count(x) == mc.count(x) by {
            assert(v1.to_multiset().add(v2.to_multiset()).count(x) == left.to_multiset().add(
                right.to_multiset(),
            ).count(x));
        }
        assert(ma =~= mc);
        assert(attempt@.subrange(0, a as int) =~= pre);
        assert(attempt@.subrange(b as int, attempt@.len() as int) =~= post);
        assert(attempt@.subrange(a as int, centre as int) =~= v1);
        assert(attempt@.subrange(centre + 1, b as int) =~= v2);
    }
    attempt
}

/// Whether `after` is `before` with `before[i..i + k]` sorted by key.
pub open spec fn region_sorted(before: Seq<usize>, i: int, k: int, after: Seq<usize>, key: Seq<u64>) -> bool {
    &&& after.to_multiset() == before.to_multiset()
    &&& after.subrange(0, i) == before.subrange(0, i)
    &&& sorted_by_key(after.subrange(i, i + k), key)
    &&& after.subrange(i + k, after.len() as int) == before.subrange(i + k, before.len() as int)
}

/// Whether `after` is `before` with `before[a..b]` sorted by key around
/// `centre`, whose entry stays where it is.
pub open spec fn around_sorted(
    before: Seq<usize>,
    a: int,
    b: int,
    centre: int,
    after: Seq<usize>,
    key: Seq<u64>,
) -> bool {
    &&& after.to_multiset() == before.to_multiset()
    &&& after[centre] == before[centre]
    &&& after.subrange(0, a) == before.subrange(0, a)
    &&& after.subrange(b, after.len() as int) == before.subrange(b, before.len() as int)
    &&& sorted_by_key(after.subrange(a, centre) + after.subrange(centre + 1, b), key)
}

/// Whether the caller's `accept` may be asked about every permutation of
/// `0..n`.
pub open spec fn accepts_permutations<F: Fn(&[usize]) -> bool>(accept: F, n: nat) -> bool {
    forall|p: &[usize]| is_permutation(p@, n) ==> #[trigger] accept.requires((p,))
}

/// The probe of the region phase: sorting `snapshot[i..i + k]`.
struct RegionProbe<F> {
    snapshot: Vec<usize>,
    key: Vec<u64>,
    accept: F,
    i: usize,
    /// The last region sort that was accepted, or empty.
    best: Vec<usize>,
    /// Every arrangement proposed so far, in order.
    proposed: Ghost<Seq<Seq<usize>>>,
}

impl<F: Fn(&[usize]) -> bool> RegionProbe<F> {
    /// What asking at `k` answers: no past the limit; else the sort of
    /// `snapshot[i..i + k]` is proposed: yes where it changes nothing,
    /// else what `accept` answers, and an accepted sort is kept as `best`.
    pub closed spec fn region_outcome(&self, k: int, later: Self, r: bool) -> bool {
        if k > self.limit() {
            !r && later == *self
        } else {
            exists|p: &[usize]|
                #[trigger] region_sorted(self.snapshot@, self.i as int, k, p@, self.key@) && if p@
                    == self.snapshot@ {
                    r && later == *self
                } else {
                    &&& call_ensures(self.accept, (p,), r)
                    &&& later.proposed@ == self.proposed@.push(p@)
                    &&& r ==> later == RegionProbe { best: later.best, proposed: later.proposed, ..*self }
                        && later.best@ == p@
                    &&& !r ==> later == RegionProbe { proposed: later.proposed, ..*self }
                }
        }
    }
}

impl<F: Fn(&[usize]) -> bool> Probe for RegionProbe<F> {
    closed spec fn probe_inv(&self) -> bool {
        &&& is_permutation(self.snapshot@, self.key@.len())
        &&& self.i < self.snapshot@.len()
        &&& accepts_permutations(self.accept, self.key@.len())
        &&& (self.best@.len() == 0 || is_permutation(self.best@, self.key@.len()))
        &&& proposals_ok(self.proposed@, self.key@.len(), self.accept)
    }

    closed spec fn limit(&self) -> nat {
        (self.snapshot@.len() - self.i) as nat
    }

    closed spec fn may_become(&self, later: Self) -> bool {
        &&& later.snapshot == self.snapshot
        &&& later.key == self.key
        &&& later.accept == self.accept
        &&& later.i == self.i
        &&& extends(self.proposed@, later.proposed@)
    }

    /// Not tracked for this probe.
    closed spec fn reached(&self, k: nat) -> bool {
        true
    }

    /// Not tracked for this probe.
    closed spec fn refuted(&self, k: nat) -> bool {
        true
    }

    proof fn lemma_may_become_refl(a: Self) {
    }

    proof fn lemma_may_become_trans(a: Self, b: Self, c: Self) {
    }

    fn holds(&mut self, k: u128) -> (r: bool)
        ensures
            old(self).region_outcome(k as int, *final(self), r),
    {
        let len = self.snapshot.len();
        if k > (len - self.i) as u128 {
            return false;
        }
        let k = k as usize;
        let attempt = sort_region_by_key(self.snapshot.as_slice(), self.i, k, &self.key);
        proof {
            lemma_same_multiset_permutation(self.snapshot@, attempt@, self.key@.len());
        }
        let proposal: &[usize] = attempt.as_slice();
        assert(region_sorted(self.snapshot@, self.i as int, k as int, proposal@, self.key@));
        if indices_equal(attempt.as_slice(), self.snapshot.as_slice()) {
            return true;
        }
        proof {
            self.proposed@ = self.proposed@.push(proposal@);
        }
        if (self.accept)(proposal) {
            self.best = attempt;
            true
        } else {
            false
        }
    }
}

/// The probe of the gap phase: sorting around the fixed index `centre`,
/// widening to the right (from `right`) or to the left (from `left`).
struct GapProbe<F> {
    snapshot: Vec<usize>,
    key: Vec<u64>,
    accept: F,
    left: usize,
    right: usize,
    centre: usize,
    widen_right: bool,
    /// Every arrangement proposed so far, in order.
    proposed: Ghost<Seq<Seq<usize>>>,
}

impl<F: Fn(&[usize]) -> bool> GapProbe<F> {
    /// Sorts `snapshot[a..b]` around the centre and proposes it; a sort that
    /// changes nothing counts as accepted.
    fn try_sort_around(&mut self, a: usize, b: usize) -> (r: bool)
        requires
            is_permutation(old(self).snapshot@, old(self).key@.len()),
            accepts_permutations(old(self).accept, old(self).key@.len()),
            proposals_ok(old(self).proposed@, old(self).key@.len(), old(self).accept),
        ensures
            old(self).around_outcome(a as int, b as int, r),
            *final(self) == (GapProbe { proposed: final(self).proposed, ..*old(self) }),
            extends(old(self).proposed@, final(self).proposed@),
            proposals_ok(final(self).proposed@, final(self).key@.len(), final(self).accept),
    {
        let centre = self.centre;
        if a >= centre || centre >= b || b > self.snapshot.len() {
            return false;
        }
        let attempt = sort_around_by_key(self.snapshot.as_slice(), a, b, centre, &self.key);
        proof {
            lemma_same_multiset_permutation(self.snapshot@, attempt@, self.key@.len());
        }
        let proposal: &[usize] = attempt.as_slice();
        assert(around_sorted(self.snapshot@, a as int, b as int, centre as int, proposal@, self.key@));
        if indices_equal(attempt.as_slice(), self.snapshot.as_slice()) {
            return true;
        }
        proof {
            self.proposed@ = self.proposed@.push(proposal@);
        }
        (self.accept)(proposal)
    }

    /// What proposing the sort of `snapshot[a..b]` around the centre answers:
    /// no where the centre is not strictly inside `a..b` or `b` is past the
    /// end; yes where the sort changes nothing; else what `accept` answers.
    /// What asking at `k` answers: no past the limit; else the outcome of
    /// sorting around the centre with the window widened by `k` on the
    /// side being widened.
    pub closed spec fn widened_outcome(&self, k: int, r: bool) -> bool {
        if k > self.limit() {
            !r
        } else if self.widen_right {
            self.around_outcome(self.left as int, self.right + k, r)
        } else {
            self.around_outcome(self.left - k, self.right as int, r)
        }
    }

    /// Whether `later` differs from this probe at most in its record of
    /// proposals.
    pub closed spec fn same_but_log(&self, later: Self) -> bool {
        later == GapProbe { proposed: later.proposed, ..*self }
    }

    pub closed spec fn around_outcome(&self, a: int, b: int, r: bool) -> bool {
        if a >= self.centre || self.centre >= b || b > self.snapshot@.len() {
            !r
        } else {
            exists|p: &[usize]|
                #[trigger] around_sorted(self.snapshot@, a, b, self.centre as int, p@, self.key@) && if p@
                    == self.snapshot@ {
                    r
                } else {
                    call_ensures(self.accept, (p,), r)
                }
        }
    }
}

impl<F: Fn(&[usize]) -> bool> Probe for GapProbe<F> {
    closed spec fn probe_inv(&self) -> bool {
        &&& is_permutation(self.snapshot@, self.key@.len())
        &&& accepts_permutations(self.accept, self.key@.len())
        &&& self.left <= self.centre < self.right <= self.snapshot@.len()
        &&& proposals_ok(self.proposed@, self.key@.len(), self.accept)
    }

    closed spec fn limit(&self) -> nat {
        if self.widen_right {
            (self.snapshot@.len() - self.right) as nat
        } else {
            self.left as nat
        }
    }

    closed spec fn may_become(&self, later: Self) -> bool {
        &&& later == GapProbe { proposed: later.proposed, ..*self }
        &&& extends(self.proposed@, later.proposed@)
    }

    /// Not tracked for this probe.
    closed spec fn reached(&self, k: nat) -> bool {
        true
    }

    /// Not tracked for this probe.
    closed spec fn refuted(&self, k: nat) -> bool {
        true
    }

    proof fn lemma_may_become_refl(a: Self) {
    }

    proof fn lemma_may_become_trans(a: Self, b: Self, c: Self) {
    }

    fn holds(&mut self, k: u128) -> (r: bool)
        ensures
            old(self).same_but_log(*final(self)),
            old(self).widened_outcome(k as int, r),
    {
        if self.widen_right {
            if k > (self.snapshot.len() - self.right) as u128 {
                return false;
            }
            let k = k as usize;
            self.try_sort_around(self.left, self.right + k)
        } else {
            if k > self.left as u128 {
                return false;
            }
            let k = k as usize;
            self.try_sort_around(self.left - k, self.right)
        }
    }
}

/// Proposes permutations of `0..n` that are more sorted under `keys`:
/// first the stable sort (and stops if it is accepted), then sorted regions
/// grown from each index, then sorts around each out-of-place index.
/// `accept(p)` answers whether `p` became the new shrink target.
///
/// Returns, as a ghost record, every arrangement it proposed, in order:
/// nothing when `n <= 1`; otherwise only permutations of `0..n` that
/// `accept` was asked about, the first being the stable sort of `0..n` by
/// key unless `0..n` is that sort already.
pub fn shrink_ordering<K, F>(n: usize, keys: K, accept: F) -> (proposed: Ghost<Seq<Seq<usize>>>)
    where
        K: Fn(usize) -> u64,
        F: Fn(&[usize]) -> bool,
    requires
        forall|i: usize| i < n ==> #[trigger] keys.requires((i,)),
        n >= 2 ==> accepts_permutations(accept, n as nat),
    ensures
        n <= 1 ==> proposed@ == Seq::<Seq<usize>>::empty(),
        proposals_ok(proposed@, n as nat, accept),
        n >= 2 ==> exists|key: Seq<u64>|
            {
                &&& key.len() == n
                &&& forall|i: int| 0 <= i < n ==> #[trigger] keys.ensures((i as usize,), key[i])
                &&& stable_sort_of(identity(n as nat), n as nat, key) || (proposed@.len() >= 1 && stable_sort_of(
                    proposed@[0],
                    n as nat,
                    key,
                ))
            },
{
    if n <= 1 {
        return Ghost(Seq::empty());
    }
    let mut key: Vec<u64> = Vec::new();
    let mut current: Vec<usize> = Vec::new();
    let mut j: usize = 0;
    while j < n
        invariant
            j <= n,
            key@.len() == j,
            current@ == Seq::new(j as nat, |m: int| m as usize),
            forall|i: usize| i < n ==> #[trigger] keys.requires((i,)),
            forall|i: int| 0 <= i < j ==> #[trigger] keys.ensures((i as usize,), key@[i]),
        decreases n - j,
    {
        key.push(keys(j));
        current.push(j);
        proof {
            assert(current@ =~= Seq::new((j + 1) as nat, |m: int| m as usize));
        }
        j += 1;
    }
    let ghost key0 = key@;
    proof {
        assert(is_permutation(current@, n as nat));
        assert(current@ =~= identity(n as nat));
    }
    let sorted = sort_by_key(current.as_slice(), &key);
    let ghost mut log: Seq<Seq<usize>> = Seq::empty();
    proof {
        lemma_same_multiset_permutation(current@, sorted@, n as nat);
        assert(stable_sort_of(sorted@, n as nat, key0));
    }
    if !indices_equal(sorted.as_slice(), current.as_slice()) {
        let proposal: &[usize] = sorted.as_slice();
        let yes = accept(proposal);
        proof {
            log = log.push(sorted@);
            assert(asked(accept, sorted@));
        }
        if yes {
            return Ghost(log);
        }
    }
    proof {
        assert(stable_sort_of(identity(n as nat), n as nat, key0) || (log.len() >= 1 && stable_sort_of(
            log[0],
            n as nat,
            key0,
        )));
    }
    let ghost accept0 = accept;
    let mut accept = accept;
    let mut i: usize = 0;
    while i < current.len() - 1
        invariant
            accept == accept0,
            2 <= n,
            current@.len() == n,
            i <= current@.len(),
            key@ == key0,
            key0.len() == n,
            is_permutation(current@, n as nat),
            accepts_permutations(accept, n as nat),
            proposals_ok(log, n as nat, accept),
            stable_sort_of(identity(n as nat), n as nat, key0) || (log.len() >= 1 && stable_sort_of(
                log[0],
                n as nat,
                key0,
            )),
        decreases current@.len() - i,
    {
        let mut probe = RegionProbe {
            snapshot: current.clone(),
            key,
            accept,
            i,
            best: Vec::new(),
            proposed: Ghost(log),
        };
        proof {
            assert(probe.snapshot@ =~= current@);
        }
        let k = find_integer(&mut probe);
        let RegionProbe { snapshot: _, key: back_key, accept: back_accept, i: _, best, proposed: back_log } = probe;
        key = back_key;
        accept = back_accept;
        proof {
            if log.len() >= 1 {
                assert(back_log@[0] == log[0]);
            }
            log = back_log@;
        }
        if best.len() > 0 {
            current = best;
        }
        let step = if k == 0 {
            1
        } else {
            k as usize
        };
        i += step;
    }
    let len = current.len();
    if len < 3 {
        return Ghost(log);
    }
    let mut i: usize = 1;
    while i < len - 1
        invariant
            accept == accept0,
            len == n,
            3 <= len,
            1 <= i <= len - 1,
            key@ == key0,
            key0.len() == n,
            is_permutation(current@, n as nat),
            accepts_permutations(accept, n as nat),
            proposals_ok(log, n as nat, accept),
            stable_sort_of(identity(n as nat), n as nat, key0) || (log.len() >= 1 && stable_sort_of(
                log[0],
                n as nat,
                key0,
            )),
        decreases len - 1 - i,
    {
        let a = key[current[i - 1]];
        let b = key[current[i]];
        let c = key[current[i + 1]];
        if !(a <= b && b <= c) {
            let mut probe = GapProbe {
                snapshot: current.clone(),
                key,
                accept,
                left: i,
                right: i + 1,
                centre: i,
                widen_right: true,
                proposed: Ghost(log),
            };
            proof {
                assert(probe.snapshot@ =~= current@);
            }
            let k_r = find_integer(&mut probe);
            let right = probe.right + k_r as usize;
            probe.right = right;
            probe.widen_right = false;
            let ghost mid_log = probe.proposed@;
            let _k_l = find_integer(&mut probe);
            let GapProbe { snapshot: _, key: back_key, accept: back_accept, proposed: back_log, .. } = probe;
            key = back_key;
            accept = back_accept;
            proof {
                if log.len() >= 1 {
                    assert(mid_log[0] == log[0]);
                    assert(back_log@[0] == mid_log[0]);
                }
                log = back_log@;
            }
        }
        i += 1;
    }
    Ghost(log)
}

} // verus!
