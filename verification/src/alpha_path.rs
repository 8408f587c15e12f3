//! Alphabetic segment labels and their successor operation.
//!
//! A label is a non-empty run of lowercase symbols from the contiguous
//! alphabet `a..=z`. Incrementing a label advances it to its lexicographic
//! successor under a bijective base-alphabet numbering, with one deliberate
//! asymmetry: when every position already holds the maximum symbol, the
//! label keeps its positions unchanged and grows by one trailing minimum
//! symbol (`zz` becomes `zza`, not `aaa`).

use vstd::prelude::*;

verus! {

/// The smallest symbol of the label alphabet, `a`.
pub const MIN_SYMBOL: u8 = 97;

/// The largest symbol of the label alphabet, `z`.
pub const MAX_SYMBOL: u8 = 122;

/// Every byte of the label lies in the recognized alphabet and the label is
/// non-empty.
pub open spec fn label_wf(s: Seq<u8>) -> bool {
    &&& s.len() >= 1
    &&& forall|i: int| 0 <= i < s.len() ==> MIN_SYMBOL <= #[trigger] s[i] <= MAX_SYMBOL
}

/// Every position already holds the maximum symbol.
pub open spec fn all_max(s: Seq<u8>) -> bool {
    forall|i: int| 0 <= i < s.len() ==> #[trigger] s[i] == MAX_SYMBOL
}

/// The successor of a label: carry maximum symbols back to the minimum from
/// the right, advance the first position below the maximum by one step; if
/// every position is at the maximum, keep them and append one minimum symbol.
pub open spec fn label_succ(s: Seq<u8>) -> Seq<u8>
    decreases s.len(),
{
    if s.len() == 0 {
        seq![MIN_SYMBOL]
    } else if s.last() == MAX_SYMBOL {
        if all_max(s) {
            s.push(MIN_SYMBOL)
        } else {
            label_succ(s.drop_last()).push(MIN_SYMBOL)
        }
    } else {
        s.drop_last().push((s.last() + 1) as u8)
    }
}

/// Shape of the successor when the label is not saturated: with `i` the
/// rightmost position below the maximum symbol, everything left of `i` is
/// kept, position `i` advances one step, and everything right of `i` is
/// reset to the minimum symbol.
proof fn lemma_succ_shape(s: Seq<u8>, i: int)
    requires
        label_wf(s),
        0 <= i < s.len(),
        s[i] < MAX_SYMBOL,
        forall|j: int| i < j < s.len() ==> #[trigger] s[j] == MAX_SYMBOL,
    ensures
        label_succ(s) =~= s.subrange(0, i).push((s[i] + 1) as u8) + Seq::new(
            (s.len() - i - 1) as nat,
            |j: int| MIN_SYMBOL,
        ),
    decreases s.len(),
{
    if i == s.len() - 1 {
        assert(s.drop_last() =~= s.subrange(0, i));
    } else {
        assert(s.last() == MAX_SYMBOL);
        assert(!all_max(s));
        let t = s.drop_last();
        lemma_succ_shape(t, i);
        assert(t.subrange(0, i) =~= s.subrange(0, i));
    }
}

/// `26` raised to the power `n`: the number of labels of length `n`.
pub open spec fn pow_alphabet(n: nat) -> nat
    decreases n,
{
    if n == 0 {
        1
    } else {
        26 * pow_alphabet((n - 1) as nat)
    }
}

/// The position of a label among the labels of its own length, read as a
/// base-26 numeral with digit `0` for the minimum symbol.
pub open spec fn label_rank(s: Seq<u8>) -> int
    decreases s.len(),
{
    if s.len() == 0 {
        0
    } else {
        label_rank(s.drop_last()) * 26 + (s.last() - MIN_SYMBOL)
    }
}

/// The label reached after `k` increments.
pub open spec fn label_succ_iter(s: Seq<u8>, k: nat) -> Seq<u8>
    decreases k,
{
    if k == 0 {
        s
    } else {
        label_succ(label_succ_iter(s, (k - 1) as nat))
    }
}

/// The all-minimum label of length `n`.
pub open spec fn min_label(n: nat) -> Seq<u8> {
    Seq::new(n, |i: int| MIN_SYMBOL)
}

/// The all-maximum label of length `n`.
pub open spec fn max_label(n: nat) -> Seq<u8> {
    Seq::new(n, |i: int| MAX_SYMBOL)
}

/// Every position of the label alphabet admits fewer than `26` steps, so a
/// label's rank is below the count of labels of its length.
proof fn lemma_rank_bound(s: Seq<u8>)
    requires
        forall|i: int| 0 <= i < s.len() ==> MIN_SYMBOL <= #[trigger] s[i] <= MAX_SYMBOL,
    ensures
        0 <= label_rank(s) < pow_alphabet(s.len()),
    decreases s.len(),
{
    if s.len() > 0 {
        lemma_rank_bound(s.drop_last());
    }
}

/// A saturated label has the greatest rank of its length.
proof fn lemma_all_max_rank(s: Seq<u8>)
    requires
        all_max(s),
    ensures
        label_rank(s) == pow_alphabet(s.len()) - 1,
    decreases s.len(),
{
    if s.len() > 0 {
        assert(all_max(s.drop_last()));
        lemma_all_max_rank(s.drop_last());
    }
}

/// Conversely, the greatest rank of a length is taken only by the
/// saturated label.
proof fn lemma_rank_max_is_all_max(s: Seq<u8>)
    requires
        forall|i: int| 0 <= i < s.len() ==> MIN_SYMBOL <= #[trigger] s[i] <= MAX_SYMBOL,
        label_rank(s) == pow_alphabet(s.len()) - 1,
    ensures
        all_max(s),
    decreases s.len(),
{
    if s.len() > 0 {
        let t = s.drop_last();
        lemma_rank_bound(t);
        assert(label_rank(t) == pow_alphabet(t.len()) - 1 && s.last() == MAX_SYMBOL) by {
            assert(label_rank(s) == label_rank(t) * 26 + (s.last() - MIN_SYMBOL));
            assert(pow_alphabet(s.len()) == 26 * pow_alphabet(t.len()));
            assert(0 <= s.last() - MIN_SYMBOL <= 25);
        }
        lemma_rank_max_is_all_max(t);
        assert forall|i: int| 0 <= i < s.len() implies #[trigger] s[i] == MAX_SYMBOL by {
            if i < s.len() - 1 {
                assert(t[i] == MAX_SYMBOL);
            }
        }
    }
}

/// An unsaturated label's successor keeps its length and advances its rank
/// by exactly one; the successor is again well formed.
proof fn lemma_succ_step(s: Seq<u8>)
    requires
        label_wf(s),
        !all_max(s),
    ensures
        label_succ(s).len() == s.len(),
        label_rank(label_succ(s)) == label_rank(s) + 1,
        label_wf(label_succ(s)),
    decreases s.len(),
{
    if s.last() == MAX_SYMBOL {
        let t = s.drop_last();
        assert(t.len() >= 1 && !all_max(t)) by {
            if all_max(t) {
                assert(all_max(s)) by {
                    assert(forall|i: int|
                        0 <= i < s.len() - 1 ==> #[trigger] s[i] == t[i] && t[i] == MAX_SYMBOL);
                }
            }
        }
        lemma_succ_step(t);
        let r = label_succ(t).push(MIN_SYMBOL);
        assert(r.drop_last() == label_succ(t));
        assert(r.last() == MIN_SYMBOL);
        assert(label_rank(r) == label_rank(label_succ(t)) * 26);
        assert(label_rank(s) == label_rank(t) * 26 + 25);
    } else {
        let r = s.drop_last().push((s.last() + 1) as u8);
        assert(r.drop_last() == s.drop_last());
    }
}

/// A saturated label's successor keeps every position and appends one
/// minimum symbol.
proof fn lemma_succ_saturated(s: Seq<u8>)
    requires
        label_wf(s),
        all_max(s),
    ensures
        label_succ(s) == s.push(MIN_SYMBOL),
        label_wf(label_succ(s)),
{
}

/// A label comes strictly before another: it is shorter, or of the same
/// length with a smaller rank. Incrementing always moves strictly upward
/// in this order, so the emitted label sequence can never repeat.
pub open spec fn label_lt(a: Seq<u8>, b: Seq<u8>) -> bool {
    a.len() < b.len() || (a.len() == b.len() && label_rank(a) < label_rank(b))
}

proof fn lemma_succ_lt(s: Seq<u8>)
    requires
        label_wf(s),
    ensures
        label_lt(s, label_succ(s)),
        label_wf(label_succ(s)),
{
    if all_max(s) {
        lemma_succ_saturated(s);
    } else {
        lemma_succ_step(s);
    }
}

/// Iterated increments stay well formed and move strictly upward.
proof fn lemma_succ_iter_lt(s: Seq<u8>, i: nat, j: nat)
    requires
        label_wf(s),
        i < j,
    ensures
        label_wf(label_succ_iter(s, i)),
        label_wf(label_succ_iter(s, j)),
        label_lt(label_succ_iter(s, i), label_succ_iter(s, j)),
    decreases j,
{
    lemma_succ_iter_wf(s, i);
    if j == i + 1 {
        lemma_succ_lt(label_succ_iter(s, i));
    } else {
        lemma_succ_iter_lt(s, i, (j - 1) as nat);
        lemma_succ_lt(label_succ_iter(s, (j - 1) as nat));
    }
}

proof fn lemma_succ_iter_wf(s: Seq<u8>, k: nat)
    requires
        label_wf(s),
    ensures
        label_wf(label_succ_iter(s, k)),
    decreases k,
{
    if k > 0 {
        lemma_succ_iter_wf(s, (k - 1) as nat);
        lemma_succ_lt(label_succ_iter(s, (k - 1) as nat));
    }
}

/// LAW. The label sequence generated from any well-formed starting label
/// has no repeats: two different counts of increments always yield two
/// different labels. Together with the encoder advancing its label exactly
/// once per finished segment, this is what keeps segment names free of
/// gaps and collisions.
pub proof fn lemma_label_sequence_distinct(s: Seq<u8>, i: nat, j: nat)
    requires
        label_wf(s),
        i != j,
    ensures
        label_succ_iter(s, i) != label_succ_iter(s, j),
{
    if i < j {
        lemma_succ_iter_lt(s, i, j);
    } else {
        lemma_succ_iter_lt(s, j, i);
    }
}

/// Starting from the all-minimum label of length `n`, `k` increments land
/// on the label of rank `k` while `k` stays among the labels of length `n`.
proof fn lemma_iter_rank(n: nat, k: nat)
    requires
        n >= 1,
        k < pow_alphabet(n),
    ensures
        label_wf(label_succ_iter(min_label(n), k)),
        label_succ_iter(min_label(n), k).len() == n,
        label_rank(label_succ_iter(min_label(n), k)) == k,
    decreases k,
{
    if k == 0 {
        lemma_min_label_rank(n);
    } else {
        lemma_iter_rank(n, (k - 1) as nat);
        let prev = label_succ_iter(min_label(n), (k - 1) as nat);
        assert(!all_max(prev)) by {
            if all_max(prev) {
                lemma_all_max_rank(prev);
            }
        }
        lemma_succ_step(prev);
    }
}

proof fn lemma_min_label_rank(n: nat)
    ensures
        label_wf(min_label(n)) <==> n >= 1,
        label_rank(min_label(n)) == 0,
        min_label(n).len() == n,
    decreases n,
{
    if n > 0 {
        lemma_min_label_rank((n - 1) as nat);
        assert(min_label(n).drop_last() =~= min_label((n - 1) as nat));
    }
}

/// LAW. For any initial length `n`, incrementing the all-minimum label
/// exactly `26^n - 1` times yields the all-maximum label of length `n`,
/// and the very next increment yields the length `n + 1` label made of
/// `n` maximum symbols followed by one minimum symbol.
pub proof fn lemma_label_cycle(n: nat)
    requires
        n >= 1,
    ensures
        label_succ_iter(min_label(n), (pow_alphabet(n) - 1) as nat) == max_label(n),
        label_succ_iter(min_label(n), pow_alphabet(n)) == max_label(n).push(MIN_SYMBOL),
{
    let k = (pow_alphabet(n) - 1) as nat;
    assert(pow_alphabet(n) >= 26) by {
        assert(pow_alphabet((n - 1) as nat) >= 1) by {
            lemma_rank_bound(min_label((n - 1) as nat));
        }
    }
    lemma_iter_rank(n, k);
    let top = label_succ_iter(min_label(n), k);
    lemma_rank_max_is_all_max(top);
    assert(top =~= max_label(n));
    assert(all_max(max_label(n)));
    lemma_succ_saturated(max_label(n));
    assert(label_succ_iter(min_label(n), pow_alphabet(n)) == label_succ(top));
}

/// An alphabetic path suffix: the label naming one output segment.
#[derive(Clone, Debug, PartialEq, Eq)]
pub struct AlphaPathSegment(pub Vec<u8>);

impl View for AlphaPathSegment {
    type V = Seq<u8>;

    open spec fn view(&self) -> Seq<u8> {
        self.0@
    }
}

impl AlphaPathSegment {
    pub open spec fn wf(&self) -> bool {
        label_wf(self@)
    }

    /// The initial label of a given length: the minimum symbol repeated
    /// `factor` times.
    pub fn from_factor(factor: usize) -> (r: Self)
        requires
            factor >= 1,
        ensures
            r@ == Seq::new(factor as nat, |i: int| MIN_SYMBOL),
            r.wf(),
    {
        let mut v: Vec<u8> = Vec::new();
        let mut i: usize = 0;
        while i < factor
            invariant
                i <= factor,
                v@ =~= Seq::new(i as nat, |j: int| MIN_SYMBOL),
            decreases factor - i,
        {
            v.push(MIN_SYMBOL);
            i = i + 1;
        }
        proof {
            assert(v@ =~= Seq::new(factor as nat, |i: int| MIN_SYMBOL));
        }
        AlphaPathSegment(v)
    }

    /// Advances the label in place to its successor. A saturated label
    /// (every position at the maximum symbol) keeps its positions and
    /// grows by one trailing minimum symbol; any other label carries from
    /// the right as usual.
    pub fn increment_mut(&mut self)
        requires
            old(self).wf(),
        ensures
            final(self)@ == label_succ(old(self)@),
            final(self).wf(),
            final(self)@.len() >= old(self)@.len(),
    {
        let ghost s = self@;
        let n = self.0.len();
        let mut i: usize = n;
        while i > 0 && self.0[i - 1] == MAX_SYMBOL
            invariant
                i <= n,
                n == self.0.len(),
                self@ == s,
                label_wf(s),
                forall|j: int| i <= j < n ==> #[trigger] s[j] == MAX_SYMBOL,
            decreases i,
        {
            i = i - 1;
        }
        if i == 0 {
            assert(all_max(s));
            self.0.push(MIN_SYMBOL);
            assert(self@ == label_succ(s));
        } else {
            assert(s[i - 1] < MAX_SYMBOL);
            let c = self.0[i - 1];
            self.0.set(i - 1, c + 1);
            let mut j: usize = i;
            while j < n
                invariant
                    i <= j <= n,
                    n == self.0.len(),
                    1 <= i,
                    i - 1 < s.len(),
                    s.len() == n,
                    c == s[i - 1],
                    c < MAX_SYMBOL,
                    label_wf(s),
                    self@ =~= s.subrange(0, i - 1).push((c + 1) as u8) + Seq::new(
                        (j - i) as nat,
                        |k: int| MIN_SYMBOL,
                    ) + s.subrange(j as int, n as int),
                decreases n - j,
            {
                self.0.set(j, MIN_SYMBOL);
                proof {
                    assert(self@ =~= s.subrange(0, i - 1).push((c + 1) as u8) + Seq::new(
                        (j + 1 - i) as nat,
                        |k: int| MIN_SYMBOL,
                    ) + s.subrange(j + 1, n as int));
                }
                j = j + 1;
            }
            proof {
                lemma_succ_shape(s, i - 1);
                assert(s.subrange(n as int, n as int) =~= Seq::<u8>::empty());
                assert(self@ =~= s.subrange(0, i - 1).push((c + 1) as u8) + Seq::new(
                    (n - i) as nat,
                    |k: int| MIN_SYMBOL,
                ));
                assert(self@ =~= label_succ(s));
            }
        }
    }
}

} // verus!
