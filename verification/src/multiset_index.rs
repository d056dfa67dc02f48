//! Enumeration of nondecreasing index sequences: all ways to choose an
//! unordered multiset of `n` items out of `t + 1` candidate "types", each
//! multiset produced exactly once, as the nondecreasing sequence of the chosen
//! type indices. Both the children of a tree node and the neighbors of a star
//! are semantically unordered, so the generators pick them through this module
//! to avoid emitting the same structure once per permutation.

use vstd::prelude::*;

verus! {

/// All nondecreasing sequences of length `len` over `lo..=t`, ordered first by
/// their leading index: sequences starting with `lo` (ordered by their tails),
/// then sequences starting above `lo`.
pub open spec fn spec_nds(lo: usize, t: usize, len: nat) -> Seq<Seq<usize>>
    decreases len, t - lo + 1,
{
    if len == 0 {
        seq![Seq::empty()]
    } else if lo > t {
        Seq::empty()
    } else if lo == t {
        spec_nds(lo, t, (len - 1) as nat).map_values(|s: Seq<usize>| seq![lo] + s)
    } else {
        spec_nds(lo, t, (len - 1) as nat).map_values(|s: Seq<usize>| seq![lo] + s) + spec_nds(
            (lo + 1) as usize,
            t,
            len,
        )
    }
}

/// Binomial coefficient `n` choose `k`, by Pascal's rule.
pub open spec fn binom(n: nat, k: nat) -> nat
    decreases n,
{
    if k == 0 {
        1
    } else if n == 0 {
        0
    } else {
        binom((n - 1) as nat, (k - 1) as nat) + binom((n - 1) as nat, k)
    }
}

/// Choosing more than there is to choose from is impossible.
pub proof fn lemma_binom_above(n: nat, k: nat)
    requires
        k > n,
    ensures
        binom(n, k) == 0,
    decreases n,
{
    if n > 0 {
        lemma_binom_above((n - 1) as nat, (k - 1) as nat);
        lemma_binom_above((n - 1) as nat, k);
    }
}

/// Counting law of the multiset enumerator: choosing an unordered multiset of
/// `len` indices out of the `t - lo + 1` types `lo..=t` has, by stars and
/// bars, exactly `C((t - lo) + len, len)` outcomes.
pub proof fn lemma_nds_count(lo: usize, t: usize, len: nat)
    requires
        lo <= t,
    ensures
        spec_nds(lo, t, len).len() == binom((t - lo + len) as nat, len),
    decreases len, t - lo + 1,
{
    if len == 0 {
        assert(binom((t - lo) as nat, 0) == 1);
    } else {
        lemma_nds_count(lo, t, (len - 1) as nat);
        if lo < t {
            lemma_nds_count((lo + 1) as usize, t, len);
        } else {
            lemma_binom_above((len - 1) as nat, len);
        }
    }
}

/// Soundness of the enumerator: every produced sequence has length `len`, is
/// nondecreasing, and stays within `lo..=t`.
pub proof fn lemma_nds_sound(lo: usize, t: usize, len: nat, j: int)
    requires
        0 <= j < spec_nds(lo, t, len).len(),
    ensures
        spec_nds(lo, t, len)[j].len() == len,
        forall|a: int, b: int|
            0 <= a <= b < len ==> lo <= #[trigger] spec_nds(lo, t, len)[j][a]
                <= #[trigger] spec_nds(lo, t, len)[j][b] <= t,
    decreases len, t - lo + 1,
{
    if len == 0 {
    } else if lo > t {
    } else {
        let mapped = spec_nds(lo, t, (len - 1) as nat).map_values(|s: Seq<usize>| seq![lo] + s);
        if j < mapped.len() || lo == t {
            lemma_nds_sound(lo, t, (len - 1) as nat, j);
            let s = spec_nds(lo, t, (len - 1) as nat)[j];
            assert(spec_nds(lo, t, len)[j] == seq![lo] + s);
        } else {
            lemma_nds_sound((lo + 1) as usize, t, len, j - mapped.len());
            assert(spec_nds(lo, t, len)[j] == spec_nds((lo + 1) as usize, t, len)[j
                - mapped.len()]);
        }
    }
}

/// Completeness of the enumerator: every nondecreasing sequence of length
/// `len` over `lo..=t` is produced.
pub proof fn lemma_nds_complete(lo: usize, t: usize, len: nat, s: Seq<usize>)
    requires
        s.len() == len,
        forall|a: int, b: int| 0 <= a <= b < len ==> #[trigger] s[a] <= #[trigger] s[b],
        forall|a: int| 0 <= a < len ==> lo <= #[trigger] s[a] <= t,
    ensures
        spec_nds(lo, t, len).contains(s),
    decreases len, t - lo + 1,
{
    if len == 0 {
        assert(s =~= Seq::<usize>::empty());
        assert(spec_nds(lo, t, len)[0] == s);
    } else {
        let mapped = spec_nds(lo, t, (len - 1) as nat).map_values(|s: Seq<usize>| seq![lo] + s);
        if s[0] == lo {
            let tail = s.skip(1);
            assert(forall|a: int, b: int|
                0 <= a <= b < tail.len() ==> #[trigger] tail[a] <= #[trigger] tail[b]) by {
                assert(forall|a: int| 0 <= a < tail.len() ==> tail[a] == s[a + 1]);
            }
            lemma_nds_complete(lo, t, (len - 1) as nat, tail);
            let k = choose|k: int|
                0 <= k < spec_nds(lo, t, (len - 1) as nat).len() && #[trigger] spec_nds(
                    lo,
                    t,
                    (len - 1) as nat,
                )[k] == tail;
            assert(mapped[k] == seq![lo] + tail);
            assert(seq![lo] + tail =~= s);
            assert(spec_nds(lo, t, len)[k] == s);
        } else {
            assert(lo < s[0] <= t);
            lemma_nds_complete((lo + 1) as usize, t, len, s);
            let k = choose|k: int|
                0 <= k < spec_nds((lo + 1) as usize, t, len).len() && #[trigger] spec_nds(
                    (lo + 1) as usize,
                    t,
                    len,
                )[k] == s;
            assert(spec_nds(lo, t, len)[mapped.len() + k] == s);
        }
    }
}

/// Uniqueness of the enumerator: no sequence is produced twice, so each
/// multiset of indices appears under exactly one ordering.
pub proof fn lemma_nds_distinct(lo: usize, t: usize, len: nat, p: int, q: int)
    requires
        0 <= p < q < spec_nds(lo, t, len).len(),
    ensures
        spec_nds(lo, t, len)[p] != spec_nds(lo, t, len)[q],
    decreases len, t - lo + 1,
{
    let whole = spec_nds(lo, t, len);
    if len == 0 || lo > t {
        // At most one sequence: no two distinct indices exist.
    } else {
        let tails = spec_nds(lo, t, (len - 1) as nat);
        let mapped = tails.map_values(|s: Seq<usize>| seq![lo] + s);
        if q < mapped.len() {
            lemma_nds_distinct(lo, t, (len - 1) as nat, p, q);
            if whole[p] == whole[q] {
                assert(whole[p] == seq![lo] + tails[p]);
                assert(whole[q] == seq![lo] + tails[q]);
                assert((seq![lo] + tails[p]).len() == (seq![lo] + tails[q]).len());
                assert(tails[p] =~= tails[q]) by {
                    assert(forall|i: int|
                        0 <= i < tails[p].len() ==> (seq![lo] + tails[p])[i + 1] == tails[p][i]);
                    assert(forall|i: int|
                        0 <= i < tails[q].len() ==> (seq![lo] + tails[q])[i + 1] == tails[q][i]);
                }
            }
        } else if p < mapped.len() {
            let rest = spec_nds((lo + 1) as usize, t, len);
            lemma_nds_sound((lo + 1) as usize, t, len, q - mapped.len());
            assert(whole[q] == rest[q - mapped.len()]);
            assert(whole[q].len() == len && whole[q][0] >= lo + 1);
            assert(whole[p] == seq![lo] + tails[p]);
            assert(whole[p][0] == lo);
        } else {
            lemma_nds_distinct((lo + 1) as usize, t, len, p - mapped.len(), q - mapped.len());
            assert(whole[p] == spec_nds((lo + 1) as usize, t, len)[p - mapped.len()]);
            assert(whole[q] == spec_nds((lo + 1) as usize, t, len)[q - mapped.len()]);
        }
    }
}

/// Recursive worker for [`nondecreasing_sequences`]: all nondecreasing
/// sequences of length `n` over `lo..=t`.
fn nondecreasing_sequences_from(lo: usize, t: usize, n: usize) -> (r: Vec<Vec<usize>>)
    ensures
        r@.len() == spec_nds(lo, t, n as nat).len(),
        forall|j: int| 0 <= j < r@.len() ==> r@[j]@ == spec_nds(lo, t, n as nat)[j],
    decreases n, t - lo + 1,
{
    let mut r: Vec<Vec<usize>> = Vec::new();
    if n == 0 {
        r.push(Vec::new());
        assert(r@[0]@ =~= spec_nds(lo, t, 0)[0]);
        return r;
    }
    if lo > t {
        return r;
    }
    let ghost mapped = spec_nds(lo, t, (n - 1) as nat).map_values(|s: Seq<usize>| seq![lo] + s);
    proof {
        assert(mapped.len() == spec_nds(lo, t, (n - 1) as nat).len());
    }
    let tails = nondecreasing_sequences_from(lo, t, n - 1);
    let mut i: usize = 0;
    while i < tails.len()
        invariant
            i <= tails.len(),
            tails@.len() == spec_nds(lo, t, (n - 1) as nat).len(),
            forall|j: int| 0 <= j < tails@.len() ==> tails@[j]@ == spec_nds(lo, t, (n - 1) as nat)[j],
            mapped == spec_nds(lo, t, (n - 1) as nat).map_values(|s: Seq<usize>| seq![lo] + s),
            r@.len() == i,
            forall|j: int| 0 <= j < i ==> r@[j]@ == mapped[j],
        decreases tails.len() - i,
    {
        let tail = &tails[i];
        let mut v: Vec<usize> = Vec::new();
        v.push(lo);
        let mut j: usize = 0;
        while j < tail.len()
            invariant
                j <= tail.len(),
                v@ == seq![lo] + tail@.take(j as int),
            decreases tail.len() - j,
        {
            v.push(tail[j]);
            assert(v@ =~= seq![lo] + tail@.take(j as int + 1));
            j += 1;
        }
        assert(tail@.take(tail@.len() as int) =~= tail@);
        assert(v@ == seq![lo] + tail@);
        assert(mapped[i as int] == seq![lo] + spec_nds(lo, t, (n - 1) as nat)[i as int]);
        assert(v@ == mapped[i as int]);
        r.push(v);
        i += 1;
    }
    if lo < t {
        let mut rest = nondecreasing_sequences_from(lo + 1, t, n);
        let ghost r_before = r@;
        r.append(&mut rest);
        assert(forall|j: int|
            0 <= j < r@.len() ==> r@[j]@ == spec_nds(lo, t, n as nat)[j]) by {
            assert(forall|j: int| 0 <= j < r_before.len() ==> r@[j] == r_before[j]);
        }
    }
    r
}

/// Produces every nondecreasing sequence of length `n` over the index range
/// `0..=t`, each exactly once, in the canonical enumeration order of
/// [`spec_nds`]. For `n == 0` this is a single empty sequence, whatever `t`.
pub fn nondecreasing_sequences(t: usize, n: usize) -> (r: Vec<Vec<usize>>)
    ensures
        r@.len() == spec_nds(0, t, n as nat).len(),
        forall|j: int| 0 <= j < r@.len() ==> r@[j]@ == spec_nds(0, t, n as nat)[j],
{
    nondecreasing_sequences_from(0, t, n)
}

} // verus!
