use vstd::prelude::*;

verus! {

/// The elements of `s` whose `mask` entry is true, in order.
pub open spec fn keep_where<T>(s: Seq<T>, mask: Seq<bool>) -> Seq<T>
    decreases s.len(),
{
    if s.len() == 0 {
        s
    } else {
        let rest = keep_where(s.drop_last(), mask);
        if mask[s.len() - 1] {
            rest.push(s.last())
        } else {
            rest
        }
    }
}

/// Every kept element comes from `s` at a marked position (so it satisfies
/// whatever the marked positions satisfy), and every marked element is kept.
pub proof fn lemma_keep_where<T>(s: Seq<T>, mask: Seq<bool>, pred: spec_fn(T) -> bool)
    requires
        mask.len() >= s.len(),
        forall|i: int| 0 <= i < s.len() && mask[i] ==> pred(#[trigger] s[i]),
    ensures
        keep_where(s, mask).len() <= s.len(),
        forall|k: int|
            0 <= k < keep_where(s, mask).len() ==> pred(#[trigger] keep_where(s, mask)[k])
                && s.contains(keep_where(s, mask)[k]),
        forall|i: int| 0 <= i < s.len() && mask[i] ==> keep_where(s, mask).contains(#[trigger] s[i]),
    decreases s.len(),
{
    if s.len() > 0 {
        let p = s.drop_last();
        assert forall|i: int| 0 <= i < p.len() && mask[i] implies pred(#[trigger] p[i]) by {
            assert(p[i] == s[i]);
        }
        lemma_keep_where(p, mask, pred);
        let r = keep_where(s, mask);
        let rp = keep_where(p, mask);
        assert forall|k: int| 0 <= k < r.len() implies pred(#[trigger] r[k]) && s.contains(r[k]) by {
            if k < rp.len() {
                assert(r[k] == rp[k]);
                assert(p.contains(rp[k]));
                let i = choose|i: int| 0 <= i < p.len() && p[i] == rp[k];
                assert(s[i] == p[i]);
            } else {
                assert(mask[s.len() - 1]);
                assert(s[s.len() - 1] == r[k]);
            }
        }
        assert forall|i: int| 0 <= i < s.len() && mask[i] implies r.contains(#[trigger] s[i]) by {
            if i < s.len() - 1 {
                assert(s[i] == p[i]);
                assert(rp.contains(p[i]));
                let k = choose|k: int| 0 <= k < rp.len() && rp[k] == p[i];
                assert(r[k] == rp[k]);
            } else {
                assert(r[r.len() - 1] == s[i]);
            }
        }
    }
}

/// Removing elements keeps a key that was distinct across `s` distinct.
pub proof fn lemma_keep_distinct<T, U>(s: Seq<T>, mask: Seq<bool>, key: spec_fn(T) -> U)
    requires
        mask.len() >= s.len(),
        forall|i: int, j: int| 0 <= i < j < s.len() ==> key(#[trigger] s[i]) != key(#[trigger] s[j]),
    ensures
        forall|i: int, j: int|
            0 <= i < j < keep_where(s, mask).len() ==> key(#[trigger] keep_where(s, mask)[i]) != key(
                #[trigger] keep_where(s, mask)[j],
            ),
    decreases s.len(),
{
    if s.len() > 0 {
        let p = s.drop_last();
        lemma_keep_distinct(p, mask, key);
        lemma_keep_where(p, mask, |x: T| true);
        let r = keep_where(s, mask);
        let rp = keep_where(p, mask);
        assert forall|i: int, j: int| 0 <= i < j < r.len() implies key(#[trigger] r[i]) != key(
            #[trigger] r[j],
        ) by {
            assert(r[i] == rp[i]);
            if j < rp.len() {
                assert(r[j] == rp[j]);
            } else {
                assert(p.contains(rp[i]));
                let m = choose|m: int| 0 <= m < p.len() && p[m] == rp[i];
                assert(s[m] == p[m]);
                assert(r[j] == s[s.len() - 1]);
            }
        }
    }
}

/// With every position marked, nothing is removed.
pub proof fn lemma_keep_all<T>(s: Seq<T>, mask: Seq<bool>)
    requires
        mask.len() >= s.len(),
        forall|i: int| 0 <= i < s.len() ==> mask[i],
    ensures
        keep_where(s, mask) == s,
    decreases s.len(),
{
    if s.len() > 0 {
        lemma_keep_all(s.drop_last(), mask);
        assert(s.drop_last().push(s.last()) =~= s);
    }
}

/// Removes, in place and keeping order, the elements whose `mask` entry is false.
pub fn retain_marked<T>(v: &mut Vec<T>, mask: &Vec<bool>)
    requires
        mask.len() == old(v).len(),
    ensures
        final(v)@ == keep_where(old(v)@, mask@),
{
    let ghost s = v@;
    let n = mask.len();
    let mut i: usize = 0;
    let mut j: usize = 0;
    while i < n
        invariant
            n == mask.len() == s.len(),
            i <= n,
            j <= i,
            j == keep_where(s.subrange(0, i as int), mask@).len(),
            v@ == keep_where(s.subrange(0, i as int), mask@) + s.subrange(i as int, n as int),
        decreases n - i,
    {
        proof {
            assert(s.subrange(0, i + 1).drop_last() =~= s.subrange(0, i as int));
            assert(s.subrange(0, i + 1).last() == s[i as int]);
        }
        proof {
            lemma_keep_where(s.subrange(0, i + 1), mask@, |x: T| true);
        }
        if mask[i] {
            proof {
                assert(v@[j as int] == s[i as int]);
                assert(v@ =~= keep_where(s.subrange(0, i + 1), mask@) + s.subrange(i + 1, n as int));
            }
            j = j + 1;
        } else {
            v.remove(j);
            proof {
                assert(v@ =~= keep_where(s.subrange(0, i + 1), mask@) + s.subrange(i + 1, n as int));
            }
        }
        i = i + 1;
    }
    proof {
        assert(s.subrange(0, n as int) =~= s);
        assert(v@ =~= keep_where(s, mask@));
    }
}

} // verus!
