//! Backslash-separated paths as sequences of UTF-16 code units.
//!
//! The inventory keys its entries by absolute paths like `C:\Users\notes`,
//! kept as the code units NTFS names are made of. An ancestor of a path is
//! any prefix that ends just before a separator.

use vstd::prelude::*;

verus! {

/// The path separator, `'\'`.
pub const SEP: u16 = 0x5C;

/// A path this module reasons about: nonempty, and without leading,
/// trailing or doubled separators.
pub open spec fn path_wf(p: Seq<u16>) -> bool {
    &&& p.len() > 0
    &&& p[0] != SEP
    &&& p[p.len() - 1] != SEP
    &&& forall|i: int| 0 < i < p.len() ==> !(#[trigger] p[i] == SEP && p[i - 1] == SEP)
}

/// `a` is a strict ancestor of `p`: `p` starts with `a` followed by a
/// separator.
pub open spec fn strict_ancestor(a: Seq<u16>, p: Seq<u16>) -> bool {
    &&& a.len() < p.len()
    &&& p.take(a.len() as int) == a
    &&& p[a.len() as int] == SEP
}

/// Index of the last separator of `p`, or `-1` when it has none.
pub open spec fn last_sep(p: Seq<u16>) -> int
    decreases p.len(),
{
    if p.len() == 0 {
        -1
    } else if p[p.len() - 1] == SEP {
        p.len() - 1
    } else {
        last_sep(p.drop_last())
    }
}

pub proof fn lemma_last_sep_bounds(p: Seq<u16>)
    ensures
        -1 <= last_sep(p) < p.len(),
        last_sep(p) >= 0 ==> p[last_sep(p)] == SEP,
        forall|i: int| last_sep(p) < i < p.len() ==> #[trigger] p[i] != SEP,
    decreases p.len(),
{
    if p.len() > 0 && p[p.len() - 1] != SEP {
        lemma_last_sep_bounds(p.drop_last());
        assert forall|i: int| last_sep(p) < i < p.len() implies #[trigger] p[i] != SEP by {
            if i < p.len() - 1 {
                assert(p.drop_last()[i] != SEP);
                assert(p.drop_last()[i] == p[i]);
            }
        }
    }
}

/// Finds the last separator of `p`.
pub fn find_last_sep(p: &Vec<u16>) -> (r: Option<usize>)
    ensures
        r matches Some(i) ==> i == last_sep(p@) && i < p@.len(),
        r is None ==> last_sep(p@) == -1,
{
    proof {
        lemma_last_sep_bounds(p@);
    }
    let mut k: usize = p.len();
    while k > 0
        invariant
            k <= p.len(),
            forall|i: int| k <= i < p@.len() ==> #[trigger] p@[i] != SEP,
            -1 <= last_sep(p@) < p@.len(),
            last_sep(p@) >= 0 ==> p@[last_sep(p@)] == SEP,
            forall|i: int| last_sep(p@) < i < p@.len() ==> #[trigger] p@[i] != SEP,
        decreases k,
    {
        k = k - 1;
        if p[k] == SEP {
            proof {
                if last_sep(p@) < k {
                    assert(p@[k as int] != SEP);
                }
                if last_sep(p@) > k {
                    assert(p@[last_sep(p@)] != SEP);
                }
            }
            return Some(k);
        }
    }
    proof {
        if last_sep(p@) >= 0 {
            assert(p@[last_sep(p@)] != SEP);
        }
    }
    None
}

/// Appends `src` to `dst`.
pub fn push_all(dst: &mut Vec<u16>, src: &Vec<u16>)
    ensures
        final(dst)@ == old(dst)@ + src@,
{
    let mut i: usize = 0;
    proof {
        assert(dst@ =~= dst@ + src@.take(0));
    }
    while i < src.len()
        invariant
            i <= src.len(),
            dst@ == old(dst)@ + src@.take(i as int),
        decreases src.len() - i,
    {
        dst.push(src[i]);
        proof {
            assert(old(dst)@ + src@.take(i as int) + seq![src@[i as int]] =~= old(dst)@ + src@.take(
                i + 1,
            ));
        }
        i = i + 1;
    }
    proof {
        assert(src@.take(src@.len() as int) =~= src@);
    }
}

/// The prefix of `p` before index `c`.
pub fn take_prefix(p: &Vec<u16>, c: usize) -> (r: Vec<u16>)
    requires
        c <= p.len(),
    ensures
        r@ == p@.take(c as int),
{
    let mut r: Vec<u16> = Vec::new();
    let mut i: usize = 0;
    while i < c
        invariant
            i <= c,
            c <= p.len(),
            r@ == p@.take(i as int),
        decreases c - i,
    {
        r.push(p[i]);
        proof {
            assert(r@ =~= p@.take(i + 1));
        }
        i = i + 1;
    }
    r
}

/// The suffix of `p` from index `c`.
pub fn skip_prefix(p: &Vec<u16>, c: usize) -> (r: Vec<u16>)
    requires
        c <= p.len(),
    ensures
        r@ == p@.skip(c as int),
{
    let mut r: Vec<u16> = Vec::new();
    let mut i: usize = c;
    proof {
        assert(r@ =~= p@.subrange(c as int, c as int));
    }
    while i < p.len()
        invariant
            c <= i <= p.len(),
            r@ == p@.subrange(c as int, i as int),
        decreases p.len() - i,
    {
        r.push(p[i]);
        proof {
            assert(r@ =~= p@.subrange(c as int, i + 1));
        }
        i = i + 1;
    }
    proof {
        assert(p@.subrange(c as int, p@.len() as int) =~= p@.skip(c as int));
    }
    r
}

/// Equality of two code-unit vectors.
pub fn units_eq(a: &Vec<u16>, b: &Vec<u16>) -> (r: bool)
    ensures
        r == (a@ == b@),
{
    if a.len() != b.len() {
        proof {
            assert(a@ != b@);
        }
        return false;
    }
    let mut i: usize = 0;
    while i < a.len()
        invariant
            i <= a.len(),
            a@.len() == b@.len(),
            forall|k: int| 0 <= k < i ==> a@[k] == b@[k],
        decreases a.len() - i,
    {
        if a[i] != b[i] {
            proof {
                assert(a@[i as int] != b@[i as int]);
            }
            return false;
        }
        i = i + 1;
    }
    proof {
        assert(a@ =~= b@);
    }
    true
}


/// The end of the component that starts after position `k`: the next
/// separator strictly beyond `k`, or the end of the path.
pub open spec fn next_cut(p: Seq<u16>, k: int) -> int
    decreases p.len() - k,
{
    if k + 1 >= p.len() {
        p.len() as int
    } else if p[k + 1] == SEP {
        k + 1
    } else {
        next_cut(p, k + 1)
    }
}

/// `next_cut` is the separator-free span's right end.
pub proof fn lemma_next_cut_char(p: Seq<u16>, k: int, m: int)
    requires
        k < m <= p.len(),
        forall|j: int| k < j < m ==> (#[trigger] p[j]) != SEP,
        m == p.len() || p[m] == SEP,
    ensures
        next_cut(p, k) == m,
    decreases m - k,
{
    if k + 1 < m {
        assert(p[k + 1] != SEP);
        lemma_next_cut_char(p, k + 1, m);
    }
}

} // verus!
