//! A suffix array over the widened concatenation source ∥ sentinel ∥ target,
//! with its inverse permutation and an adjacent-suffix common-prefix table.
//!
//! The delta builder uses these only to locate candidate matches quickly;
//! every candidate it takes is re-checked byte by byte, so the tables carry
//! bounds contracts only.

use vstd::prelude::*;
use vstd::pervasive::VecAdditionalExecFns;

verus! {

/// The concatenation source ∥ 256 ∥ target over 9-bit symbols: the sentinel
/// cannot occur in either buffer, so no suffix is a prefix of another.
pub(crate) fn build_symbols(s: &[u8], t: &[u8]) -> (r: Vec<u16>)
    requires
        s@.len() + t@.len() + 1 <= usize::MAX,
    ensures
        r@.len() == s@.len() + 1 + t@.len(),
{
    let mut c: Vec<u16> = Vec::new();
    let mut k: usize = 0;
    while k < s.len()
        invariant
            k <= s@.len(),
            c@.len() == k,
        decreases s@.len() - k,
    {
        c.push(s[k] as u16);
        k = k + 1;
    }
    c.push(256);
    let mut j: usize = 0;
    while j < t.len()
        invariant
            j <= t@.len(),
            c@.len() == s@.len() + 1 + j,
        decreases t@.len() - j,
    {
        c.push(t[j] as u16);
        j = j + 1;
    }
    c
}

/// Lexicographic order of the suffixes of `c` starting at `i` and `j`.
fn suffix_less(c: &[u16], i: usize, j: usize) -> (r: bool)
    requires
        i <= c@.len(),
        j <= c@.len(),
{
    let n: usize = c.len();
    let mut a: usize = i;
    let mut b: usize = j;
    while a < n && b < n
        invariant
            i <= a <= n,
            j <= b <= n,
            n == c@.len(),
            a - i == b - j,
        decreases n - a,
    {
        let x: u16 = c[a];
        let y: u16 = c[b];
        if x != y {
            return x < y;
        }
        a = a + 1;
        b = b + 1;
    }
    a == n && b < n
}

/// Merge two sorted runs of suffix indices.
fn merge_runs(c: &[u16], a: &Vec<usize>, lo: usize, mid: usize, hi: usize, out: &mut Vec<usize>)
    requires
        lo <= mid <= hi <= a@.len(),
        forall|k: int| 0 <= k < a@.len() ==> #[trigger] a@[k] < c@.len(),
    ensures
        final(out)@.len() == old(out)@.len() + (hi - lo),
        final(out)@.subrange(0, old(out)@.len() as int) == old(out)@,
        forall|k: int|
            old(out)@.len() <= k < final(out)@.len() ==> #[trigger] final(out)@[k] < c@.len(),
{
    let mut x: usize = lo;
    let mut y: usize = mid;
    while x < mid || y < hi
        invariant
            lo <= x <= mid,
            mid <= y <= hi,
            hi <= a@.len(),
            forall|k: int| 0 <= k < a@.len() ==> #[trigger] a@[k] < c@.len(),
            out@.len() == old(out)@.len() + (x - lo) + (y - mid),
            out@.subrange(0, old(out)@.len() as int) =~= old(out)@,
            forall|k: int|
                old(out)@.len() <= k < out@.len() ==> #[trigger] out@[k] < c@.len(),
        decreases (mid - x) + (hi - y),
    {
        if x < mid && (y >= hi || !suffix_less(c, a[y], a[x])) {
            out.push(a[x]);
            x = x + 1;
        } else {
            out.push(a[y]);
            y = y + 1;
        }
        proof {
            assert(out@.subrange(0, old(out)@.len() as int) =~= old(out)@);
        }
    }
}

/// The suffix indices of `c`, sorted lexicographically (bottom-up merge
/// sort). Only the bounds are relied on: every entry indexes `c`.
pub(crate) fn suffix_array(c: &[u16]) -> (r: Vec<usize>)
    requires
        c@.len() <= usize::MAX / 4,
    ensures
        r@.len() == c@.len(),
        forall|k: int| 0 <= k < r@.len() ==> #[trigger] r@[k] < c@.len(),
{
    let n: usize = c.len();
    let mut a: Vec<usize> = Vec::new();
    let mut k: usize = 0;
    while k < n
        invariant
            k <= n,
            a@.len() == k,
            forall|j: int| 0 <= j < k ==> #[trigger] a@[j] < n,
            n == c@.len(),
        decreases n - k,
    {
        a.push(k);
        k = k + 1;
    }
    let mut width: usize = 1;
    while width < n
        invariant
            a@.len() == n,
            n == c@.len(),
            n <= usize::MAX / 4,
            1 <= width,
            forall|j: int| 0 <= j < n ==> #[trigger] a@[j] < n,
        decreases n - width,
    {
        let mut b: Vec<usize> = Vec::new();
        let mut lo: usize = 0;
        while lo < n
            invariant
                a@.len() == n,
                n == c@.len(),
                n <= usize::MAX / 4,
                1 <= width <= n,
                lo <= n + 2 * width,
                b@.len() == (if lo <= n {
                    lo as int
                } else {
                    n as int
                }),
                forall|j: int| 0 <= j < n ==> #[trigger] a@[j] < n,
                forall|j: int| 0 <= j < b@.len() ==> #[trigger] b@[j] < n,
            decreases n + 2 * width - lo,
        {
            let mid: usize = if n - lo < width {
                n
            } else {
                lo + width
            };
            let hi: usize = if n - mid < width {
                n
            } else {
                mid + width
            };
            let ghost bl = b@.len() as int;
            let ghost b_prev = b@;
            merge_runs(c, &a, lo, mid, hi, &mut b);
            proof {
                assert forall|j: int| 0 <= j < b@.len() implies #[trigger] b@[j] < n by {
                    if j < bl {
                        assert(b@.subrange(0, bl)[j] == b@[j]);
                        assert(b_prev[j] < n);
                    }
                }
            }
            lo = lo + 2 * width;
        }
        a = b;
        if width > n - width {
            width = n;
        } else {
            width = width + width;
        }
    }
    a
}

/// The inverse table: `rank[p]` is the position of suffix `p` in the suffix
/// array.
pub(crate) fn rank_of(sa: &Vec<usize>, n: usize) -> (r: Vec<usize>)
    requires
        sa@.len() == n,
        forall|k: int| 0 <= k < n ==> #[trigger] sa@[k] < n,
    ensures
        r@.len() == n,
        forall|k: int| 0 <= k < n ==> #[trigger] r@[k] < n,
{
    let mut rank: Vec<usize> = Vec::new();
    let mut k: usize = 0;
    while k < n
        invariant
            k <= n,
            rank@.len() == k,
            forall|j: int| 0 <= j < k ==> #[trigger] rank@[j] == 0,
        decreases n - k,
    {
        rank.push(0);
        k = k + 1;
    }
    let mut i: usize = 0;
    while i < n
        invariant
            i <= n,
            rank@.len() == n,
            sa@.len() == n,
            forall|k2: int| 0 <= k2 < n ==> #[trigger] sa@[k2] < n,
            forall|j: int| 0 <= j < n ==> #[trigger] rank@[j] == 0 || rank@[j] < n,
        decreases n - i,
    {
        let p: usize = sa[i];
        rank.set(p, i);
        i = i + 1;
    }
    proof {
        if n > 0 {
            assert forall|j: int| 0 <= j < n implies #[trigger] rank@[j] < n by {
                assert(rank@[j] == 0 || rank@[j] < n);
            }
        }
    }
    rank
}

/// The length of the common prefix of the suffixes at `i` and `j`, capped.
fn common_len(c: &[u16], i: usize, j: usize, cap: usize) -> (r: usize)
    requires
        i <= c@.len(),
        j <= c@.len(),
        cap <= c@.len(),
        c@.len() <= usize::MAX / 4,
    ensures
        r <= cap,
{
    let n: usize = c.len();
    let mut k: usize = 0;
    while k < cap && i + k < n && j + k < n
        invariant
            k <= cap,
            cap <= n,
            i <= n,
            j <= n,
            n == c@.len(),
            n <= usize::MAX / 4,
        decreases cap - k,
    {
        if c[i + k] != c[j + k] {
            return k;
        }
        k = k + 1;
    }
    k
}

/// Common-prefix lengths of adjacent suffix-array entries; entry zero is
/// zero. Used only to bound the candidate scan.
pub(crate) fn lcp_table(c: &[u16], sa: &Vec<usize>) -> (r: Vec<usize>)
    requires
        sa@.len() == c@.len(),
        c@.len() <= usize::MAX / 4,
        forall|k: int| 0 <= k < sa@.len() ==> #[trigger] sa@[k] < c@.len(),
    ensures
        r@.len() == c@.len(),
{
    let n: usize = c.len();
    if n == 0 {
        let empty: Vec<usize> = Vec::new();
        return empty;
    }
    let mut lcp: Vec<usize> = Vec::new();
    lcp.push(0);
    let mut k: usize = 1;
    while k < n
        invariant
            1 <= k <= n,
            lcp@.len() == k,
            n == c@.len(),
            n <= usize::MAX / 4,
            sa@.len() == n,
            forall|j: int| 0 <= j < n ==> #[trigger] sa@[j] < n,
        decreases n - k,
    {
        let v: usize = common_len(c, sa[k - 1], sa[k], n);
        lcp.push(v);
        k = k + 1;
    }
    lcp
}

} // verus!
