use vstd::prelude::*;
use rand::distributions::{IndependentSample, Range};
use rand::Rng;

verus! {

/// A number drawn uniformly from `[0, sz)`, through
/// `rand::distributions::Range::new(0, sz).ind_sample(&mut rand::thread_rng())`.
/// `Range::new` panics unless `0 < sz`; the sample always lies in the range.
/// Which number comes back is left open: it is chance.
#[verifier::external_body]
pub fn get_random(sz: usize) -> (r: usize)
    requires
        sz > 0,
    ensures
        r < sz,
{
    let range = Range::new(0, sz);
    range.ind_sample(&mut rand::thread_rng())
}

/// `p` lists each of `0..n` exactly once.
pub open spec fn is_permutation(p: Seq<int>, n: int) -> bool {
    &&& p.len() == n
    &&& forall|i: int| 0 <= i < n ==> 0 <= #[trigger] p[i] < n
    &&& forall|i: int, j: int| 0 <= i < n && 0 <= j < n && i != j ==> p[i] != p[j]
}

/// `b` is `a` with the items of `[beg, end)` rearranged by the permutation
/// `p`: item `beg + i` of `b` is item `beg + p[i]` of `a`; all other items
/// stay in place.
pub open spec fn block_permuted<T>(a: Seq<T>, b: Seq<T>, beg: int, end: int, p: Seq<int>) -> bool {
    &&& b.len() == a.len()
    &&& is_permutation(p, end - beg)
    &&& forall|i: int| 0 <= i < a.len() && !(beg <= i < end) ==> #[trigger] b[i] == a[i]
    &&& forall|i: int| beg <= i < end ==> #[trigger] b[i] == a[beg + p[i - beg]]
}

/// `rand::Rng::shuffle` with the thread-local generator, applied to
/// `v[beg..end]`: the items of that range are permuted by swaps and every
/// other item stays where it was. Slicing panics unless
/// `beg <= end <= v.len()`. Which permutation comes out is left open.
#[verifier::external_body]
pub(crate) fn shuffle_range<T>(v: &mut Vec<T>, beg: usize, end: usize)
    requires
        beg <= end <= old(v)@.len(),
    ensures
        exists|p: Seq<int>|
            #[trigger] block_permuted(old(v)@, final(v)@, beg as int, end as int, p),
{
    rand::thread_rng().shuffle(&mut v[beg..end]);
}

} // verus!
