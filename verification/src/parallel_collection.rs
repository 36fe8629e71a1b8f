use vstd::arithmetic::div_mod::*;
use vstd::arithmetic::mul::*;
use vstd::prelude::*;

use crate::context::{Context, Dependency, RddVals};
use crate::data::Data;
use crate::error::RddError;
use crate::rdd::{all_records, BasicSplit, Rdd, Split};

verus! {

/// The lower cut point of slice `s` when `len` records go into `n`
/// contiguous slices: slice `s` covers input indices
/// `[slice_lo(len, n, s), slice_lo(len, n, s + 1))`.
pub open spec fn slice_lo(len: int, n: int, s: int) -> int {
    s * len / n
}

/// The cut points start at 0, end at `len`, and never move backwards.
pub proof fn lemma_slice_lo_bounds(len: int, n: int, s: int)
    requires
        0 <= len,
        1 <= n,
        0 <= s <= n,
    ensures
        0 <= slice_lo(len, n, s) <= len,
        s < n ==> slice_lo(len, n, s) <= slice_lo(len, n, s + 1),
        s == 0 ==> slice_lo(len, n, s) == 0,
        s == n ==> slice_lo(len, n, s) == len,
{
    lemma_mul_nonnegative(s, len);
    lemma_div_pos_is_pos(s * len, n);
    lemma_mul_inequality(s, n, len);
    lemma_div_is_ordered(s * len, n * len, n);
    lemma_div_multiples_vanish(len, n);
    assert(n * len == len * n);
    if s < n {
        lemma_mul_inequality(s, s + 1, len);
        lemma_div_is_ordered(s * len, (s + 1) * len, n);
    }
}

/// A floor-division step bound: dividing a sum loses at most one unit
/// against dividing the addends.
proof fn lemma_div_of_sum_bounds(a: int, b: int, n: int)
    requires
        0 <= a,
        0 <= b,
        1 <= n,
    ensures
        a / n + b / n <= (a + b) / n <= a / n + b / n + 1,
{
    lemma_fundamental_div_mod(a, n);
    lemma_fundamental_div_mod(b, n);
    lemma_mod_bound(a, n);
    lemma_mod_bound(b, n);
    let qa = a / n;
    let ra = a % n;
    let qb = b / n;
    let rb = b % n;
    if ra + rb < n {
        assert(a + b == n * (qa + qb) + (ra + rb)) by {
            lemma_mul_is_distributive_add(n, qa, qb);
        }
        lemma_div_multiples_vanish_fancy(qa + qb, ra + rb, n);
    } else {
        assert(a + b == n * (qa + qb + 1) + (ra + rb - n)) by {
            lemma_mul_is_distributive_add(n, qa, qb);
            lemma_mul_is_distributive_add(n, qa + qb, 1);
        }
        lemma_div_multiples_vanish_fancy(qa + qb + 1, ra + rb - n, n);
    }
}

/// How many records slice `s` holds.
pub open spec fn slice_size(len: int, n: int, s: int) -> int {
    slice_lo(len, n, s + 1) - slice_lo(len, n, s)
}

/// Every slice holds either `len / n` or `len / n + 1` records, so any two
/// slice sizes differ by at most one.
pub proof fn lemma_slice_sizes_balanced(len: int, n: int, s: int)
    requires
        0 <= len,
        1 <= n,
        0 <= s < n,
    ensures
        len / n <= slice_size(len, n, s) <= len / n + 1,
{
    assert((s + 1) * len == s * len + len) by {
        lemma_mul_is_distributive_add_other_way(len, s, 1);
        lemma_mul_basics(len);
    }
    lemma_mul_nonnegative(s, len);
    lemma_div_of_sum_bounds(s * len, len, n);
}

/// One shard of a parallel collection: the identity of the partition
/// together with its owned slice of the input data.
pub struct ParallelCollectionSplit<T: Data> {
    pub rdd_id: usize,
    pub index: usize,
    pub values: Vec<T>,
}

impl<T: Data> Split for ParallelCollectionSplit<T> {
    open spec fn index_spec(&self) -> int {
        self.index as int
    }

    fn get_index(&self) -> usize {
        self.index
    }
}

impl<T: Data> ParallelCollectionSplit<T> {
    pub fn new(rdd_id: usize, index: usize, values: Vec<T>) -> (r: Self)
        ensures
            r.rdd_id == rdd_id,
            r.index == index,
            r.values == values,
    {
        ParallelCollectionSplit { rdd_id, index, values }
    }

    /// The slice's records, in insertion order.
    pub fn iterator(&self) -> (r: Vec<T>)
        ensures
            r.deep_view() == self.values.deep_view(),
    {
        self.values.dup()
    }
}

/// The owned state of a parallel collection: the common RDD fields and the
/// input data already cut into `num_slices` contiguous slices.
pub struct ParallelCollectionVals<T: Data> {
    pub vals: RddVals,
    pub splits_: Vec<Vec<T>>,
    pub num_slices: usize,
}

/// The source RDD: a driver-side collection cut into `num_slices`
/// contiguous slices, one per partition, by the rule that slice `s` covers
/// input indices `[s * len / n, (s + 1) * len / n)`.
pub struct ParallelCollection<T: Data> {
    pub rdd_vals: ParallelCollectionVals<T>,
}

impl<T: Data> ParallelCollection<T> {
    /// Cuts `data` into `num_slices` contiguous slices by the slicing rule;
    /// fails with `BadSliceCount` when `num_slices` is zero.
    pub fn slice(data: Vec<T>, num_slices: usize) -> (r: Result<Vec<Vec<T>>, RddError>)
        ensures
            match r {
                Ok(slices) => {
                    &&& num_slices >= 1
                    &&& slices@.len() == num_slices
                    &&& forall|s: int|
                        0 <= s < num_slices ==> (#[trigger] slices.deep_view()[s])
                            == data.deep_view().subrange(
                            slice_lo(data.deep_view().len() as int, num_slices as int, s),
                            slice_lo(data.deep_view().len() as int, num_slices as int, s + 1),
                        )
                },
                Err(e) => e == RddError::BadSliceCount && num_slices == 0,
            },
    {
        if num_slices < 1 {
            return Err(RddError::BadSliceCount);
        }
        let n = num_slices;
        let len = data.len();
        let ghost l = data.deep_view().len() as int;
        let mut out: Vec<Vec<T>> = Vec::new();
        let mut s: usize = 0;
        while s < n
            invariant
                1 <= n,
                len == data@.len(),
                l == len as int,
                s <= n,
                out@.len() == s,
                forall|t: int|
                    0 <= t < s ==> (#[trigger] out.deep_view()[t]) == data.deep_view().subrange(
                        slice_lo(l, n as int, t),
                        slice_lo(l, n as int, t + 1),
                    ),
            decreases n - s,
        {
            proof {
                lemma_slice_lo_bounds(l, n as int, s as int);
                lemma_slice_lo_bounds(l, n as int, s + 1 as int);
                lemma_mul_nonnegative(s as int, l);
                lemma_mul_nonnegative(s + 1 as int, l);
                assert((s as u128 * len as u128) as int == (s as int) * l) by (nonlinear_arith)
                    requires
                        s as int >= 0,
                        len as int >= 0,
                        l == len as int,
                        s as int <= u64::MAX,
                        len as int <= u64::MAX,
                ;
                assert(((s + 1) as u128 * len as u128) as int == (s + 1 as int) * l)
                    by (nonlinear_arith)
                    requires
                        s as int >= 0,
                        len as int >= 0,
                        l == len as int,
                        s as int + 1 <= u64::MAX,
                        len as int <= u64::MAX,
                ;
                assert((s as int + 1) * l <= u128::MAX && 0 <= (s as int + 1) * l && (s as int)
                    * l <= u128::MAX && 0 <= (s as int) * l) by (nonlinear_arith)
                    requires
                        0 <= s as int,
                        s as int + 1 <= u64::MAX,
                        0 <= l <= u64::MAX,
                ;
            }
            let lo = ((s as u128 * len as u128) / (n as u128)) as usize;
            let hi = (((s as u128 + 1) * len as u128) / (n as u128)) as usize;
            proof {
                assert(lo as int == slice_lo(l, n as int, s as int));
                assert(hi as int == slice_lo(l, n as int, s + 1 as int));
            }
            let mut chunk: Vec<T> = Vec::new();
            let mut i: usize = lo;
            while i < hi
                invariant
                    lo <= i <= hi <= data@.len(),
                    chunk.deep_view() == data.deep_view().subrange(lo as int, i as int),
                decreases hi - i,
            {
                let ghost pre = chunk.deep_view();
                chunk.push(data[i].dup());
                proof {
                    assert(chunk.deep_view() =~= pre.push(data.deep_view()[i as int]));
                    assert(chunk.deep_view() =~= data.deep_view().subrange(
                        lo as int,
                        i + 1 as int,
                    ));
                }
                i += 1;
            }
            let ghost preout = out.deep_view();
            let ghost chunk_view = chunk.deep_view();
            out.push(chunk);
            proof {
                assert(out.deep_view() =~= preout.push(chunk_view));
            }
            s += 1;
        }
        Ok(out)
    }

    /// Builds the source RDD over `data`; fails with `BadSliceCount` when
    /// `num_slices` is zero. The resulting partitions are exactly the
    /// contiguous slices of the input, in order.
    pub fn new(context: &mut Context, data: Vec<T>, num_slices: usize) -> (r: Result<
        Self,
        RddError,
    >)
        requires
            old(context).can_mint(),
        ensures
            match r {
                Ok(rdd) => {
                    &&& rdd.wf()
                    &&& num_slices >= 1
                    &&& rdd.parts().len() == num_slices
                    &&& forall|s: int|
                        0 <= s < num_slices ==> (#[trigger] rdd.parts()[s])
                            == data.deep_view().subrange(
                            slice_lo(data.deep_view().len() as int, num_slices as int, s),
                            slice_lo(data.deep_view().len() as int, num_slices as int, s + 1),
                        )
                    &&& rdd.rdd_id_spec() == old(context).rdd_ids_minted()
                    &&& rdd.deps_spec() == Seq::<Dependency>::empty()
                    &&& final(context).rdd_ids_minted() == old(context).rdd_ids_minted() + 1
                    &&& final(context).shuffle_ids_minted() == old(context).shuffle_ids_minted()
                },
                Err(e) => {
                    &&& e == RddError::BadSliceCount
                    &&& num_slices == 0
                    &&& *final(context) == *old(context)
                },
            },
    {
        let slices = match Self::slice(data, num_slices) {
            Ok(slices) => slices,
            Err(e) => {
                return Err(e);
            },
        };
        let vals = RddVals::new(context);
        Ok(
            ParallelCollection {
                rdd_vals: ParallelCollectionVals { vals, splits_: slices, num_slices },
            },
        )
    }

    /// The payload-carrying splits, in index order: split `i` owns exactly
    /// partition `i`'s records.
    pub fn typed_splits(&self) -> (r: Vec<ParallelCollectionSplit<T>>)
        requires
            self.wf(),
        ensures
            r@.len() == self.parts().len(),
            forall|i: int|
                0 <= i < r@.len() ==> {
                    &&& (#[trigger] r@[i]).index == i
                    &&& r@[i].rdd_id == self.rdd_id_spec()
                    &&& r@[i].values.deep_view() == self.parts()[i]
                },
    {
        let n = self.rdd_vals.splits_.len();
        let mut r: Vec<ParallelCollectionSplit<T>> = Vec::new();
        let mut i: usize = 0;
        while i < n
            invariant
                self.wf(),
                i <= n,
                n == self.parts().len(),
                r@.len() == i,
                forall|j: int|
                    0 <= j < i ==> {
                        &&& (#[trigger] r@[j]).index == j
                        &&& r@[j].rdd_id == self.rdd_id_spec()
                        &&& r@[j].values.deep_view() == self.parts()[j]
                    },
            decreases n - i,
        {
            let values = self.rdd_vals.splits_[i].dup();
            r.push(ParallelCollectionSplit::new(self.rdd_vals.vals.id, i, values));
            i += 1;
        }
        r
    }
}

impl<T: Data> Clone for ParallelCollection<T> {
    /// A duplicate with the same content: the clone's partitions are,
    /// seen through the views, exactly the original's.
    fn clone(&self) -> (r: Self)
        ensures
            r.parts() == self.parts(),
            r.rdd_id_spec() == self.rdd_id_spec(),
            r.deps_spec() == self.deps_spec(),
            r.wf() == self.wf(),
    {
        let splits_ = self.rdd_vals.splits_.dup();
        let vals = crate::context::RddVals {
            id: self.rdd_vals.vals.id,
            dependencies: self.rdd_vals.vals.dependencies.clone(),
        };
        let r = ParallelCollection {
            rdd_vals: ParallelCollectionVals {
                vals,
                splits_,
                num_slices: self.rdd_vals.num_slices,
            },
        };
        proof {
            assert(r.parts() =~= self.parts());
        }
        r
    }
}

impl<T: Data> Rdd<T> for ParallelCollection<T> {
    open spec fn wf(&self) -> bool {
        self.rdd_vals.num_slices >= 1 && self.rdd_vals.splits_@.len()
            == self.rdd_vals.num_slices
    }

    open spec fn parts(&self) -> Seq<Seq<T::V>> {
        self.rdd_vals.splits_.deep_view()
    }

    open spec fn rdd_id_spec(&self) -> int {
        self.rdd_vals.vals.id as int
    }

    open spec fn deps_spec(&self) -> Seq<Dependency> {
        self.rdd_vals.vals.dependencies@
    }

    fn get_rdd_id(&self) -> usize {
        self.rdd_vals.vals.id
    }

    fn get_dependencies(&self) -> (d: Vec<Dependency>)
        ensures
            d@ == self.deps_spec(),
    {
        self.rdd_vals.vals.dependencies.clone()
    }

    fn number_of_splits(&self) -> usize {
        self.rdd_vals.splits_.len()
    }

    fn compute(&self, split: &BasicSplit) -> (r: Vec<T>)
        ensures
            r.deep_view() == self.parts()[split.index_spec()],
    {
        self.rdd_vals.splits_[split.index].dup()
    }
}

/// The slices of any input cover it exactly: concatenated in order they
/// restore the input. With `ParallelCollection::new`'s contract this says
/// `parallelize(data, n).collect() == data` — in particular the two are
/// equal as multisets.
pub proof fn lemma_slices_restore_data<A>(slices: Seq<Seq<A>>, data: Seq<A>, n: int)
    requires
        1 <= n,
        slices.len() == n,
        forall|s: int|
            0 <= s < n ==> (#[trigger] slices[s]) == data.subrange(
                slice_lo(data.len() as int, n, s),
                slice_lo(data.len() as int, n, s + 1),
            ),
    ensures
        all_records(slices) == data,
{
    lemma_slices_prefix(slices, data, n, n);
    lemma_slice_lo_bounds(data.len() as int, n, n);
    assert(slices.take(n) =~= slices);
    assert(data.take(data.len() as int) =~= data);
}

/// The first `j` slices concatenated are exactly the input up to cut `j`.
proof fn lemma_slices_prefix<A>(slices: Seq<Seq<A>>, data: Seq<A>, n: int, j: int)
    requires
        1 <= n,
        0 <= j <= n,
        slices.len() == n,
        forall|s: int|
            0 <= s < n ==> (#[trigger] slices[s]) == data.subrange(
                slice_lo(data.len() as int, n, s),
                slice_lo(data.len() as int, n, s + 1),
            ),
    ensures
        all_records(slices.take(j)) == data.take(slice_lo(data.len() as int, n, j)),
    decreases j,
{
    let l = data.len() as int;
    if j == 0 {
        lemma_slice_lo_bounds(l, n, 0);
        assert(slices.take(0) =~= Seq::<Seq<A>>::empty());
        assert(all_records(slices.take(0)) =~= data.take(0));
    } else {
        lemma_slices_prefix(slices, data, n, j - 1);
        crate::rdd::lemma_all_records_take_step(slices, j - 1);
        lemma_slice_lo_bounds(l, n, j - 1);
        lemma_slice_lo_bounds(l, n, j);
        assert(data.take(slice_lo(l, n, j - 1)) + data.subrange(
            slice_lo(l, n, j - 1),
            slice_lo(l, n, j),
        ) =~= data.take(slice_lo(l, n, j)));
    }
}

/// Parallelizing an empty input over `n` slices yields `n` partitions,
/// every one of them empty.
pub proof fn lemma_parallelize_empty<A>(slices: Seq<Seq<A>>, data: Seq<A>, n: int)
    requires
        1 <= n,
        data.len() == 0,
        slices.len() == n,
        forall|s: int|
            0 <= s < n ==> (#[trigger] slices[s]) == data.subrange(
                slice_lo(data.len() as int, n, s),
                slice_lo(data.len() as int, n, s + 1),
            ),
    ensures
        forall|s: int| 0 <= s < n ==> (#[trigger] slices[s]).len() == 0,
{
    assert forall|s: int| 0 <= s < n implies (#[trigger] slices[s]).len() == 0 by {
        lemma_slice_lo_bounds(0, n, s);
        lemma_slice_lo_bounds(0, n, s + 1);
    }
}

} // verus!
