pub mod pair_rdd;

use vstd::prelude::*;

use crate::aggregator::MapOp;
use crate::context::{Context, Dependency, RddVals};
use crate::data::Data;
use crate::error::RddError;
use core::marker::PhantomData;

verus! {

/// One partition's identity: every split kind can say which index it is.
pub trait Split {
    spec fn index_spec(&self) -> int;

    fn get_index(&self) -> (i: usize)
        ensures
            i == self.index_spec(),
    ;
}

/// A type-erased split handle: the identity of one partition of one RDD,
/// without any payload.
#[derive(Debug, Clone, Copy, PartialEq, Eq, Structural)]
pub struct BasicSplit {
    pub rdd_id: usize,
    pub index: usize,
}

impl Split for BasicSplit {
    open spec fn index_spec(&self) -> int {
        self.index as int
    }

    fn get_index(&self) -> usize {
        self.index
    }
}

/// All records of a partitioned dataset in partition order: partition 0's
/// records, then partition 1's, and so on.
pub open spec fn all_records<A>(parts: Seq<Seq<A>>) -> Seq<A>
    decreases parts.len(),
{
    if parts.len() == 0 {
        Seq::empty()
    } else {
        all_records(parts.drop_last()) + parts.last()
    }
}

/// Taking one more partition appends exactly that partition's records.
pub proof fn lemma_all_records_take_step<A>(parts: Seq<Seq<A>>, j: int)
    requires
        0 <= j < parts.len(),
    ensures
        all_records(parts.take(j + 1)) == all_records(parts.take(j)) + parts[j],
{
    assert(parts.take(j + 1).drop_last() =~= parts.take(j));
    assert(parts.take(j + 1).last() == parts[j]);
}

/// An immutable lazy partitioned dataset with lineage. The mathematical
/// content is `parts()`: one sequence of record views per partition; every
/// executable method is specified against it.
pub trait Rdd<T: Data>: Sized {
    /// The dataset and everything beneath it is well formed.
    spec fn wf(&self) -> bool;

    /// The records each partition holds, as views, in partition order.
    spec fn parts(&self) -> Seq<Seq<T::V>>;

    /// The id the session minted for this RDD.
    spec fn rdd_id_spec(&self) -> int;

    /// The lineage this RDD records on its parents.
    spec fn deps_spec(&self) -> Seq<Dependency>;

    fn get_rdd_id(&self) -> (id: usize)
        ensures
            id == self.rdd_id_spec(),
    ;

    fn get_dependencies(&self) -> (d: Vec<Dependency>)
        ensures
            d@ == self.deps_spec(),
    ;

    fn number_of_splits(&self) -> (n: usize)
        requires
            self.wf(),
        ensures
            n == self.parts().len(),
    ;

    /// Materializes the records of one partition.
    fn compute(&self, split: &BasicSplit) -> (r: Vec<T>)
        requires
            self.wf(),
            0 <= split.index_spec() < self.parts().len(),
        ensures
            r.deep_view() == self.parts()[split.index_spec()],
    ;

    /// The split identities, in stable order: the split at position `i`
    /// carries index `i`, so indices form exactly `0..num_partitions`.
    fn splits(&self) -> (s: Vec<BasicSplit>)
        requires
            self.wf(),
        ensures
            s@.len() == self.parts().len(),
            forall|i: int|
                0 <= i < s@.len() ==> (#[trigger] s@[i]).index == i && s@[i].rdd_id
                    == self.rdd_id_spec(),
    {
        let n = self.number_of_splits();
        let id = self.get_rdd_id();
        let mut s: Vec<BasicSplit> = Vec::new();
        let mut i: usize = 0;
        while i < n
            invariant
                i <= n,
                s@.len() == i,
                forall|j: int|
                    0 <= j < i ==> (#[trigger] s@[j]).index == j && s@[j].rdd_id == id,
            decreases n - i,
        {
            s.push(BasicSplit { rdd_id: id, index: i });
            i += 1;
        }
        s
    }

    /// The cached wrapper over `compute`. The cache tracker is outside the
    /// core; here the wrapper recomputes, which is observationally the same.
    fn iterator(&self, split: &BasicSplit) -> (r: Vec<T>)
        requires
            self.wf(),
            0 <= split.index_spec() < self.parts().len(),
        ensures
            r.deep_view() == self.parts()[split.index_spec()],
    {
        self.compute(split)
    }

    /// Every record, in partition order.
    fn collect(&self) -> (r: Vec<T>)
        requires
            self.wf(),
        ensures
            r.deep_view() == all_records(self.parts()),
    {
        let n = self.number_of_splits();
        let id = self.get_rdd_id();
        let mut out: Vec<T> = Vec::new();
        let mut j: usize = 0;
        while j < n
            invariant
                self.wf(),
                n == self.parts().len(),
                j <= n,
                out.deep_view() == all_records(self.parts().take(j as int)),
            decreases n - j,
        {
            let mut part = self.compute(&BasicSplit { rdd_id: id, index: j });
            let ghost pre = out.deep_view();
            let ghost part_view = part.deep_view();
            out.append(&mut part);
            proof {
                assert(out.deep_view() =~= pre + part_view);
                lemma_all_records_take_step(self.parts(), j as int);
            }
            j += 1;
        }
        proof {
            assert(self.parts().take(n as int) =~= self.parts());
        }
        out
    }

    /// The first `num` records in partition order; on a dataset of `m`
    /// records it returns exactly `min(num, m)` of them.
    fn take(&self, num: usize) -> (r: Vec<T>)
        requires
            self.wf(),
        ensures
            r.deep_view() == all_records(self.parts()).take(
                vstd::math::min(num as int, all_records(self.parts()).len() as int),
            ),
            r@.len() == vstd::math::min(num as int, all_records(self.parts()).len() as int),
    {
        let mut all = self.collect();
        let ghost whole = all.deep_view();
        if all.len() > num {
            all.truncate(num);
            proof {
                assert(all.deep_view() =~= whole.take(num as int));
            }
        } else {
            proof {
                assert(all.deep_view() =~= whole.take(whole.len() as int));
            }
        }
        all
    }

    /// The first record, or `EmptyCollection` when the dataset holds none.
    fn first(&self) -> (r: Result<T, RddError>)
        requires
            self.wf(),
        ensures
            match r {
                Ok(v) => all_records(self.parts()).len() > 0 && v.deep_view() == all_records(
                    self.parts(),
                )[0],
                Err(e) => e == RddError::EmptyCollection && all_records(self.parts()).len() == 0,
            },
    {
        let mut front = self.take(1);
        if front.len() == 0 {
            Err(RddError::EmptyCollection)
        } else {
            let ghost fv = front.deep_view();
            let v = front.remove(0);
            proof {
                assert(v.deep_view() == fv[0]);
                assert(fv[0] == all_records(self.parts())[0]);
            }
            Ok(v)
        }
    }

}

/// Mapping twice is observationally one map by the composition: a dataset
/// mapped by `f` and then by `g` holds, partition for partition and record
/// for record, exactly what the same dataset mapped once by `g ∘ f` holds.
pub proof fn lemma_map_fusion<
    T: Data,
    U: Data,
    W: Data,
    R: Rdd<T>,
    F: MapOp<T, U>,
    G: MapOp<U, W>,
>(
    outer: MappedRdd<U, W, MappedRdd<T, U, R, F>, G>,
    fused: MappedRdd<T, W, R, crate::aggregator::ComposeOp<U, F, G>>,
)
    requires
        outer.prev.prev == fused.prev,
        outer.prev.f == fused.f.first,
        outer.f == fused.f.second,
    ensures
        outer.parts() == fused.parts(),
{
    let a = fused.prev.parts();
    assert forall|j: int| 0 <= j < a.len() implies outer.parts()[j] == fused.parts()[j] by {
        assert forall|t: int| 0 <= t < a[j].len() implies outer.parts()[j][t] == fused.parts()[j][t] by {
            assert(outer.parts()[j][t] == outer.f.apply_spec(
                outer.prev.f.apply_spec(a[j][t]),
            ));
            assert(fused.parts()[j][t] == fused.f.second.apply_spec(
                fused.f.first.apply_spec(a[j][t]),
            ));
        }
        assert(outer.parts()[j] =~= fused.parts()[j]);
    }
    assert(outer.parts() =~= fused.parts());
}

/// Derives a new dataset by mapping `f` over every record of `prev`;
/// narrow, so the partitioning is kept.
pub fn map_rdd<T: Data, U: Data, R: Rdd<T>, F: MapOp<T, U>>(
    prev: R,
    context: &mut Context,
    f: F,
) -> (r: MappedRdd<T, U, R, F>)
    requires
        prev.wf(),
        old(context).can_mint(),
    ensures
        r.wf(),
        r.prev == prev,
        r.f == f,
        final(context).rdd_ids_minted() == old(context).rdd_ids_minted() + 1,
        final(context).shuffle_ids_minted() == old(context).shuffle_ids_minted(),
{
    MappedRdd::new(prev, context, f)
}

/// A narrow one-to-one derivation: partition `j` holds `f` of every record
/// of the parent's partition `j`, in the parent's order.
pub struct MappedRdd<T: Data, U: Data, R: Rdd<T>, F: MapOp<T, U>> {
    pub prev: R,
    pub vals: RddVals,
    pub f: F,
    pub _marker: PhantomData<(T, U)>,
}

impl<T: Data, U: Data, R: Rdd<T>, F: MapOp<T, U>> MappedRdd<T, U, R, F> {
    /// Records a one-to-one dependency on the parent and keeps its layout.
    pub fn new(prev: R, context: &mut Context, f: F) -> (r: Self)
        requires
            prev.wf(),
            old(context).can_mint(),
        ensures
            r.wf(),
            r.prev == prev,
            r.f == f,
            r.rdd_id_spec() == old(context).rdd_ids_minted(),
            final(context).rdd_ids_minted() == old(context).rdd_ids_minted() + 1,
            final(context).shuffle_ids_minted() == old(context).shuffle_ids_minted(),
    {
        let parent_id = prev.get_rdd_id();
        let mut vals = RddVals::new(context);
        vals.dependencies.push(Dependency::NarrowOneToOne { parent_rdd_id: parent_id });
        MappedRdd { prev, vals, f, _marker: PhantomData }
    }
}

impl<T: Data, U: Data, R: Rdd<T>, F: MapOp<T, U>> Rdd<U> for MappedRdd<T, U, R, F> {
    open spec fn wf(&self) -> bool {
        self.prev.wf()
    }

    open spec fn parts(&self) -> Seq<Seq<U::V>> {
        Seq::new(
            self.prev.parts().len(),
            |j: int|
                Seq::new(
                    self.prev.parts()[j].len(),
                    |i: int| self.f.apply_spec(self.prev.parts()[j][i]),
                ),
        )
    }

    open spec fn rdd_id_spec(&self) -> int {
        self.vals.id as int
    }

    open spec fn deps_spec(&self) -> Seq<Dependency> {
        self.vals.dependencies@
    }

    fn get_rdd_id(&self) -> usize {
        self.vals.id
    }

    fn get_dependencies(&self) -> (d: Vec<Dependency>)
        ensures
            d@ == self.deps_spec(),
    {
        let mut d: Vec<Dependency> = Vec::new();
        let mut i: usize = 0;
        while i < self.vals.dependencies.len()
            invariant
                i <= self.vals.dependencies@.len(),
                d@ == self.vals.dependencies@.take(i as int),
            decreases self.vals.dependencies@.len() - i,
        {
            d.push(self.vals.dependencies[i]);
            proof {
                assert(d@ =~= self.vals.dependencies@.take(i + 1 as int));
            }
            i += 1;
        }
        proof {
            assert(self.vals.dependencies@.take(self.vals.dependencies@.len() as int)
                =~= self.vals.dependencies@);
        }
        d
    }

    fn number_of_splits(&self) -> usize {
        self.prev.number_of_splits()
    }

    fn compute(&self, split: &BasicSplit) -> (r: Vec<U>)
        ensures
            r.deep_view() == self.parts()[split.index_spec()],
    {
        let source = self.prev.compute(split);
        let mut out: Vec<U> = Vec::new();
        let mut i: usize = 0;
        while i < source.len()
            invariant
                self.prev.wf(),
                i <= source@.len(),
                source.deep_view() == self.prev.parts()[split.index as int],
                0 <= split.index < self.prev.parts().len(),
                out.deep_view() == self.parts()[split.index as int].take(i as int),
            decreases source@.len() - i,
        {
            let ghost pre = out.deep_view();
            out.push(self.f.apply(&source[i]));
            proof {
                assert(out.deep_view() =~= pre.push(
                    self.f.apply_spec(self.prev.parts()[split.index as int][i as int]),
                ));
                assert(out.deep_view() =~= self.parts()[split.index as int].take(i + 1 as int));
            }
            i += 1;
        }
        proof {
            assert(self.parts()[split.index as int].take(source@.len() as int) =~= self.parts()[
                split.index as int
            ]);
        }
        out
    }
}

} // verus!
