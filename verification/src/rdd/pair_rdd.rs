use vstd::prelude::*;

use crate::aggregator::{fm_of, CombineOp, FlatMapOp, GroupOp, MapOp};
use crate::context::{Context, Dependency, RddVals};
use crate::data::Data;
use crate::error::RddError;
use crate::partitioner::{HashPartitioner, Key, Partitioner};
use crate::rdd::{BasicSplit, Rdd, Split};
use crate::shuffled_rdd::{
    assoc_lookup, cogroup_spec, lemma_table_merge_pairs_lookup, table_has_key, table_wf,
    ShuffledRdd,
};
use core::marker::PhantomData;

verus! {

/// A narrow derivation over a keyed dataset: partition `j` holds
/// `(k, f(v))` for each `(k, v)` of the parent's partition `j`, keys
/// untouched, order preserved.
pub struct MappedValuesRdd<K: Data, V: Data, U: Data, R: Rdd<(K, V)>, F: MapOp<V, U>> {
    pub prev: R,
    pub vals: RddVals,
    pub f: F,
    pub _marker: PhantomData<(K, V, U)>,
}

impl<K: Data, V: Data, U: Data, R: Rdd<(K, V)>, F: MapOp<V, U>> MappedValuesRdd<K, V, U, R, F> {
    /// Records a one-to-one dependency on the parent and keeps its layout.
    pub fn new(prev: R, context: &mut Context, f: F) -> (r: Self)
        requires
            prev.wf(),
            old(context).rdd_ids_minted() < usize::MAX,
        ensures
            r.wf(),
            r.prev == prev,
            r.f == f,
            r.rdd_id_spec() == old(context).rdd_ids_minted(),
            r.deps_spec() == seq![
                Dependency::NarrowOneToOne { parent_rdd_id: prev.rdd_id_spec() as usize },
            ],
            final(context).rdd_ids_minted() == old(context).rdd_ids_minted() + 1,
            final(context).shuffle_ids_minted() == old(context).shuffle_ids_minted(),
    {
        let parent_id = prev.get_rdd_id();
        let mut vals = RddVals::new(context);
        vals.dependencies.push(Dependency::NarrowOneToOne { parent_rdd_id: parent_id });
        proof {
            assert(vals.dependencies@ =~= seq![
                Dependency::NarrowOneToOne { parent_rdd_id: parent_id },
            ]);
        }
        MappedValuesRdd { prev, vals, f, _marker: PhantomData }
    }
}

impl<K: Data, V: Data, U: Data, R: Rdd<(K, V)>, F: MapOp<V, U>> Rdd<(K, U)> for MappedValuesRdd<
    K,
    V,
    U,
    R,
    F,
> {
    open spec fn wf(&self) -> bool {
        self.prev.wf()
    }

    open spec fn parts(&self) -> Seq<Seq<(K::V, U::V)>> {
        Seq::new(
            self.prev.parts().len(),
            |j: int|
                Seq::new(
                    self.prev.parts()[j].len(),
                    |t: int|
                        (self.prev.parts()[j][t].0, self.f.apply_spec(self.prev.parts()[j][t].1)),
                ),
        )
    }

    open spec fn rdd_id_spec(&self) -> int {
        self.vals.id as int
    }

    open spec fn deps_spec(&self) -> Seq<Dependency> {
        self.vals.dependencies@
    }

    fn get_rdd_id(&self) -> usize {
        self.vals.id
    }

    fn get_dependencies(&self) -> (d: Vec<Dependency>)
        ensures
            d@ == self.deps_spec(),
    {
        self.vals.dependencies.clone()
    }

    fn number_of_splits(&self) -> usize {
        self.prev.number_of_splits()
    }

    fn compute(&self, split: &BasicSplit) -> (r: Vec<(K, U)>)
        ensures
            r.deep_view() == self.parts()[split.index_spec()],
    {
        let source = self.prev.compute(split);
        let mut out: Vec<(K, U)> = Vec::new();
        let mut t: usize = 0;
        while t < source.len()
            invariant
                self.prev.wf(),
                t <= source@.len(),
                source.deep_view() == self.prev.parts()[split.index as int],
                0 <= split.index < self.prev.parts().len(),
                out.deep_view() == self.parts()[split.index as int].take(t as int),
            decreases source@.len() - t,
        {
            let ghost pre = out.deep_view();
            let pair = &source[t];
            out.push((pair.0.dup(), self.f.apply(&pair.1)));
            proof {
                assert(out.deep_view() =~= pre.push(
                    (
                        self.prev.parts()[split.index as int][t as int].0,
                        self.f.apply_spec(self.prev.parts()[split.index as int][t as int].1),
                    ),
                ));
                assert(out.deep_view() =~= self.parts()[split.index as int].take(t + 1 as int));
            }
            t += 1;
        }
        proof {
            assert(self.parts()[split.index as int].take(source@.len() as int) =~= self.parts()[
                split.index as int
            ]);
        }
        out
    }
}

/// The pairs one parent record expands to under a flat-map over values:
/// the key is copied onto every produced value, in the produced order.
pub open spec fn kv_expand<KV, VV, UV>(f: spec_fn(VV) -> Seq<UV>) -> spec_fn((KV, VV)) -> Seq<
    (KV, UV),
> {
    |p: (KV, VV)| f(p.1).map_values(|u: UV| (p.0, u))
}

/// A narrow derivation that expands each `(k, v)` of the parent into
/// `(k, u)` for every `u` in `f(v)`, preserving the parent order and the
/// per-record order `f` produced.
pub struct FlatMappedValuesRdd<K: Data, V: Data, U: Data, R: Rdd<(K, V)>, F: FlatMapOp<V, U>> {
    pub prev: R,
    pub vals: RddVals,
    pub f: F,
    pub _marker: PhantomData<(K, V, U)>,
}

impl<K: Data, V: Data, U: Data, R: Rdd<(K, V)>, F: FlatMapOp<V, U>> FlatMappedValuesRdd<
    K,
    V,
    U,
    R,
    F,
> {
    /// Records a one-to-one dependency on the parent and keeps its layout.
    pub fn new(prev: R, context: &mut Context, f: F) -> (r: Self)
        requires
            prev.wf(),
            old(context).rdd_ids_minted() < usize::MAX,
        ensures
            r.wf(),
            r.prev == prev,
            r.f == f,
            r.rdd_id_spec() == old(context).rdd_ids_minted(),
            r.deps_spec() == seq![
                Dependency::NarrowOneToOne { parent_rdd_id: prev.rdd_id_spec() as usize },
            ],
            final(context).rdd_ids_minted() == old(context).rdd_ids_minted() + 1,
            final(context).shuffle_ids_minted() == old(context).shuffle_ids_minted(),
    {
        let parent_id = prev.get_rdd_id();
        let mut vals = RddVals::new(context);
        vals.dependencies.push(Dependency::NarrowOneToOne { parent_rdd_id: parent_id });
        proof {
            assert(vals.dependencies@ =~= seq![
                Dependency::NarrowOneToOne { parent_rdd_id: parent_id },
            ]);
        }
        FlatMappedValuesRdd { prev, vals, f, _marker: PhantomData }
    }
}

impl<K: Data, V: Data, U: Data, R: Rdd<(K, V)>, F: FlatMapOp<V, U>> Rdd<(K, U)> for FlatMappedValuesRdd<
    K,
    V,
    U,
    R,
    F,
> {
    open spec fn wf(&self) -> bool {
        self.prev.wf()
    }

    open spec fn parts(&self) -> Seq<Seq<(K::V, U::V)>> {
        Seq::new(
            self.prev.parts().len(),
            |j: int| self.prev.parts()[j].flat_map(kv_expand(fm_of(&self.f))),
        )
    }

    open spec fn rdd_id_spec(&self) -> int {
        self.vals.id as int
    }

    open spec fn deps_spec(&self) -> Seq<Dependency> {
        self.vals.dependencies@
    }

    fn get_rdd_id(&self) -> usize {
        self.vals.id
    }

    fn get_dependencies(&self) -> (d: Vec<Dependency>)
        ensures
            d@ == self.deps_spec(),
    {
        self.vals.dependencies.clone()
    }

    fn number_of_splits(&self) -> usize {
        self.prev.number_of_splits()
    }

    fn compute(&self, split: &BasicSplit) -> (r: Vec<(K, U)>)
        ensures
            r.deep_view() == self.parts()[split.index_spec()],
    {
        let source = self.prev.compute(split);
        let ghost source_view = source.deep_view();
        let ghost expand = kv_expand::<K::V, V::V, U::V>(fm_of(&self.f));
        let mut out: Vec<(K, U)> = Vec::new();
        let mut t: usize = 0;
        proof {
            assert(source_view.take(0) =~= Seq::<(K::V, V::V)>::empty());
            assert(Seq::<(K::V, V::V)>::empty().flat_map(expand) =~= Seq::<(K::V, U::V)>::empty());
            assert(out.deep_view() =~= Seq::<(K::V, U::V)>::empty());
        }
        while t < source.len()
            invariant
                self.prev.wf(),
                t <= source@.len(),
                source_view == source.deep_view(),
                expand == kv_expand::<K::V, V::V, U::V>(fm_of(&self.f)),
                source_view == self.prev.parts()[split.index as int],
                0 <= split.index < self.prev.parts().len(),
                out.deep_view() == source_view.take(t as int).flat_map(expand),
            decreases source@.len() - t,
        {
            let pair = &source[t];
            let ghost pv: (K::V, V::V) = source_view[t as int];
            let produced = self.f.apply(&pair.1);
            let ghost produced_view = produced.deep_view();
            let ghost base = out.deep_view();
            let mut w: usize = 0;
            while w < produced.len()
                invariant
                    w <= produced@.len(),
                    produced_view == produced.deep_view(),
                    pv == (pair.0.deep_view(), pair.1.deep_view()),
                    out.deep_view() == base + produced_view.map_values(
                        |u: U::V| (pv.0, u),
                    ).take(w as int),
                decreases produced@.len() - w,
            {
                let ghost preout = out.deep_view();
                out.push((pair.0.dup(), produced[w].dup()));
                proof {
                    assert(out.deep_view() =~= preout.push((pv.0, produced_view[w as int])));
                    assert(preout.push((pv.0, produced_view[w as int])) =~= base
                        + produced_view.map_values(|u: U::V| (pv.0, u)).take(w + 1 as int));
                }
                w += 1;
            }
            proof {
                let mapped = produced_view.map_values(|u: U::V| (pv.0, u));
                assert(mapped.take(produced_view.len() as int) =~= mapped);
                assert(expand(pv) == fm_of(&self.f)(pv.1).map_values(|u: U::V| (pv.0, u)));
                assert(fm_of(&self.f)(pv.1) == produced_view);
                assert(mapped == expand(pv));
                source_view.lemma_flat_map_take_append(expand, t as int);
                assert(out.deep_view() == source_view.take(t + 1 as int).flat_map(expand));
            }
            t += 1;
        }
        proof {
            assert(source_view.take(source_view.len() as int) =~= source_view);
        }
        out
    }
}

/// Derives a value-mapped dataset: `(k, v)` becomes `(k, f(v))`.
pub fn map_values<K: Data, V: Data, U: Data, R: Rdd<(K, V)>, F: MapOp<V, U>>(
    prev: R,
    context: &mut Context,
    f: F,
) -> (r: MappedValuesRdd<K, V, U, R, F>)
    requires
        prev.wf(),
        old(context).rdd_ids_minted() < usize::MAX,
    ensures
        r.wf(),
        r.prev == prev,
        r.f == f,
        final(context).rdd_ids_minted() == old(context).rdd_ids_minted() + 1,
        final(context).shuffle_ids_minted() == old(context).shuffle_ids_minted(),
{
    MappedValuesRdd::new(prev, context, f)
}

/// Derives a value-expanded dataset: `(k, v)` becomes `(k, u)` for every
/// `u` in `f(v)`.
pub fn flat_map_values<K: Data, V: Data, U: Data, R: Rdd<(K, V)>, F: FlatMapOp<V, U>>(
    prev: R,
    context: &mut Context,
    f: F,
) -> (r: FlatMappedValuesRdd<K, V, U, R, F>)
    requires
        prev.wf(),
        old(context).rdd_ids_minted() < usize::MAX,
    ensures
        r.wf(),
        r.prev == prev,
        r.f == f,
        final(context).rdd_ids_minted() == old(context).rdd_ids_minted() + 1,
        final(context).shuffle_ids_minted() == old(context).shuffle_ids_minted(),
{
    FlatMappedValuesRdd::new(prev, context, f)
}

/// Builds the shuffle that aggregates a keyed dataset with the given
/// aggregator triple, routed by `partitioner`.
pub fn combine_by_key<
    K: Key,
    V: Data,
    C: Data,
    R: Rdd<(K, V)>,
    P: Partitioner<K>,
    OP: CombineOp<V, C>,
>(
    prev: R,
    context: &mut Context,
    aggregator: OP,
    partitioner: P,
) -> (r: ShuffledRdd<K, V, C, R, P, OP>)
    requires
        prev.wf(),
        partitioner.wf(),
        old(context).can_mint(),
    ensures
        r.wf(),
        r.parent == prev,
        r.part == partitioner,
        r.aggregator == aggregator,
        r.shuffle_id == old(context).shuffle_ids_minted(),
        final(context).rdd_ids_minted() == old(context).rdd_ids_minted() + 1,
        final(context).shuffle_ids_minted() == old(context).shuffle_ids_minted() + 1,
{
    ShuffledRdd::new(prev, context, aggregator, partitioner)
}

/// Groups a keyed dataset by `partitioner`: each key of reduce partition
/// `i` ends with the `Vec` of its values.
pub fn group_by_key_using_partitioner<K: Key, V: Data, R: Rdd<(K, V)>, P: Partitioner<K>>(
    prev: R,
    context: &mut Context,
    partitioner: P,
) -> (r: ShuffledRdd<K, V, Vec<V>, R, P, GroupOp>)
    requires
        prev.wf(),
        partitioner.wf(),
        old(context).can_mint(),
    ensures
        r.wf(),
        r.parent == prev,
        r.part == partitioner,
        r.aggregator == GroupOp,
        final(context).rdd_ids_minted() == old(context).rdd_ids_minted() + 1,
        final(context).shuffle_ids_minted() == old(context).shuffle_ids_minted() + 1,
{
    combine_by_key(prev, context, GroupOp, partitioner)
}

/// Groups a keyed dataset into `num_splits` hash partitions; fails with
/// `PartitionerArityError` when `num_splits` is zero.
pub fn group_by_key<K: Key, V: Data, R: Rdd<(K, V)>>(
    prev: R,
    context: &mut Context,
    num_splits: usize,
) -> (r: Result<ShuffledRdd<K, V, Vec<V>, R, HashPartitioner<K>, GroupOp>, RddError>)
    requires
        prev.wf(),
        old(context).can_mint(),
    ensures
        match r {
            Ok(s) => {
                &&& num_splits >= 1
                &&& s.wf()
                &&& s.parent == prev
                &&& s.part.partitions_spec() == num_splits
                &&& s.aggregator == GroupOp
                &&& final(context).rdd_ids_minted() == old(context).rdd_ids_minted() + 1
                &&& final(context).shuffle_ids_minted() == old(context).shuffle_ids_minted() + 1
            },
            Err(e) => {
                &&& e == RddError::PartitionerArityError
                &&& num_splits == 0
                &&& *final(context) == *old(context)
            },
        },
{
    let partitioner = match HashPartitioner::<K>::new(num_splits) {
        Ok(p) => p,
        Err(e) => {
            return Err(e);
        },
    };
    Ok(group_by_key_using_partitioner(prev, context, partitioner))
}

/// Reduces a keyed dataset by `partitioner` with the aggregator `op`
/// (for a plain reduce, one whose combiner type is the value type).
pub fn reduce_by_key_using_partitioner<
    K: Key,
    V: Data,
    R: Rdd<(K, V)>,
    P: Partitioner<K>,
    OP: CombineOp<V, V>,
>(
    prev: R,
    context: &mut Context,
    op: OP,
    partitioner: P,
) -> (r: ShuffledRdd<K, V, V, R, P, OP>)
    requires
        prev.wf(),
        partitioner.wf(),
        old(context).can_mint(),
    ensures
        r.wf(),
        r.parent == prev,
        r.part == partitioner,
        r.aggregator == op,
        final(context).rdd_ids_minted() == old(context).rdd_ids_minted() + 1,
        final(context).shuffle_ids_minted() == old(context).shuffle_ids_minted() + 1,
{
    combine_by_key(prev, context, op, partitioner)
}

/// Reduces a keyed dataset into `num_splits` hash partitions; fails with
/// `PartitionerArityError` when `num_splits` is zero.
pub fn reduce_by_key<K: Key, V: Data, R: Rdd<(K, V)>, OP: CombineOp<V, V>>(
    prev: R,
    context: &mut Context,
    op: OP,
    num_splits: usize,
) -> (r: Result<ShuffledRdd<K, V, V, R, HashPartitioner<K>, OP>, RddError>)
    requires
        prev.wf(),
        old(context).can_mint(),
    ensures
        match r {
            Ok(s) => {
                &&& num_splits >= 1
                &&& s.wf()
                &&& s.parent == prev
                &&& s.part.partitions_spec() == num_splits
                &&& s.aggregator == op
                &&& final(context).rdd_ids_minted() == old(context).rdd_ids_minted() + 1
                &&& final(context).shuffle_ids_minted() == old(context).shuffle_ids_minted() + 1
            },
            Err(e) => {
                &&& e == RddError::PartitionerArityError
                &&& num_splits == 0
                &&& *final(context) == *old(context)
            },
        },
{
    let partitioner = match HashPartitioner::<K>::new(num_splits) {
        Ok(p) => p,
        Err(e) => {
            return Err(e);
        },
    };
    Ok(reduce_by_key_using_partitioner(prev, context, op, partitioner))
}


/// A co-grouped dataset over two keyed parents sharing one partitioning:
/// partition `i` holds, for each key routed to `i`, the `Vec` of the first
/// parent's values and the `Vec` of the second parent's values — first
/// every key the first parent contributes (in its order, the second
/// side's bucket attached or empty), then the keys only the second parent
/// contributes.
pub struct CoGroupedRdd<
    K: Key,
    V: Data,
    W: Data,
    R1: Rdd<(K, V)>,
    R2: Rdd<(K, W)>,
    P: Partitioner<K>,
> {
    pub s1: ShuffledRdd<K, V, Vec<V>, R1, P, GroupOp>,
    pub s2: ShuffledRdd<K, W, Vec<W>, R2, P, GroupOp>,
    pub vals: RddVals,
}

impl<
    K: Key,
    V: Data,
    W: Data,
    R1: Rdd<(K, V)>,
    R2: Rdd<(K, W)>,
    P: Partitioner<K>,
> CoGroupedRdd<K, V, W, R1, R2, P> {
    /// Bundles the two per-side shuffles and records a shuffle dependency
    /// on each parent.
    pub fn new(
        s1: ShuffledRdd<K, V, Vec<V>, R1, P, GroupOp>,
        s2: ShuffledRdd<K, W, Vec<W>, R2, P, GroupOp>,
        context: &mut Context,
    ) -> (r: Self)
        requires
            s1.wf(),
            s2.wf(),
            s1.part.num_partitions_spec() == s2.part.num_partitions_spec(),
            old(context).rdd_ids_minted() < usize::MAX,
        ensures
            r.wf(),
            r.s1 == s1,
            r.s2 == s2,
            r.rdd_id_spec() == old(context).rdd_ids_minted(),
            final(context).rdd_ids_minted() == old(context).rdd_ids_minted() + 1,
            final(context).shuffle_ids_minted() == old(context).shuffle_ids_minted(),
    {
        let dep1 = Dependency::Shuffle {
            shuffle_id: s1.shuffle_id,
            parent_rdd_id: s1.parent.get_rdd_id(),
        };
        let dep2 = Dependency::Shuffle {
            shuffle_id: s2.shuffle_id,
            parent_rdd_id: s2.parent.get_rdd_id(),
        };
        let mut vals = RddVals::new(context);
        vals.dependencies.push(dep1);
        vals.dependencies.push(dep2);
        CoGroupedRdd { s1, s2, vals }
    }
}

impl<
    K: Key,
    V: Data,
    W: Data,
    R1: Rdd<(K, V)>,
    R2: Rdd<(K, W)>,
    P: Partitioner<K>,
> Rdd<(K, (Vec<V>, Vec<W>))> for CoGroupedRdd<K, V, W, R1, R2, P> {
    open spec fn wf(&self) -> bool {
        self.s1.wf() && self.s2.wf() && self.s1.part.num_partitions_spec()
            == self.s2.part.num_partitions_spec()
    }

    open spec fn parts(&self) -> Seq<Seq<(K::V, (Seq<V::V>, Seq<W::V>))>> {
        Seq::new(
            self.s1.part.num_partitions_spec() as nat,
            |i: int| cogroup_spec(self.s1.parts()[i], self.s2.parts()[i]),
        )
    }

    open spec fn rdd_id_spec(&self) -> int {
        self.vals.id as int
    }

    open spec fn deps_spec(&self) -> Seq<Dependency> {
        self.vals.dependencies@
    }

    fn get_rdd_id(&self) -> usize {
        self.vals.id
    }

    fn get_dependencies(&self) -> (d: Vec<Dependency>)
        ensures
            d@ == self.deps_spec(),
    {
        self.vals.dependencies.clone()
    }

    fn number_of_splits(&self) -> usize {
        self.s1.part.get_num_of_partitions()
    }

    fn compute(&self, split: &BasicSplit) -> (r: Vec<(K, (Vec<V>, Vec<W>))>)
        ensures
            r.deep_view() == self.parts()[split.index_spec()],
    {
        let ghost ii = split.index as int;
        let left = self.s1.compute(split);
        let right = self.s2.compute(split);
        let ghost t1 = left.deep_view();
        let ghost t2 = right.deep_view();
        proof {
            lemma_table_merge_pairs_lookup(
                Seq::<(K::V, Seq<V::V>)>::empty(),
                self.s1.reduce_input_spec(ii),
                crate::aggregator::mc_of::<Vec<V>, GroupOp>(&self.s1.aggregator),
                arbitrary(),
            );
            lemma_table_merge_pairs_lookup(
                Seq::<(K::V, Seq<W::V>)>::empty(),
                self.s2.reduce_input_spec(ii),
                crate::aggregator::mc_of::<Vec<W>, GroupOp>(&self.s2.aggregator),
                arbitrary(),
            );
            assert(table_wf(t1));
            assert(table_wf(t2));
        }
        let mut out: Vec<(K, (Vec<V>, Vec<W>))> = Vec::new();
        let ghost left_target = t1.map_values(
            |p: (K::V, Seq<V::V>)| crate::shuffled_rdd::cogroup_left_entry(t2, p),
        );
        let mut t: usize = 0;
        proof {
            assert(out.deep_view() =~= left_target.take(0));
        }
        while t < left.len()
            invariant
                t <= left@.len(),
                t1 == left.deep_view(),
                t2 == right.deep_view(),
                table_wf(t2),
                left_target == t1.map_values(
                    |p: (K::V, Seq<V::V>)| crate::shuffled_rdd::cogroup_left_entry(t2, p),
                ),
                out.deep_view() == left_target.take(t as int),
            decreases left@.len() - t,
        {
            let entry = &left[t];
            let k = entry.0.dup();
            let vs = entry.1.dup();
            let ws = match assoc_lookup(&right, &entry.0) {
                Some(ws) => ws,
                None => Vec::new(),
            };
            let ghost pre = out.deep_view();
            out.push((k, (vs, ws)));
            proof {
                assert(out.deep_view() =~~= pre.push(left_target[t as int]));
                assert(out.deep_view() =~= left_target.take(t + 1 as int));
            }
            t += 1;
        }
        proof {
            assert(left_target.take(left@.len() as int) =~= left_target);
        }
        let ghost nk = crate::shuffled_rdd::absent_in::<K::V, V::V, W::V>(t1);
        let ghost right_target = t2.filter(nk).map_values(
            crate::shuffled_rdd::cogroup_right_entry::<K::V, V::V, W::V>(),
        );
        let mut u: usize = 0;
        proof {
            assert(t2.take(0) =~= Seq::<(K::V, Seq<W::V>)>::empty());
            assert(t2.take(0).filter(nk) =~= Seq::<(K::V, Seq<W::V>)>::empty());
            assert(out.deep_view() =~= left_target + t2.take(0).filter(nk).map_values(
                crate::shuffled_rdd::cogroup_right_entry::<K::V, V::V, W::V>(),
            ));
        }
        while u < right.len()
            invariant
                u <= right@.len(),
                t1 == left.deep_view(),
                t2 == right.deep_view(),
                table_wf(t1),
                nk == crate::shuffled_rdd::absent_in::<K::V, V::V, W::V>(t1),
                left_target == t1.map_values(
                    |p: (K::V, Seq<V::V>)| crate::shuffled_rdd::cogroup_left_entry(t2, p),
                ),
                out.deep_view() == left_target + t2.take(u as int).filter(nk).map_values(
                    crate::shuffled_rdd::cogroup_right_entry::<K::V, V::V, W::V>(),
                ),
            decreases right@.len() - u,
        {
            let entry = &right[u];
            let ghost qv: (K::V, Seq<W::V>) = t2[u as int];
            proof {
                assert(qv == (entry.0.deep_view(), entry.1.deep_view()));
                assert(t2.take(u as int) + seq![qv] =~= t2.take(u + 1 as int));
                Seq::filter_distributes_over_add(t2.take(u as int), seq![qv], nk);
                crate::shuffled_rdd::lemma_filter_singleton(qv, nk);
                assert(nk(qv) == !table_has_key(t1, qv.0));
            }
            let absent = match assoc_lookup(&left, &entry.0) {
                Some(_present) => false,
                None => true,
            };
            if absent {
                let k = entry.0.dup();
                let ws = entry.1.dup();
                let vs: Vec<V> = Vec::new();
                let ghost pre = out.deep_view();
                out.push((k, (vs, ws)));
                proof {
                    let er = crate::shuffled_rdd::cogroup_right_entry::<K::V, V::V, W::V>();
                    assert(out.deep_view() =~~= pre.push(er(qv)));
                    let fl = t2.take(u as int).filter(nk);
                    assert(t2.take(u + 1 as int).filter(nk) == fl + seq![qv]);
                    assert((fl + seq![qv]).map_values(er) =~= fl.map_values(er).push(er(qv)));
                    assert(out.deep_view() =~= left_target + t2.take(u + 1 as int).filter(
                        nk,
                    ).map_values(er));
                }
            } else {
                proof {
                    let er = crate::shuffled_rdd::cogroup_right_entry::<K::V, V::V, W::V>();
                    let fl = t2.take(u as int).filter(nk);
                    assert(fl + Seq::<(K::V, Seq<W::V>)>::empty() =~= fl);
                    assert(t2.take(u + 1 as int).filter(nk) == fl);
                }
            }
            u += 1;
        }
        proof {
            assert(t2.take(right@.len() as int) =~= t2);
            assert(out.deep_view() == cogroup_spec(t1, t2));
            assert(self.parts()[split.index_spec()] == cogroup_spec(
                self.s1.parts()[ii],
                self.s2.parts()[ii],
            ));
        }
        out
    }
}


/// Every `(v, w)` pair with a fixed first component, in `ws` order.
pub open spec fn pair_with_all<VV, WV>(ws: Seq<WV>) -> spec_fn(VV) -> Seq<(VV, WV)> {
    |v: VV| ws.map_values(|w: WV| (v, w))
}

/// Expands one cogrouped bucket pair into the cross product `vs × ws`,
/// outer order by `vs`, inner order by `ws`: the flat-map behind `join`.
pub struct ProductOp;

impl<V: Data, W: Data> FlatMapOp<(Vec<V>, Vec<W>), (V, W)> for ProductOp {
    open spec fn apply_spec(&self, v: (Seq<V::V>, Seq<W::V>)) -> Seq<(V::V, W::V)> {
        v.0.flat_map(pair_with_all(v.1))
    }

    fn apply(&self, v: &(Vec<V>, Vec<W>)) -> (r: Vec<(V, W)>)
        ensures
            r.deep_view() == <ProductOp as FlatMapOp<(Vec<V>, Vec<W>), (V, W)>>::apply_spec(
                self,
                v.deep_view(),
            ),
    {
        let vs = &v.0;
        let ws = &v.1;
        let ghost vsv = vs.deep_view();
        let ghost wsv = ws.deep_view();
        let ghost pw = pair_with_all::<V::V, W::V>(wsv);
        let mut out: Vec<(V, W)> = Vec::new();
        let mut a: usize = 0;
        proof {
            assert(vsv.take(0) =~= Seq::<V::V>::empty());
            assert(Seq::<V::V>::empty().flat_map(pw) =~= Seq::<(V::V, W::V)>::empty());
            assert(out.deep_view() =~= Seq::<(V::V, W::V)>::empty());
        }
        while a < vs.len()
            invariant
                a <= vs@.len(),
                vsv == vs.deep_view(),
                wsv == ws.deep_view(),
                pw == pair_with_all::<V::V, W::V>(wsv),
                out.deep_view() == vsv.take(a as int).flat_map(pw),
            decreases vs@.len() - a,
        {
            let ghost base = out.deep_view();
            let ghost av = vsv[a as int];
            let mut b: usize = 0;
            while b < ws.len()
                invariant
                    b <= ws@.len(),
                    vsv == vs.deep_view(),
                    wsv == ws.deep_view(),
                    a < vs@.len(),
                    av == vsv[a as int],
                    out.deep_view() == base + wsv.map_values(|w: W::V| (av, w)).take(b as int),
                decreases ws@.len() - b,
            {
                let ghost preout = out.deep_view();
                out.push((vs[a].dup(), ws[b].dup()));
                proof {
                    assert(out.deep_view() =~= preout.push((av, wsv[b as int])));
                    assert(preout.push((av, wsv[b as int])) =~= base + wsv.map_values(
                        |w: W::V| (av, w),
                    ).take(b + 1 as int));
                }
                b += 1;
            }
            proof {
                let mapped = wsv.map_values(|w: W::V| (av, w));
                assert(mapped.take(wsv.len() as int) =~= mapped);
                assert(pw(av) == mapped);
                vsv.lemma_flat_map_take_append(pw, a as int);
                assert(out.deep_view() == vsv.take(a + 1 as int).flat_map(pw));
            }
            a += 1;
        }
        proof {
            assert(vsv.take(vsv.len() as int) =~= vsv);
        }
        out
    }
}

/// Co-groups two keyed datasets through one partitioning: each side is
/// shuffled with the grouping aggregator and partition `i` pairs, key by
/// key, the left buckets with the right buckets.
pub fn cogroup<K: Key, V: Data, W: Data, R1: Rdd<(K, V)>, R2: Rdd<(K, W)>, P: Partitioner<K>>(
    a: R1,
    b: R2,
    context: &mut Context,
    part_a: P,
    part_b: P,
) -> (r: CoGroupedRdd<K, V, W, R1, R2, P>)
    requires
        a.wf(),
        b.wf(),
        part_a.wf(),
        part_b.wf(),
        part_a.num_partitions_spec() == part_b.num_partitions_spec(),
        forall|k: K::V| part_a.partition_spec(k) == part_b.partition_spec(k),
        old(context).rdd_ids_minted() + 3 <= usize::MAX,
        old(context).shuffle_ids_minted() + 2 <= usize::MAX,
    ensures
        r.wf(),
        r.s1.parent == a,
        r.s2.parent == b,
        r.s1.part == part_a,
        r.s2.part == part_b,
        r.s1.aggregator == GroupOp,
        r.s2.aggregator == GroupOp,
        final(context).rdd_ids_minted() == old(context).rdd_ids_minted() + 3,
        final(context).shuffle_ids_minted() == old(context).shuffle_ids_minted() + 2,
{
    let s1 = ShuffledRdd::new(a, context, GroupOp, part_a);
    let s2 = ShuffledRdd::new(b, context, GroupOp, part_b);
    CoGroupedRdd::new(s1, s2, context)
}

/// Joins two keyed datasets over `num_splits` hash partitions: cogroup
/// followed by the cross product of each key's buckets. Fails with
/// `PartitionerArityError` when `num_splits` is zero.
pub fn join<K: Key, V: Data, W: Data, R1: Rdd<(K, V)>, R2: Rdd<(K, W)>>(
    a: R1,
    b: R2,
    context: &mut Context,
    num_splits: usize,
) -> (r: Result<
    FlatMappedValuesRdd<
        K,
        (Vec<V>, Vec<W>),
        (V, W),
        CoGroupedRdd<K, V, W, R1, R2, HashPartitioner<K>>,
        ProductOp,
    >,
    RddError,
>)
    requires
        a.wf(),
        b.wf(),
        old(context).rdd_ids_minted() + 4 <= usize::MAX,
        old(context).shuffle_ids_minted() + 2 <= usize::MAX,
    ensures
        match r {
            Ok(j) => {
                &&& num_splits >= 1
                &&& j.wf()
                &&& j.prev.s1.parent == a
                &&& j.prev.s2.parent == b
                &&& j.f == ProductOp
                &&& final(context).rdd_ids_minted() == old(context).rdd_ids_minted() + 4
                &&& final(context).shuffle_ids_minted() == old(context).shuffle_ids_minted() + 2
            },
            Err(e) => {
                &&& e == RddError::PartitionerArityError
                &&& num_splits == 0
                &&& *final(context) == *old(context)
            },
        },
{
    let part_a = match HashPartitioner::<K>::new(num_splits) {
        Ok(p) => p,
        Err(e) => {
            return Err(e);
        },
    };
    let part_b = match HashPartitioner::<K>::new(num_splits) {
        Ok(p) => p,
        Err(e) => {
            proof {
                assert(false);
            }
            return Err(e);
        },
    };
    let same = part_a.equals(&part_b);
    proof {
        assert(same);
    }
    let cg = cogroup(a, b, context, part_a, part_b);
    Ok(FlatMappedValuesRdd::new(cg, context, ProductOp))
}

} // verus!
