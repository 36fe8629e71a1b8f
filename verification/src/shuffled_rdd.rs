use vstd::prelude::*;

use crate::aggregator::{create_of, mc_of, mv_of, CombineOp, MergeOp};
use crate::context::{Context, Dependency, RddVals};
use crate::data::Data;
use crate::partitioner::{Key, Partitioner};
use crate::rdd::{BasicSplit, Rdd, Split};
use core::marker::PhantomData;

verus! {

/// Whether the table holds an entry for key `k`.
pub open spec fn table_has_key<KV, CV>(t: Seq<(KV, CV)>, k: KV) -> bool {
    exists|i: int| 0 <= i < t.len() && t[i].0 == k
}

/// The (unique, given `table_wf`) position of key `k` in the table.
pub open spec fn table_index_of<KV, CV>(t: Seq<(KV, CV)>, k: KV) -> int {
    choose|i: int| 0 <= i < t.len() && t[i].0 == k
}

/// The combiner the table holds for key `k`, if any.
pub open spec fn table_lookup<KV, CV>(t: Seq<(KV, CV)>, k: KV) -> Option<CV> {
    if table_has_key(t, k) {
        Some(t[table_index_of(t, k)].1)
    } else {
        None
    }
}

/// A well-formed table holds each key at most once.
pub open spec fn table_wf<KV, CV>(t: Seq<(KV, CV)>) -> bool {
    forall|i: int, j: int| 0 <= i < j < t.len() ==> (#[trigger] t[i]).0 != (#[trigger] t[j]).0
}

/// Merging one `(key, combiner)` pair into the table: an absent key is
/// appended, a present key's combiner is replaced by `mc(existing, c)`.
pub open spec fn table_merge_one<KV, CV>(
    t: Seq<(KV, CV)>,
    k: KV,
    c: CV,
    mc: spec_fn(CV, CV) -> CV,
) -> Seq<(KV, CV)> {
    if table_has_key(t, k) {
        let i = table_index_of(t, k);
        t.update(i, (k, mc(t[i].1, c)))
    } else {
        t.push((k, c))
    }
}

/// Merging a block of `(key, combiner)` pairs, front first.
pub open spec fn table_merge_pairs<KV, CV>(
    t: Seq<(KV, CV)>,
    pairs: Seq<(KV, CV)>,
    mc: spec_fn(CV, CV) -> CV,
) -> Seq<(KV, CV)>
    decreases pairs.len(),
{
    if pairs.len() == 0 {
        t
    } else {
        table_merge_pairs(table_merge_one(t, pairs[0].0, pairs[0].1, mc), pairs.drop_first(), mc)
    }
}

/// Folding one raw `(key, value)` pair into the table: an absent key
/// starts a fresh combiner with `create(v)`, a present key's combiner
/// becomes `mv(existing, v)`.
pub open spec fn table_merge_value_one<KV, VV, CV>(
    t: Seq<(KV, CV)>,
    k: KV,
    v: VV,
    create: spec_fn(VV) -> CV,
    mv: spec_fn(CV, VV) -> CV,
) -> Seq<(KV, CV)> {
    if table_has_key(t, k) {
        let i = table_index_of(t, k);
        t.update(i, (k, mv(t[i].1, v)))
    } else {
        t.push((k, create(v)))
    }
}

/// Folding a sequence of raw `(key, value)` pairs, front first: the
/// map-side pre-aggregation of one bucket.
pub open spec fn table_merge_values<KV, VV, CV>(
    t: Seq<(KV, CV)>,
    pairs: Seq<(KV, VV)>,
    create: spec_fn(VV) -> CV,
    mv: spec_fn(CV, VV) -> CV,
) -> Seq<(KV, CV)>
    decreases pairs.len(),
{
    if pairs.len() == 0 {
        t
    } else {
        table_merge_values(
            table_merge_value_one(t, pairs[0].0, pairs[0].1, create, mv),
            pairs.drop_first(),
            create,
            mv,
        )
    }
}

/// Merging keeps the table well formed and never drops a key.
pub proof fn lemma_table_merge_one_wf<KV, CV>(t: Seq<(KV, CV)>, k: KV, c: CV, mc: spec_fn(CV, CV) -> CV)
    requires
        table_wf(t),
    ensures
        table_wf(table_merge_one(t, k, c, mc)),
{
}

/// Folding one value keeps the table well formed.
pub proof fn lemma_table_merge_value_one_wf<KV, VV, CV>(
    t: Seq<(KV, CV)>,
    k: KV,
    v: VV,
    create: spec_fn(VV) -> CV,
    mv: spec_fn(CV, VV) -> CV,
)
    requires
        table_wf(t),
    ensures
        table_wf(table_merge_value_one(t, k, v, create, mv)),
{
}

/// An in-memory map from keys to combiners, kept as an association vector
/// whose keys are distinct; insertion order of first arrivals is the
/// traversal order. The reduce side of a shuffle builds one per partition.
pub struct CombinerTable<K: Key, C: Data> {
    pub entries: Vec<(K, C)>,
}

impl<K: Key, C: Data> CombinerTable<K, C> {
    /// The table's mathematical content: its `(key, combiner)` views in order.
    pub open spec fn view_spec(&self) -> Seq<(K::V, C::V)> {
        self.entries.deep_view()
    }

    pub open spec fn wf(&self) -> bool {
        table_wf(self.view_spec())
    }

    pub fn new() -> (r: Self)
        ensures
            r.wf(),
            r.view_spec() == Seq::<(K::V, C::V)>::empty(),
    {
        let entries: Vec<(K, C)> = Vec::new();
        proof {
            assert(entries.deep_view() =~= Seq::<(K::V, C::V)>::empty());
        }
        CombinerTable { entries }
    }

    /// Where key `k` sits in the table, if it is there.
    fn find(&self, k: &K) -> (r: Option<usize>)
        requires
            self.wf(),
        ensures
            match r {
                Some(i) => i < self.view_spec().len() && self.view_spec()[i as int].0
                    == k.deep_view() && i == table_index_of(self.view_spec(), k.deep_view()),
                None => !table_has_key(self.view_spec(), k.deep_view()),
            },
    {
        let mut i: usize = 0;
        while i < self.entries.len()
            invariant
                self.wf(),
                i <= self.entries@.len(),
                forall|j: int| 0 <= j < i ==> (#[trigger] self.view_spec()[j]).0 != k.deep_view(),
            decreases self.entries@.len() - i,
        {
            if self.entries[i].0.key_eq(k) {
                proof {
                    let ghost t = self.view_spec();
                    let ghost ci = table_index_of(t, k.deep_view());
                    assert(t[i as int].0 == k.deep_view());
                    assert(table_has_key(t, k.deep_view()));
                    assert(0 <= ci < t.len() && t[ci].0 == k.deep_view());
                    assert(ci == i as int);
                }
                return Some(i);
            }
            i += 1;
        }
        None
    }

    /// The reduce-side step: merge one already-combined pair into the table
    /// with `merge_combiners`.
    pub fn merge_combined<OP: MergeOp<C>>(&mut self, k: K, c: C, op: &OP)
        requires
            old(self).wf(),
        ensures
            final(self).wf(),
            final(self).view_spec() == table_merge_one(
                old(self).view_spec(),
                k.deep_view(),
                c.deep_view(),
                mc_of(op),
            ),
    {
        proof {
            lemma_table_merge_one_wf(self.view_spec(), k.deep_view(), c.deep_view(), mc_of(op));
        }
        let found = self.find(&k);
        match found {
            Some(i) => {
                let ghost pre = self.view_spec();
                let (k0, c0) = self.entries.remove(i);
                let merged = op.merge_combiners(c0, c);
                self.entries.insert(i, (k0, merged));
                proof {
                    assert(self.view_spec() =~= pre.update(
                        i as int,
                        (k.deep_view(), mc_of(op)(pre[i as int].1, c.deep_view())),
                    ));
                }
            },
            None => {
                let ghost pre = self.view_spec();
                self.entries.push((k, c));
                proof {
                    assert(self.view_spec() =~= pre.push((k.deep_view(), c.deep_view())));
                }
            },
        }
    }

    /// The reduce-side loop: merge a whole fetched block, preserving the
    /// block's order.
    pub fn merge_block<OP: MergeOp<C>>(&mut self, block: Vec<(K, C)>, op: &OP)
        requires
            old(self).wf(),
        ensures
            final(self).wf(),
            final(self).view_spec() == table_merge_pairs(
                old(self).view_spec(),
                block.deep_view(),
                mc_of(op),
            ),
    {
        let ghost all = block.deep_view();
        let total = block.len();
        let mut block = block;
        let mut idx: usize = 0;
        proof {
            assert(all.skip(0) =~= all);
        }
        while block.len() > 0
            invariant
                self.wf(),
                all.len() == total,
                idx + block@.len() == all.len(),
                block.deep_view() =~= all.skip(idx as int),
                table_merge_pairs(self.view_spec(), block.deep_view(), mc_of(op))
                    == table_merge_pairs(old(self).view_spec(), all, mc_of(op)),
            decreases block@.len(),
        {
            let ghost before = block.deep_view();
            let (k, c) = block.remove(0);
            proof {
                assert(block.deep_view() =~= before.drop_first());
                assert((k.deep_view(), c.deep_view()) == before[0]);
                assert(before.drop_first() =~= all.skip(idx + 1));
            }
            self.merge_combined(k, c, op);
            idx += 1;
        }
        proof {
            assert(block.deep_view() =~= Seq::<(K::V, C::V)>::empty());
        }
    }

    /// The map-side step: fold one raw `(key, value)` pair into the table
    /// with `create_combiner` / `merge_value`.
    pub fn merge_value_entry<V: Data, OP: CombineOp<V, C>>(&mut self, k: K, v: &V, op: &OP)
        requires
            old(self).wf(),
        ensures
            final(self).wf(),
            final(self).view_spec() == table_merge_value_one(
                old(self).view_spec(),
                k.deep_view(),
                v.deep_view(),
                create_of(op),
                mv_of(op),
            ),
    {
        proof {
            lemma_table_merge_value_one_wf(
                self.view_spec(),
                k.deep_view(),
                v.deep_view(),
                create_of(op),
                mv_of(op),
            );
        }
        let found = self.find(&k);
        match found {
            Some(i) => {
                let ghost pre = self.view_spec();
                let (k0, c0) = self.entries.remove(i);
                let merged = op.merge_value(c0, v);
                self.entries.insert(i, (k0, merged));
                proof {
                    assert(self.view_spec() =~= pre.update(
                        i as int,
                        (k.deep_view(), mv_of(op)(pre[i as int].1, v.deep_view())),
                    ));
                }
            },
            None => {
                let ghost pre = self.view_spec();
                let c = op.create_combiner(v);
                self.entries.push((k, c));
                proof {
                    assert(self.view_spec() =~= pre.push(
                        (k.deep_view(), create_of(op)(v.deep_view())),
                    ));
                }
            },
        }
    }

    /// Hands the table's entries out, in traversal order.
    pub fn into_entries(self) -> (r: Vec<(K, C)>)
        ensures
            r.deep_view() == self.view_spec(),
    {
        self.entries
    }
}


/// Appending one pair to a merged block folds that pair last.
pub proof fn lemma_table_merge_pairs_snoc<KV, CV>(
    t: Seq<(KV, CV)>,
    pairs: Seq<(KV, CV)>,
    x: (KV, CV),
    mc: spec_fn(CV, CV) -> CV,
)
    ensures
        table_merge_pairs(t, pairs.push(x), mc) == table_merge_one(
            table_merge_pairs(t, pairs, mc),
            x.0,
            x.1,
            mc,
        ),
    decreases pairs.len(),
{
    if pairs.len() == 0 {
        assert(pairs.push(x)[0] == x);
        assert(pairs.push(x).drop_first() =~= Seq::<(KV, CV)>::empty());
        assert(table_merge_pairs(t, pairs.push(x), mc) == table_merge_pairs(
            table_merge_one(t, x.0, x.1, mc),
            Seq::<(KV, CV)>::empty(),
            mc,
        ));
        assert(table_merge_pairs(table_merge_one(t, x.0, x.1, mc), Seq::<(KV, CV)>::empty(), mc)
            == table_merge_one(t, x.0, x.1, mc));
        assert(table_merge_pairs(t, pairs, mc) == t);
    } else {
        assert(pairs.push(x)[0] == pairs[0]);
        assert(pairs.push(x).drop_first() =~= pairs.drop_first().push(x));
        assert(table_merge_pairs(t, pairs.push(x), mc) == table_merge_pairs(
            table_merge_one(t, pairs[0].0, pairs[0].1, mc),
            pairs.drop_first().push(x),
            mc,
        ));
        lemma_table_merge_pairs_snoc(
            table_merge_one(t, pairs[0].0, pairs[0].1, mc),
            pairs.drop_first(),
            x,
            mc,
        );
        assert(table_merge_pairs(t, pairs, mc) == table_merge_pairs(
            table_merge_one(t, pairs[0].0, pairs[0].1, mc),
            pairs.drop_first(),
            mc,
        ));
    }
}

/// Merging a concatenation of blocks merges the blocks in turn.
pub proof fn lemma_table_merge_pairs_concat<KV, CV>(
    t: Seq<(KV, CV)>,
    a: Seq<(KV, CV)>,
    b: Seq<(KV, CV)>,
    mc: spec_fn(CV, CV) -> CV,
)
    ensures
        table_merge_pairs(t, a + b, mc) == table_merge_pairs(table_merge_pairs(t, a, mc), b, mc),
    decreases a.len(),
{
    if a.len() == 0 {
        assert(a + b =~= b);
        assert(table_merge_pairs(t, a, mc) == t);
    } else {
        assert((a + b)[0] == a[0]);
        assert((a + b).len() > 0);
        assert((a + b).drop_first() =~= a.drop_first() + b);
        assert(table_merge_pairs(t, a + b, mc) == table_merge_pairs(
            table_merge_one(t, a[0].0, a[0].1, mc),
            a.drop_first() + b,
            mc,
        ));
        lemma_table_merge_pairs_concat(
            table_merge_one(t, a[0].0, a[0].1, mc),
            a.drop_first(),
            b,
            mc,
        );
        assert(table_merge_pairs(t, a, mc) == table_merge_pairs(
            table_merge_one(t, a[0].0, a[0].1, mc),
            a.drop_first(),
            mc,
        ));
    }
}

/// Appending one raw pair to a folded bucket folds that pair last.
pub proof fn lemma_table_merge_values_snoc<KV, VV, CV>(
    t: Seq<(KV, CV)>,
    pairs: Seq<(KV, VV)>,
    x: (KV, VV),
    create: spec_fn(VV) -> CV,
    mv: spec_fn(CV, VV) -> CV,
)
    ensures
        table_merge_values(t, pairs.push(x), create, mv) == table_merge_value_one(
            table_merge_values(t, pairs, create, mv),
            x.0,
            x.1,
            create,
            mv,
        ),
    decreases pairs.len(),
{
    if pairs.len() == 0 {
        assert(pairs.push(x)[0] == x);
        assert(pairs.push(x).drop_first() =~= Seq::<(KV, VV)>::empty());
        assert(table_merge_values(t, pairs.push(x), create, mv) == table_merge_values(
            table_merge_value_one(t, x.0, x.1, create, mv),
            Seq::<(KV, VV)>::empty(),
            create,
            mv,
        ));
        assert(table_merge_values(
            table_merge_value_one(t, x.0, x.1, create, mv),
            Seq::<(KV, VV)>::empty(),
            create,
            mv,
        ) == table_merge_value_one(t, x.0, x.1, create, mv));
        assert(table_merge_values(t, pairs, create, mv) == t);
    } else {
        assert(pairs.push(x)[0] == pairs[0]);
        assert(pairs.push(x).drop_first() =~= pairs.drop_first().push(x));
        assert(table_merge_values(t, pairs.push(x), create, mv) == table_merge_values(
            table_merge_value_one(t, pairs[0].0, pairs[0].1, create, mv),
            pairs.drop_first().push(x),
            create,
            mv,
        ));
        lemma_table_merge_values_snoc(
            table_merge_value_one(t, pairs[0].0, pairs[0].1, create, mv),
            pairs.drop_first(),
            x,
            create,
            mv,
        );
        assert(table_merge_values(t, pairs, create, mv) == table_merge_values(
            table_merge_value_one(t, pairs[0].0, pairs[0].1, create, mv),
            pairs.drop_first(),
            create,
            mv,
        ));
    }
}

/// Filtering one element alone keeps or drops it.
pub proof fn lemma_filter_singleton<A>(x: A, pred: spec_fn(A) -> bool)
    ensures
        seq![x].filter(pred) == if pred(x) {
            seq![x]
        } else {
            Seq::<A>::empty()
        },
{
    reveal_with_fuel(Seq::<int>::filter, 2);
    let s = seq![x];
    assert(s.drop_last() =~= Seq::<A>::empty());
    assert(s.drop_last().filter(pred) == Seq::<A>::empty().filter(pred));
    assert(Seq::<A>::empty().filter(pred) == Seq::<A>::empty());
    assert(s.last() == x);
    if pred(x) {
        assert(s.filter(pred) =~= seq![x]);
    }
}

/// The synthetic split of a shuffled RDD: pure identity, no payload.
#[derive(Debug, Clone, Copy, PartialEq, Eq, Structural)]
pub struct ShuffledRddSplit {
    pub index: usize,
}

impl ShuffledRddSplit {
    pub fn new(index: usize) -> (r: Self)
        ensures
            r.index == index,
    {
        ShuffledRddSplit { index }
    }
}

impl Split for ShuffledRddSplit {
    open spec fn index_spec(&self) -> int {
        self.index as int
    }

    fn get_index(&self) -> usize {
        self.index
    }
}

/// The records the partitioner `part` routes to reduce partition `i`.
pub open spec fn routed_to<K: Key, VV, P: Partitioner<K>>(part: P, i: int) -> spec_fn(
    (K::V, VV),
) -> bool {
    |p: (K::V, VV)| part.partition_spec(p.0) == i
}

/// The shuffle boundary: repartitions a keyed parent by `part` and folds
/// every key's values into one combiner with the aggregator. Partition `i`
/// of this RDD holds one `(key, combiner)` pair for every key of the
/// parent that `part` routes to `i`.
pub struct ShuffledRdd<
    K: Key,
    V: Data,
    C: Data,
    RT: Rdd<(K, V)>,
    P: Partitioner<K>,
    OP: CombineOp<V, C>,
> {
    pub parent: RT,
    pub aggregator: OP,
    pub vals: RddVals,
    pub part: P,
    pub shuffle_id: usize,
    pub _marker: PhantomData<(K, V, C)>,
}

impl<
    K: Key,
    V: Data,
    C: Data,
    RT: Rdd<(K, V)>,
    P: Partitioner<K>,
    OP: CombineOp<V, C>,
> ShuffledRdd<K, V, C, RT, P, OP> {
    /// The bucket map task `j` produces for reduce partition `i`: the
    /// parent partition's records routed to `i`, pre-aggregated per key.
    pub open spec fn map_block_spec(&self, j: int, i: int) -> Seq<(K::V, C::V)> {
        table_merge_values(
            Seq::empty(),
            self.parent.parts()[j].filter(routed_to(self.part, i)),
            create_of(&self.aggregator),
            mv_of(&self.aggregator),
        )
    }

    /// Everything reduce partition `i` consumes: every map task's bucket
    /// for `i`, in map order.
    pub open spec fn reduce_input_spec(&self, i: int) -> Seq<(K::V, C::V)> {
        crate::rdd::all_records(
            Seq::new(self.parent.parts().len(), |j: int| self.map_block_spec(j, i)),
        )
    }

    /// What reduce partition `i` holds: its input merged per key with
    /// `merge_combiners`, keys in first-arrival order.
    pub open spec fn reduce_output_spec(&self, i: int) -> Seq<(K::V, C::V)> {
        table_merge_pairs(Seq::empty(), self.reduce_input_spec(i), mc_of(&self.aggregator))
    }

    /// Allocates a fresh shuffle id from the session and records a shuffle
    /// dependency carrying it and the parent.
    pub fn new(parent: RT, context: &mut Context, aggregator: OP, part: P) -> (r: Self)
        requires
            parent.wf(),
            part.wf(),
            old(context).can_mint(),
        ensures
            r.wf(),
            r.parent == parent,
            r.part == part,
            r.aggregator == aggregator,
            r.rdd_id_spec() == old(context).rdd_ids_minted(),
            r.shuffle_id == old(context).shuffle_ids_minted(),
            r.deps_spec() == seq![
                Dependency::Shuffle {
                    shuffle_id: old(context).shuffle_ids_minted() as usize,
                    parent_rdd_id: parent.rdd_id_spec() as usize,
                },
            ],
            final(context).rdd_ids_minted() == old(context).rdd_ids_minted() + 1,
            final(context).shuffle_ids_minted() == old(context).shuffle_ids_minted() + 1,
    {
        let parent_id = parent.get_rdd_id();
        let mut vals = RddVals::new(context);
        let shuffle_id = context.new_shuffle_id();
        vals.dependencies.push(Dependency::Shuffle { shuffle_id, parent_rdd_id: parent_id });
        proof {
            assert(vals.dependencies@ =~= seq![
                Dependency::Shuffle { shuffle_id, parent_rdd_id: parent_id },
            ]);
        }
        ShuffledRdd { parent, aggregator, vals, part, shuffle_id, _marker: PhantomData }
    }

    /// The partitioner this RDD is laid out by: always present after a
    /// shuffle.
    pub fn partitioner(&self) -> (r: &P)
        ensures
            r == &self.part,
    {
        &self.part
    }
}

impl<
    K: Key,
    V: Data,
    C: Data,
    RT: Rdd<(K, V)>,
    P: Partitioner<K>,
    OP: CombineOp<V, C>,
> Rdd<(K, C)> for ShuffledRdd<K, V, C, RT, P, OP> {
    open spec fn wf(&self) -> bool {
        self.parent.wf() && self.part.wf()
    }

    open spec fn parts(&self) -> Seq<Seq<(K::V, C::V)>> {
        Seq::new(self.part.num_partitions_spec() as nat, |i: int| self.reduce_output_spec(i))
    }

    open spec fn rdd_id_spec(&self) -> int {
        self.vals.id as int
    }

    open spec fn deps_spec(&self) -> Seq<Dependency> {
        self.vals.dependencies@
    }

    fn get_rdd_id(&self) -> usize {
        self.vals.id
    }

    fn get_dependencies(&self) -> (d: Vec<Dependency>)
        ensures
            d@ == self.deps_spec(),
    {
        self.vals.dependencies.clone()
    }

    fn number_of_splits(&self) -> usize {
        self.part.get_num_of_partitions()
    }

    /// Evaluates the shuffle in place: produces each parent partition's
    /// bucket for this reduce partition and merges the buckets in map
    /// order with `merge_combiners` — the same merge a worker performs on
    /// buckets fetched over HTTP (`ShuffleFetcher::merge_fetched_blocks`).
    fn compute(&self, split: &BasicSplit) -> (r: Vec<(K, C)>)
        ensures
            r.deep_view() == self.parts()[split.index_spec()],
    {
        let i = split.index;
        let ghost ii = i as int;
        let mut table = CombinerTable::<K, C>::new();
        let m = self.parent.number_of_splits();
        let pid = self.parent.get_rdd_id();
        let mut j: usize = 0;
        proof {
            self.part.num_partitions_pos();
            assert(self.parts().len() == self.part.num_partitions_spec() as nat);
            assert(Seq::new(0, |jj: int| self.map_block_spec(jj, ii))
                =~= Seq::<Seq<(K::V, C::V)>>::empty());
        }
        while j < m
            invariant
                self.wf(),
                ii == i as int,
                0 <= ii < self.part.num_partitions_spec(),
                m == self.parent.parts().len(),
                j <= m,
                table.wf(),
                table.view_spec() == table_merge_pairs(
                    Seq::<(K::V, C::V)>::empty(),
                    crate::rdd::all_records(
                        Seq::new(j as nat, |jj: int| self.map_block_spec(jj, ii)),
                    ),
                    mc_of(&self.aggregator),
                ),
            decreases m - j,
        {
            let parent_part = self.parent.compute(&BasicSplit { rdd_id: pid, index: j });
            let ghost part_view = parent_part.deep_view();
            let mut bucket = CombinerTable::<K, C>::new();
            let mut t: usize = 0;
            proof {
                assert(part_view.take(0).filter(routed_to(self.part, ii))
                    =~= Seq::<(K::V, V::V)>::empty());
                assert(part_view.take(0) =~= Seq::<(K::V, V::V)>::empty());
            }
            while t < parent_part.len()
                invariant
                    self.wf(),
                    ii == i as int,
                    0 <= ii < self.part.num_partitions_spec(),
                    t <= parent_part@.len(),
                    part_view == parent_part.deep_view(),
                    bucket.wf(),
                    bucket.view_spec() == table_merge_values(
                        Seq::<(K::V, C::V)>::empty(),
                        part_view.take(t as int).filter(routed_to(self.part, ii)),
                        create_of(&self.aggregator),
                        mv_of(&self.aggregator),
                    ),
                decreases parent_part@.len() - t,
            {
                let pair = &parent_part[t];
                let ghost pv: (K::V, V::V) = part_view[t as int];
                let ghost rt = routed_to::<K, V::V, P>(self.part, ii);
                let ghost taken = part_view.take(t as int).filter(rt);
                proof {
                    assert(pv == (pair.0.deep_view(), pair.1.deep_view()));
                    assert(part_view.take(t as int) + seq![pv] =~= part_view.take(t + 1 as int));
                    Seq::filter_distributes_over_add(part_view.take(t as int), seq![pv], rt);
                    lemma_filter_singleton(pv, rt);
                    assert(part_view.take(t + 1 as int).filter(rt) == taken + seq![pv].filter(rt));
                }
                let route = self.part.get_partition(&pair.0);
                proof {
                    assert(route as int == self.part.partition_spec(pair.0.deep_view()));
                    assert(pv.0 == pair.0.deep_view());
                }
                if route == i {
                    proof {
                        assert(rt(pv) == (self.part.partition_spec(pv.0) == ii));
                        assert(rt(pv));
                    }
                    let k = pair.0.dup();
                    bucket.merge_value_entry(k, &pair.1, &self.aggregator);
                    proof {
                        lemma_table_merge_values_snoc(
                            Seq::<(K::V, C::V)>::empty(),
                            taken,
                            pv,
                            create_of(&self.aggregator),
                            mv_of(&self.aggregator),
                        );
                        assert(taken.push(pv) =~= taken + seq![pv]);
                        assert(part_view.take(t + 1 as int).filter(rt) == taken.push(pv));
                    }
                } else {
                    proof {
                        assert(rt(pv) == (self.part.partition_spec(pv.0) == ii));
                        assert(!rt(pv));
                        assert(taken + Seq::<(K::V, V::V)>::empty() =~= taken);
                        assert(part_view.take(t + 1 as int).filter(rt) == taken);
                    }
                }
                t += 1;
            }
            proof {
                assert(part_view.take(part_view.len() as int) =~= part_view);
                assert(bucket.view_spec() == self.map_block_spec(j as int, ii));
            }
            let ghost prefix = crate::rdd::all_records(
                Seq::new(j as nat, |jj: int| self.map_block_spec(jj, ii)),
            );
            let ghost block_view = bucket.view_spec();
            let block = bucket.into_entries();
            table.merge_block(block, &self.aggregator);
            proof {
                lemma_table_merge_pairs_concat(
                    Seq::<(K::V, C::V)>::empty(),
                    prefix,
                    block_view,
                    mc_of(&self.aggregator),
                );
                let ghost next = Seq::new((j + 1) as nat, |jj: int| self.map_block_spec(jj, ii));
                assert(next.drop_last() =~= Seq::new(j as nat, |jj: int| self.map_block_spec(jj, ii)));
                assert(next.last() == self.map_block_spec(j as int, ii));
                assert(crate::rdd::all_records(next) == prefix + block_view);
            }
            j += 1;
        }
        proof {
            assert(Seq::new(m as nat, |jj: int| self.map_block_spec(jj, ii))
                =~= Seq::new(self.parent.parts().len(), |jj: int| self.map_block_spec(jj, ii)));
            assert(table.view_spec() == self.reduce_output_spec(ii));
        }
        table.into_entries()
    }
}


/// The combiners carried for key `k` by a block of pairs, in block order.
pub open spec fn values_of<KV, CV>(pairs: Seq<(KV, CV)>, k: KV) -> Seq<CV>
    decreases pairs.len(),
{
    if pairs.len() == 0 {
        Seq::empty()
    } else {
        (if pairs[0].0 == k {
            seq![pairs[0].1]
        } else {
            Seq::empty()
        }) + values_of(pairs.drop_first(), k)
    }
}

/// Folding a stream of combiners into an optional accumulator: the first
/// combiner starts the value when the accumulator is empty, every further
/// one is merged in with `mc`, left to right.
pub open spec fn opt_fold<CV>(acc: Option<CV>, vs: Seq<CV>, mc: spec_fn(CV, CV) -> CV) -> Option<
    CV,
>
    decreases vs.len(),
{
    if vs.len() == 0 {
        acc
    } else {
        opt_fold(
            Some(
                match acc {
                    Some(a) => mc(a, vs[0]),
                    None => vs[0],
                },
            ),
            vs.drop_first(),
            mc,
        )
    }
}

/// A key is carried by a block exactly when `values_of` finds something.
pub proof fn lemma_values_of_nonempty<KV, CV>(pairs: Seq<(KV, CV)>, k: KV)
    ensures
        values_of(pairs, k).len() > 0 <==> exists|idx: int|
            0 <= idx < pairs.len() && pairs[idx].0 == k,
    decreases pairs.len(),
{
    if pairs.len() == 0 {
    } else {
        lemma_values_of_nonempty(pairs.drop_first(), k);
        if pairs[0].0 == k {
            assert(pairs[0].0 == k && 0 < pairs.len());
        } else {
            if values_of(pairs.drop_first(), k).len() > 0 {
                let idx = choose|idx: int|
                    0 <= idx < pairs.drop_first().len() && pairs.drop_first()[idx].0 == k;
                assert(pairs[idx + 1].0 == k);
            } else {
                assert forall|idx: int| 0 <= idx < pairs.len() implies (#[trigger] pairs[idx]).0
                    != k by {
                    if idx > 0 {
                        assert(pairs.drop_first()[idx - 1] == pairs[idx]);
                    }
                }
            }
        }
    }
}

/// A started fold stays started.
pub proof fn lemma_opt_fold_some<CV>(a: CV, vs: Seq<CV>, mc: spec_fn(CV, CV) -> CV)
    ensures
        opt_fold(Some(a), vs, mc) is Some,
    decreases vs.len(),
{
    if vs.len() == 0 {
    } else {
        lemma_opt_fold_some(mc(a, vs[0]), vs.drop_first(), mc);
    }
}

/// Merging one pair changes the table at that pair's key alone: a present
/// key's combiner becomes `mc(existing, c)`, an absent key's becomes `c`.
pub proof fn lemma_table_merge_one_lookup<KV, CV>(
    t: Seq<(KV, CV)>,
    k: KV,
    c: CV,
    mc: spec_fn(CV, CV) -> CV,
    k2: KV,
)
    requires
        table_wf(t),
    ensures
        table_lookup(table_merge_one(t, k, c, mc), k2) == if k2 == k {
            match table_lookup(t, k) {
                Some(c0) => Some(mc(c0, c)),
                None => Some(c),
            }
        } else {
            table_lookup(t, k2)
        },
{
    let out = table_merge_one(t, k, c, mc);
    if table_has_key(t, k) {
        let i = table_index_of(t, k);
        assert(0 <= i < t.len() && t[i].0 == k);
        if k2 == k {
            assert(out[i].0 == k2);
            assert(table_has_key(out, k2));
            let i2 = table_index_of(out, k2);
            assert(0 <= i2 < out.len() && out[i2].0 == k2);
            assert(i2 == i);
        } else {
            if table_has_key(t, k2) {
                let j = table_index_of(t, k2);
                assert(out[j] == t[j]);
                assert(table_has_key(out, k2));
                let j2 = table_index_of(out, k2);
                assert(out[j2].0 == k2);
                assert(j2 != i);
                assert(j2 == j);
            } else {
                assert(forall|j: int| 0 <= j < out.len() ==> (#[trigger] out[j]).0 != k2);
            }
        }
    } else {
        assert(forall|j: int| 0 <= j < t.len() ==> (#[trigger] t[j]).0 != k);
        if k2 == k {
            assert(out[t.len() as int].0 == k2);
            assert(table_has_key(out, k2));
            let i2 = table_index_of(out, k2);
            assert(out[i2].0 == k2);
            assert(i2 == t.len() as int);
        } else {
            if table_has_key(t, k2) {
                let j = table_index_of(t, k2);
                assert(out[j] == t[j]);
                assert(table_has_key(out, k2));
                let j2 = table_index_of(out, k2);
                assert(out[j2].0 == k2);
                assert(j2 == j);
            } else {
                assert(forall|j: int| 0 <= j < out.len() ==> (#[trigger] out[j]).0 != k2);
            }
        }
    }
}

/// The per-key meaning of merging a whole block: what the table then
/// holds for `k` is the left-to-right fold of the combiners the block
/// carries for `k`, on top of what the table held before.
pub proof fn lemma_table_merge_pairs_lookup<KV, CV>(
    t: Seq<(KV, CV)>,
    pairs: Seq<(KV, CV)>,
    mc: spec_fn(CV, CV) -> CV,
    k: KV,
)
    requires
        table_wf(t),
    ensures
        table_wf(table_merge_pairs(t, pairs, mc)),
        table_lookup(table_merge_pairs(t, pairs, mc), k) == opt_fold(
            table_lookup(t, k),
            values_of(pairs, k),
            mc,
        ),
    decreases pairs.len(),
{
    if pairs.len() == 0 {
    } else {
        let k0 = pairs[0].0;
        let c0 = pairs[0].1;
        let t1 = table_merge_one(t, k0, c0, mc);
        lemma_table_merge_one_wf(t, k0, c0, mc);
        lemma_table_merge_pairs_lookup(t1, pairs.drop_first(), mc, k);
        lemma_table_merge_one_lookup(t, k0, c0, mc, k);
        if k0 == k {
            let rest = values_of(pairs.drop_first(), k);
            assert(values_of(pairs, k) == seq![c0] + rest);
            assert((seq![c0] + rest)[0] == c0);
            assert((seq![c0] + rest).drop_first() =~= rest);
            assert(opt_fold(table_lookup(t, k), values_of(pairs, k), mc) == opt_fold(
                Some(
                    match table_lookup(t, k) {
                        Some(a) => mc(a, c0),
                        None => c0,
                    },
                ),
                rest,
                mc,
            ));
        } else {
            assert(values_of(pairs, k) =~= values_of(pairs.drop_first(), k));
        }
    }
}

/// Whether any pair of a stream carries key `k`.
pub open spec fn stream_has_key<KV, CV>(pairs: Seq<(KV, CV)>, k: KV) -> bool {
    exists|idx: int| 0 <= idx < pairs.len() && pairs[idx].0 == k
}

/// Whether the table or the stream merged into it carries key `k`.
pub open spec fn merged_has_key<KV, CV>(t: Seq<(KV, CV)>, pairs: Seq<(KV, CV)>, k: KV) -> bool {
    table_has_key(t, k) || stream_has_key(pairs, k)
}

/// A merged table holds exactly the keys of what was merged into it.
pub proof fn lemma_table_merge_pairs_keys<KV, CV>(
    t: Seq<(KV, CV)>,
    pairs: Seq<(KV, CV)>,
    mc: spec_fn(CV, CV) -> CV,
    k: KV,
)
    requires
        table_wf(t),
    ensures
        table_has_key(table_merge_pairs(t, pairs, mc), k) == merged_has_key(t, pairs, k),
{
    lemma_table_merge_pairs_lookup(t, pairs, mc, k);
    lemma_values_of_nonempty(pairs, k);
    let acc = table_lookup(t, k);
    let vs = values_of(pairs, k);
    match acc {
        Some(a) => {
            lemma_opt_fold_some(a, vs, mc);
        },
        None => {
            if vs.len() > 0 {
                assert(opt_fold(acc, vs, mc) == opt_fold(Some(vs[0]), vs.drop_first(), mc));
                lemma_opt_fold_some(vs[0], vs.drop_first(), mc);
            }
        },
    }
}


/// Folding one raw pair changes the key set by at most that pair's key.
pub proof fn lemma_table_merge_value_one_keys<KV, VV, CV>(
    t: Seq<(KV, CV)>,
    k0: KV,
    v0: VV,
    create: spec_fn(VV) -> CV,
    mv: spec_fn(CV, VV) -> CV,
    k: KV,
)
    requires
        table_wf(t),
    ensures
        table_has_key(table_merge_value_one(t, k0, v0, create, mv), k) == (table_has_key(t, k) || k
            == k0),
{
    let out = table_merge_value_one(t, k0, v0, create, mv);
    if table_has_key(t, k0) {
        let i = table_index_of(t, k0);
        assert(0 <= i < t.len() && t[i].0 == k0);
        assert(forall|j: int| 0 <= j < t.len() ==> (#[trigger] out[j]).0 == t[j].0);
        if table_has_key(t, k) {
            let w = table_index_of(t, k);
            assert(out[w].0 == k);
        }
        if k == k0 {
            assert(out[i].0 == k);
        }
        if table_has_key(out, k) {
            let w = table_index_of(out, k);
            assert(t[w].0 == k);
        }
    } else {
        assert(out[t.len() as int].0 == k0);
        if table_has_key(t, k) {
            let w = table_index_of(t, k);
            assert(out[w].0 == k);
        }
        if k == k0 {
            assert(out[t.len() as int].0 == k);
        }
        if table_has_key(out, k) && !(k == k0) {
            let w = table_index_of(out, k);
            assert(w < t.len());
            assert(t[w].0 == k);
        }
    }
}

/// A stream carries a key exactly when its head or its tail does.
pub proof fn lemma_stream_has_key_step<KV, CV>(pairs: Seq<(KV, CV)>, k: KV)
    requires
        pairs.len() > 0,
    ensures
        stream_has_key(pairs, k) == (pairs[0].0 == k || stream_has_key(pairs.drop_first(), k)),
{
    if stream_has_key(pairs.drop_first(), k) {
        let idx = choose|idx: int|
            0 <= idx < pairs.drop_first().len() && pairs.drop_first()[idx].0 == k;
        assert(pairs[idx + 1].0 == k);
    }
    if stream_has_key(pairs, k) && !(pairs[0].0 == k) {
        let idx = choose|idx: int| 0 <= idx < pairs.len() && pairs[idx].0 == k;
        assert(idx > 0);
        assert(pairs.drop_first()[idx - 1].0 == k);
    }
}

/// A bucket built by map-side pre-aggregation holds exactly the keys of
/// the raw pairs folded into it (and of the table it started from).
pub proof fn lemma_table_merge_values_keys<KV, VV, CV>(
    t: Seq<(KV, CV)>,
    pairs: Seq<(KV, VV)>,
    create: spec_fn(VV) -> CV,
    mv: spec_fn(CV, VV) -> CV,
    k: KV,
)
    requires
        table_wf(t),
    ensures
        table_wf(table_merge_values(t, pairs, create, mv)),
        table_has_key(table_merge_values(t, pairs, create, mv), k) == (table_has_key(t, k)
            || stream_has_key(pairs, k)),
    decreases pairs.len(),
{
    if pairs.len() == 0 {
        if stream_has_key(pairs, k) {
            let idx = choose|idx: int| 0 <= idx < pairs.len() && pairs[idx].0 == k;
            assert(false);
        }
    } else {
        let t1 = table_merge_value_one(t, pairs[0].0, pairs[0].1, create, mv);
        lemma_table_merge_value_one_wf(t, pairs[0].0, pairs[0].1, create, mv);
        lemma_table_merge_value_one_keys(t, pairs[0].0, pairs[0].1, create, mv, k);
        lemma_table_merge_values_keys(t1, pairs.drop_first(), create, mv, k);
        lemma_stream_has_key_step(pairs, k);
    }
}

/// A concatenation of streams carries a key exactly when one part does.
pub proof fn lemma_stream_has_key_concat<KV, CV>(a: Seq<(KV, CV)>, b: Seq<(KV, CV)>, k: KV)
    ensures
        stream_has_key(a + b, k) == (stream_has_key(a, k) || stream_has_key(b, k)),
{
    if stream_has_key(a, k) {
        let idx = choose|idx: int| 0 <= idx < a.len() && a[idx].0 == k;
        assert((a + b)[idx].0 == k);
    }
    if stream_has_key(b, k) {
        let idx = choose|idx: int| 0 <= idx < b.len() && b[idx].0 == k;
        assert((a + b)[a.len() + idx].0 == k);
    }
    if stream_has_key(a + b, k) {
        let idx = choose|idx: int| 0 <= idx < (a + b).len() && (a + b)[idx].0 == k;
        if idx < a.len() {
            assert(a[idx].0 == k);
        } else {
            assert(b[idx - a.len()].0 == k);
        }
    }
}

/// The concatenation of all blocks carries a key exactly when some block
/// does.
pub proof fn lemma_all_records_has_key<KV, CV>(blocks: Seq<Seq<(KV, CV)>>, k: KV)
    ensures
        stream_has_key(crate::rdd::all_records(blocks), k) == (exists|j: int|
            0 <= j < blocks.len() && stream_has_key(#[trigger] blocks[j], k)),
    decreases blocks.len(),
{
    if blocks.len() == 0 {
        if stream_has_key(crate::rdd::all_records(blocks), k) {
            let idx = choose|idx: int|
                0 <= idx < crate::rdd::all_records(blocks).len()
                    && crate::rdd::all_records(blocks)[idx].0 == k;
            assert(false);
        }
    } else {
        lemma_all_records_has_key(blocks.drop_last(), k);
        lemma_stream_has_key_concat(
            crate::rdd::all_records(blocks.drop_last()),
            blocks.last(),
            k,
        );
        if exists|j: int| 0 <= j < blocks.drop_last().len() && stream_has_key(
            #[trigger] blocks.drop_last()[j],
            k,
        ) {
            let j = choose|j: int|
                0 <= j < blocks.drop_last().len() && stream_has_key(
                    #[trigger] blocks.drop_last()[j],
                    k,
                );
            assert(blocks[j] == blocks.drop_last()[j]);
            assert(stream_has_key(blocks[j], k));
        }
        if exists|j: int| 0 <= j < blocks.len() && stream_has_key(#[trigger] blocks[j], k) {
            let j = choose|j: int|
                0 <= j < blocks.len() && stream_has_key(#[trigger] blocks[j], k);
            if j < blocks.len() - 1 {
                assert(blocks.drop_last()[j] == blocks[j]);
            } else {
                assert(blocks.last() == blocks[j]);
            }
        }
    }
}

/// A filtered partition carries a key exactly when the partition holds a
/// record with that key that the predicate keeps.
pub proof fn lemma_filter_stream_has_key<KV, VV>(
    part: Seq<(KV, VV)>,
    pred: spec_fn((KV, VV)) -> bool,
    k: KV,
)
    requires
        forall|p: (KV, VV), q: (KV, VV)| p.0 == q.0 ==> #[trigger] pred(p) == #[trigger] pred(q),
    ensures
        stream_has_key(part.filter(pred), k) == (exists|t: int|
            0 <= t < part.len() && (#[trigger] part[t]).0 == k && pred(part[t])),
    decreases part.len(),
{
    reveal_with_fuel(Seq::<int>::filter, 1);
    if part.len() == 0 {
        if stream_has_key(part.filter(pred), k) {
            let idx = choose|idx: int|
                0 <= idx < part.filter(pred).len() && part.filter(pred)[idx].0 == k;
            assert(false);
        }
    } else {
        lemma_filter_stream_has_key(part.drop_last(), pred, k);
        let fr = part.drop_last().filter(pred);
        if pred(part.last()) {
            assert(part.filter(pred) == fr.push(part.last()));
            lemma_stream_has_key_concat(fr, seq![part.last()], k);
            assert(fr.push(part.last()) =~= fr + seq![part.last()]);
            if part.last().0 == k {
                assert(seq![part.last()][0].0 == k);
                assert(stream_has_key(seq![part.last()], k));
            } else {
                if stream_has_key(seq![part.last()], k) {
                    let idx = choose|idx: int|
                        0 <= idx < 1 && seq![part.last()][idx].0 == k;
                    assert(false);
                }
            }
        } else {
            assert(part.filter(pred) == fr);
        }
        if exists|t: int| 0 <= t < part.drop_last().len() && (#[trigger] part.drop_last()[t]).0
            == k && pred(part.drop_last()[t]) {
            let t = choose|t: int|
                0 <= t < part.drop_last().len() && (#[trigger] part.drop_last()[t]).0 == k && pred(
                    part.drop_last()[t],
                );
            assert(part[t] == part.drop_last()[t]);
            assert(part[t].0 == k && pred(part[t]));
        }
        if exists|t: int| 0 <= t < part.len() && (#[trigger] part[t]).0 == k && pred(part[t]) {
            let t = choose|t: int|
                0 <= t < part.len() && (#[trigger] part[t]).0 == k && pred(part[t]);
            if t < part.len() - 1 {
                assert(part.drop_last()[t] == part[t]);
            }
        }
    }
}


impl<
    K: Key,
    V: Data,
    C: Data,
    RT: Rdd<(K, V)>,
    P: Partitioner<K>,
    OP: CombineOp<V, C>,
> ShuffledRdd<K, V, C, RT, P, OP> {
    /// Whether any record of any parent partition carries key `k`.
    pub open spec fn parent_carries(&self, k: K::V) -> bool {
        exists|j: int, t: int|
            0 <= j < self.parent.parts().len() && 0 <= t < self.parent.parts()[j].len() && (
            #[trigger] self.parent.parts()[j][t]).0 == k
    }

    /// What reduce partition `i` holds for key `k`: exactly the
    /// left-to-right `merge_combiners` fold of the combiners its input
    /// carries for `k`, or nothing when the input carries none.
    pub proof fn lemma_partition_value_is_fold(&self, i: int, k: K::V)
        requires
            0 <= i < self.part.num_partitions_spec(),
        ensures
            table_lookup(self.parts()[i], k) == opt_fold(
                None,
                values_of(self.reduce_input_spec(i), k),
                mc_of(&self.aggregator),
            ),
    {
        let empty_t = Seq::<(K::V, C::V)>::empty();
        lemma_table_merge_pairs_lookup(
            empty_t,
            self.reduce_input_spec(i),
            mc_of(&self.aggregator),
            k,
        );
        if table_has_key(empty_t, k) {
            let w = table_index_of(empty_t, k);
            assert(false);
        }
    }

    /// The routing law of the shuffle: reduce partition `i` holds an entry
    /// for key `k` exactly when some parent record carries `k` and the
    /// partitioner routes `k` to `i` — `compute(i)` sees exactly the
    /// parent's records routed to `i`, and no others.
    pub proof fn lemma_partition_holds_exactly_routed_keys(&self, i: int, k: K::V)
        requires
            0 <= i < self.part.num_partitions_spec(),
        ensures
            table_has_key(self.parts()[i], k) == (self.part.partition_spec(k) == i
                && self.parent_carries(k)),
    {
        let rt = routed_to::<K, V::V, P>(self.part, i);
        let m = self.parent.parts().len();
        let blocks = Seq::new(m, |j: int| self.map_block_spec(j, i));
        let empty_t = Seq::<(K::V, C::V)>::empty();
        assert(self.parts()[i] == self.reduce_output_spec(i));
        lemma_table_merge_pairs_keys(
            empty_t,
            self.reduce_input_spec(i),
            mc_of(&self.aggregator),
            k,
        );
        if table_has_key(empty_t, k) {
            let w = table_index_of(empty_t, k);
            assert(false);
        }
        lemma_all_records_has_key(blocks, k);
        assert forall|p: (K::V, V::V), q: (K::V, V::V)| p.0 == q.0 implies #[trigger] rt(p)
            == #[trigger] rt(q) by {
            assert(rt(p) == (self.part.partition_spec(p.0) == i));
            assert(rt(q) == (self.part.partition_spec(q.0) == i));
        }
        assert forall|j: int| 0 <= j < m implies stream_has_key(#[trigger] blocks[j], k) == (
        self.part.partition_spec(k) == i && exists|t: int|
            0 <= t < self.parent.parts()[j].len() && (#[trigger] self.parent.parts()[j][t]).0
                == k) by {
            let part_j = self.parent.parts()[j];
            lemma_table_merge_values_keys(
                empty_t,
                part_j.filter(rt),
                create_of(&self.aggregator),
                mv_of(&self.aggregator),
                k,
            );
            if table_has_key(empty_t, k) {
                let w = table_index_of(empty_t, k);
                assert(false);
            }
            lemma_filter_stream_has_key(part_j, rt, k);
            assert(blocks[j] == self.map_block_spec(j, i));
            assert(stream_has_key(blocks[j], k) == table_has_key(blocks[j], k));
            if exists|t: int| 0 <= t < part_j.len() && (#[trigger] part_j[t]).0 == k && rt(
                part_j[t],
            ) {
                let t = choose|t: int|
                    0 <= t < part_j.len() && (#[trigger] part_j[t]).0 == k && rt(part_j[t]);
                assert(rt(part_j[t]) == (self.part.partition_spec(k) == i));
            }
            if self.part.partition_spec(k) == i && exists|t: int|
                0 <= t < part_j.len() && (#[trigger] part_j[t]).0 == k {
                let t = choose|t: int| 0 <= t < part_j.len() && (#[trigger] part_j[t]).0 == k;
                assert(rt(part_j[t]) == (self.part.partition_spec(k) == i));
                assert(part_j[t].0 == k && rt(part_j[t]));
            }
        }
        if exists|j: int| 0 <= j < blocks.len() && stream_has_key(#[trigger] blocks[j], k) {
            let j = choose|j: int| 0 <= j < blocks.len() && stream_has_key(#[trigger] blocks[j], k);
            assert(self.part.partition_spec(k) == i);
            let t = choose|t: int|
                0 <= t < self.parent.parts()[j].len() && (#[trigger] self.parent.parts()[j][t]).0
                    == k;
            assert(self.parent_carries(k));
        }
        if self.part.partition_spec(k) == i && self.parent_carries(k) {
            let (j, t) = choose|j: int, t: int|
                0 <= j < self.parent.parts().len() && 0 <= t < self.parent.parts()[j].len() && (
                #[trigger] self.parent.parts()[j][t]).0 == k;
            assert(stream_has_key(blocks[j], k));
        }
    }
}


/// The order blocks arrive in cannot change which keys the reduce side
/// ends up holding: merging `a` then `b` and merging `b` then `a` yield
/// tables over exactly the same keys, for any merge function. (Which
/// combiner a key ends with is in general sensitive to the arrival order
/// of that key's pairs unless the merge is also commutative.)
pub proof fn lemma_merge_keys_order_independent<KV, CV>(
    a: Seq<(KV, CV)>,
    b: Seq<(KV, CV)>,
    mc: spec_fn(CV, CV) -> CV,
    k: KV,
)
    ensures
        table_has_key(table_merge_pairs(Seq::<(KV, CV)>::empty(), a + b, mc), k) == table_has_key(
            table_merge_pairs(Seq::<(KV, CV)>::empty(), b + a, mc),
            k,
        ),
{
    let empty_t = Seq::<(KV, CV)>::empty();
    lemma_table_merge_pairs_keys(empty_t, a + b, mc, k);
    lemma_table_merge_pairs_keys(empty_t, b + a, mc, k);
    lemma_stream_has_key_concat(a, b, k);
    lemma_stream_has_key_concat(b, a, k);
    if table_has_key(empty_t, k) {
        let w = table_index_of(empty_t, k);
        assert(false);
    }
}


/// One cogroup entry for a key the left side contributes: its left bucket
/// together with the right side's bucket for the same key, or an empty one.
pub open spec fn cogroup_left_entry<KV, VV, WV>(t2: Seq<(KV, Seq<WV>)>, p: (KV, Seq<VV>)) -> (
    KV,
    (Seq<VV>, Seq<WV>),
) {
    (
        p.0,
        (
            p.1,
            match table_lookup(t2, p.0) {
                Some(ws) => ws,
                None => Seq::empty(),
            },
        ),
    )
}

/// The keys a table does not hold, as a predicate on another table's pairs.
pub open spec fn absent_in<KV, VV, WV>(t1: Seq<(KV, Seq<VV>)>) -> spec_fn((KV, Seq<WV>)) -> bool {
    |q: (KV, Seq<WV>)| !table_has_key(t1, q.0)
}

/// One cogroup entry for a key only the right side contributes.
pub open spec fn cogroup_right_entry<KV, VV, WV>() -> spec_fn((KV, Seq<WV>)) -> (
    KV,
    (Seq<VV>, Seq<WV>),
) {
    |q: (KV, Seq<WV>)| (q.0, (Seq::<VV>::empty(), q.1))
}

/// The cogroup of two grouped tables: first every key of the left table,
/// in its order, each with the right table's bucket attached (or empty);
/// then every key only the right table holds, in its order, with an empty
/// left bucket.
pub open spec fn cogroup_spec<KV, VV, WV>(t1: Seq<(KV, Seq<VV>)>, t2: Seq<(KV, Seq<WV>)>) -> Seq<
    (KV, (Seq<VV>, Seq<WV>)),
> {
    t1.map_values(|p: (KV, Seq<VV>)| cogroup_left_entry(t2, p)) + t2.filter(
        absent_in::<KV, VV, WV>(t1),
    ).map_values(cogroup_right_entry::<KV, VV, WV>())
}

/// Looks a key up in an association vector with distinct keys; a hit hands
/// out a copy of the stored record.
pub fn assoc_lookup<K: Key, C: Data>(entries: &Vec<(K, C)>, k: &K) -> (r: Option<C>)
    requires
        table_wf(entries.deep_view()),
    ensures
        match r {
            Some(c) => table_lookup(entries.deep_view(), k.deep_view()) == Some(c.deep_view()),
            None => !table_has_key(entries.deep_view(), k.deep_view()),
        },
{
    let ghost t = entries.deep_view();
    let mut i: usize = 0;
    while i < entries.len()
        invariant
            t == entries.deep_view(),
            table_wf(t),
            i <= entries@.len(),
            forall|j: int| 0 <= j < i ==> (#[trigger] t[j]).0 != k.deep_view(),
        decreases entries@.len() - i,
    {
        if entries[i].0.key_eq(k) {
            proof {
                let ghost ci = table_index_of(t, k.deep_view());
                assert(t[i as int].0 == k.deep_view());
                assert(table_has_key(t, k.deep_view()));
                assert(0 <= ci < t.len() && t[ci].0 == k.deep_view());
                assert(ci == i as int);
            }
            return Some(entries[i].1.dup());
        }
        i += 1;
    }
    None
}


/// Splitting a pair stream splits each key's combiner stream.
pub proof fn lemma_values_of_concat<KV, CV>(a: Seq<(KV, CV)>, b: Seq<(KV, CV)>, k: KV)
    ensures
        values_of(a + b, k) == values_of(a, k) + values_of(b, k),
    decreases a.len(),
{
    if a.len() == 0 {
        assert(a + b =~= b);
        assert(values_of(a, k) =~= Seq::<CV>::empty());
        assert(Seq::<CV>::empty() + values_of(b, k) =~= values_of(b, k));
    } else {
        assert((a + b)[0] == a[0]);
        assert((a + b).len() > 0);
        assert((a + b).drop_first() =~= a.drop_first() + b);
        lemma_values_of_concat(a.drop_first(), b, k);
        if a[0].0 == k {
            assert(values_of(a + b, k) == seq![a[0].1] + (values_of(a.drop_first(), k)
                + values_of(b, k)));
            assert(seq![a[0].1] + (values_of(a.drop_first(), k) + values_of(b, k)) =~= (seq![
                a[0].1,
            ] + values_of(a.drop_first(), k)) + values_of(b, k));
        } else {
            assert(values_of(a + b, k) == Seq::<CV>::empty() + (values_of(a.drop_first(), k)
                + values_of(b, k)));
            assert(Seq::<CV>::empty() + (values_of(a.drop_first(), k) + values_of(b, k)) =~= (
            Seq::<CV>::empty() + values_of(a.drop_first(), k)) + values_of(b, k));
        }
    }
}

/// Folding a concatenation folds the halves in turn.
pub proof fn lemma_opt_fold_concat<CV>(
    acc: Option<CV>,
    u: Seq<CV>,
    v: Seq<CV>,
    mc: spec_fn(CV, CV) -> CV,
)
    ensures
        opt_fold(acc, u + v, mc) == opt_fold(opt_fold(acc, u, mc), v, mc),
    decreases u.len(),
{
    if u.len() == 0 {
        assert(u + v =~= v);
    } else {
        assert((u + v)[0] == u[0]);
        assert((u + v).len() > 0);
        assert((u + v).drop_first() =~= u.drop_first() + v);
        let acc1 = Some(
            match acc {
                Some(x) => mc(x, u[0]),
                None => u[0],
            },
        );
        lemma_opt_fold_concat(acc1, u.drop_first(), v, mc);
    }
}

/// Combining two optional combiners: either side missing leaves the other.
pub open spec fn combine_opt<CV>(x: Option<CV>, y: Option<CV>, mc: spec_fn(CV, CV) -> CV) -> Option<
    CV,
> {
    match (x, y) {
        (None, y) => y,
        (x, None) => x,
        (Some(a), Some(b)) => Some(mc(a, b)),
    }
}

/// With an associative merge, a fold from any accumulator is the
/// accumulator combined with the fold from nothing.
pub proof fn lemma_opt_fold_extract<CV>(acc: Option<CV>, vs: Seq<CV>, mc: spec_fn(CV, CV) -> CV)
    requires
        forall|x: CV, y: CV, z: CV| #[trigger] mc(mc(x, y), z) == mc(x, mc(y, z)),
    ensures
        opt_fold(acc, vs, mc) == combine_opt(acc, opt_fold(None, vs, mc), mc),
    decreases vs.len(),
{
    if vs.len() == 0 {
    } else {
        let v0 = vs[0];
        let rest = vs.drop_first();
        let fs = Some(
            match acc {
                Some(x) => mc(x, v0),
                None => v0,
            },
        );
        lemma_opt_fold_extract(fs, rest, mc);
        lemma_opt_fold_extract(Some(v0), rest, mc);
        let fr = opt_fold(None, rest, mc);
        assert(opt_fold(None, vs, mc) == opt_fold(Some(v0), rest, mc));
        match acc {
            None => {},
            Some(x) => {
                match fr {
                    None => {},
                    Some(f) => {
                        assert(mc(mc(x, v0), f) == mc(x, mc(v0, f)));
                    },
                }
            },
        }
    }
}

/// With a commutative and associative merge, folding two runs of
/// combiners gives the same value whichever run comes first.
pub proof fn lemma_opt_fold_swap<CV>(u: Seq<CV>, v: Seq<CV>, mc: spec_fn(CV, CV) -> CV)
    requires
        forall|x: CV, y: CV, z: CV| #[trigger] mc(mc(x, y), z) == mc(x, mc(y, z)),
        forall|x: CV, y: CV| #[trigger] mc(x, y) == mc(y, x),
    ensures
        opt_fold(None, u + v, mc) == opt_fold(None, v + u, mc),
{
    lemma_opt_fold_concat(None, u, v, mc);
    lemma_opt_fold_concat(None, v, u, mc);
    lemma_opt_fold_extract(opt_fold(None, u, mc), v, mc);
    lemma_opt_fold_extract(opt_fold(None, v, mc), u, mc);
    let fu = opt_fold(None, u, mc);
    let fv = opt_fold(None, v, mc);
    match (fu, fv) {
        (Some(x), Some(y)) => {
            assert(mc(x, y) == mc(y, x));
        },
        _ => {},
    }
}


/// Removing one entry from a well-formed table keeps it well formed and
/// drops the removed key entirely.
pub proof fn lemma_table_remove_wf<KV, CV>(t: Seq<(KV, CV)>, j: int)
    requires
        table_wf(t),
        0 <= j < t.len(),
    ensures
        table_wf(t.remove(j)),
        !table_has_key(t.remove(j), t[j].0),
{
    let out = t.remove(j);
    assert(forall|w: int| 0 <= w < j ==> #[trigger] out[w] == t[w]);
    assert(forall|w: int| j <= w < out.len() ==> #[trigger] out[w] == t[w + 1]);
    if table_has_key(out, t[j].0) {
        let w = table_index_of(out, t[j].0);
        assert(0 <= w < out.len() && out[w].0 == t[j].0);
        if w < j {
            assert(t[w].0 == t[j].0);
        } else {
            assert(t[w + 1].0 == t[j].0);
        }
        assert(false);
    }
}

/// Removing one entry leaves every other key's binding untouched.
pub proof fn lemma_table_remove_lookup<KV, CV>(t: Seq<(KV, CV)>, j: int, k2: KV)
    requires
        table_wf(t),
        0 <= j < t.len(),
        k2 != t[j].0,
    ensures
        table_lookup(t.remove(j), k2) == table_lookup(t, k2),
{
    let out = t.remove(j);
    assert(forall|w: int| 0 <= w < j ==> #[trigger] out[w] == t[w]);
    assert(forall|w: int| j <= w < out.len() ==> #[trigger] out[w] == t[w + 1]);
    if table_has_key(t, k2) {
        let w = table_index_of(t, k2);
        assert(0 <= w < t.len() && t[w].0 == k2);
        assert(w != j);
        if w < j {
            assert(out[w].0 == k2);
        } else {
            assert(out[w - 1] == t[w]);
            assert(out[w - 1].0 == k2);
        }
        assert(table_has_key(out, k2));
        let w2 = table_index_of(out, k2);
        assert(0 <= w2 < out.len() && out[w2].0 == k2);
        if w2 < j {
            assert(t[w2].0 == k2);
            assert(w2 == w);
            assert(out[w2].1 == t[w].1);
        } else {
            assert(t[w2 + 1].0 == k2);
            assert(w2 + 1 == w);
            assert(out[w2].1 == t[w].1);
        }
    } else {
        if table_has_key(out, k2) {
            let w = table_index_of(out, k2);
            if w < j {
                assert(t[w].0 == k2);
            } else {
                assert(t[w + 1].0 == k2);
            }
            assert(false);
        }
    }
}

/// Two well-formed tables that bind every key identically hold the same
/// multiset of `(key, combiner)` pairs.
pub proof fn lemma_table_same_content_multiset<KV, CV>(t1: Seq<(KV, CV)>, t2: Seq<(KV, CV)>)
    requires
        table_wf(t1),
        table_wf(t2),
        forall|k: KV| #[trigger] table_lookup(t1, k) == table_lookup(t2, k),
    ensures
        t1.to_multiset() == t2.to_multiset(),
    decreases t1.len(),
{
    t1.to_multiset_ensures();
    t2.to_multiset_ensures();
    if t1.len() == 0 {
        if t2.len() > 0 {
            let k = t2[0].0;
            assert(table_has_key(t2, k));
            assert(table_lookup(t1, k) == table_lookup(t2, k));
            if table_has_key(t1, k) {
                let w = table_index_of(t1, k);
                assert(false);
            }
            assert(false);
        }
        assert(t1 =~= t2);
    } else {
        let x = t1[0];
        let k = x.0;
        assert(table_has_key(t1, k));
        let i1 = table_index_of(t1, k);
        assert(0 <= i1 < t1.len() && t1[i1].0 == k);
        assert(i1 == 0);
        assert(table_lookup(t1, k) == Some(x.1));
        assert(table_lookup(t1, k) == table_lookup(t2, k));
        assert(table_has_key(t2, k));
        let j = table_index_of(t2, k);
        assert(0 <= j < t2.len() && t2[j].0 == k);
        assert(t2[j].1 == x.1);
        assert(t2[j] == x);
        let t1r = t1.remove(0);
        let t2r = t2.remove(j);
        lemma_table_remove_wf(t1, 0);
        lemma_table_remove_wf(t2, j);
        assert forall|k2: KV| #[trigger] table_lookup(t1r, k2) == table_lookup(t2r, k2) by {
            if k2 == k {
                if table_has_key(t1r, k) {
                    assert(false);
                }
                if table_has_key(t2r, k) {
                    assert(false);
                }
            } else {
                lemma_table_remove_lookup(t1, 0, k2);
                lemma_table_remove_lookup(t2, j, k2);
                assert(table_lookup(t1, k2) == table_lookup(t2, k2));
            }
        }
        lemma_table_same_content_multiset(t1r, t2r);
        assert(t1r.to_multiset() =~= t1.to_multiset().remove(x));
        assert(t2r.to_multiset() =~= t2.to_multiset().remove(x));
        assert(t1.contains(x));
        assert(t1.to_multiset().count(x) > 0);
        assert(t2[j] == x && 0 <= j < t2.len());
        assert(t2.contains(x));
        assert(t2.to_multiset().count(x) > 0);
        assert(t1.to_multiset() =~= t1.to_multiset().remove(x).insert(x));
        assert(t2.to_multiset() =~= t2.to_multiset().remove(x).insert(x));
    }
}

/// With a commutative (and associative) merge, the multiset of
/// `(key, combiner)` pairs the reduce side ends with is the same
/// whichever of two runs of fetched blocks is merged first. Without
/// commutativity only the key set is order-independent.
pub proof fn lemma_merge_order_immaterial_when_commutative<KV, CV>(
    a: Seq<(KV, CV)>,
    b: Seq<(KV, CV)>,
    mc: spec_fn(CV, CV) -> CV,
)
    requires
        forall|x: CV, y: CV, z: CV| #[trigger] mc(mc(x, y), z) == mc(x, mc(y, z)),
        forall|x: CV, y: CV| #[trigger] mc(x, y) == mc(y, x),
    ensures
        table_merge_pairs(Seq::<(KV, CV)>::empty(), a + b, mc).to_multiset() == table_merge_pairs(
            Seq::<(KV, CV)>::empty(),
            b + a,
            mc,
        ).to_multiset(),
{
    let empty_t = Seq::<(KV, CV)>::empty();
    let m1 = table_merge_pairs(empty_t, a + b, mc);
    let m2 = table_merge_pairs(empty_t, b + a, mc);
    assert forall|k: KV| #[trigger] table_lookup(m1, k) == table_lookup(m2, k) by {
        lemma_table_merge_pairs_lookup(empty_t, a + b, mc, k);
        lemma_table_merge_pairs_lookup(empty_t, b + a, mc, k);
        if table_has_key(empty_t, k) {
            let w = table_index_of(empty_t, k);
            assert(false);
        }
        lemma_values_of_concat(a, b, k);
        lemma_values_of_concat(b, a, k);
        lemma_opt_fold_swap(values_of(a, k), values_of(b, k), mc);
    }
    lemma_table_merge_pairs_lookup(empty_t, a + b, mc, arbitrary());
    lemma_table_merge_pairs_lookup(empty_t, b + a, mc, arbitrary());
    lemma_table_same_content_multiset(m1, m2);
}


/// The shuffle-level reading of the order law: for an aggregator whose
/// merge is commutative, the multiset of `(key, combiner)` pairs a reduce
/// partition ends with does not depend on which of two runs of map blocks
/// arrived first.
pub proof fn lemma_fetch_order_immaterial<K: Key, C: Data, OP: MergeOp<C>>(
    op: &OP,
    a: Seq<(K::V, C::V)>,
    b: Seq<(K::V, C::V)>,
)
    requires
        op.commutative(),
    ensures
        table_merge_pairs(Seq::<(K::V, C::V)>::empty(), a + b, mc_of(op)).to_multiset()
            == table_merge_pairs(Seq::<(K::V, C::V)>::empty(), b + a, mc_of(op)).to_multiset(),
{
    let mc = mc_of(op);
    assert forall|x: C::V, y: C::V, z: C::V| #[trigger] mc(mc(x, y), z) == mc(x, mc(y, z)) by {
        op.merge_combiners_assoc(x, y, z);
    }
    assert forall|x: C::V, y: C::V| #[trigger] mc(x, y) == mc(y, x) by {
        op.merge_combiners_comm(x, y);
    }
    lemma_merge_order_immaterial_when_commutative(a, b, mc);
}


/// One map task's bucket for reduce partition `i`: the records of one
/// parent partition that the partitioner routes to `i`, pre-aggregated per
/// key with `create_combiner` / `merge_value` in record order.
pub fn map_bucket_for<K: Key, V: Data, C: Data, P: Partitioner<K>, OP: CombineOp<V, C>>(
    pairs: &Vec<(K, V)>,
    op: &OP,
    part: &P,
    i: usize,
) -> (r: Vec<(K, C)>)
    requires
        part.wf(),
        i < part.num_partitions_spec(),
    ensures
        r.deep_view() == table_merge_values(
            Seq::<(K::V, C::V)>::empty(),
            pairs.deep_view().filter(routed_to(*part, i as int)),
            create_of(op),
            mv_of(op),
        ),
{
    let ghost ii = i as int;
    let ghost pairs_view = pairs.deep_view();
    let ghost rt = routed_to::<K, V::V, P>(*part, ii);
    let mut bucket = CombinerTable::<K, C>::new();
    let mut t: usize = 0;
    proof {
        assert(pairs_view.take(0) =~= Seq::<(K::V, V::V)>::empty());
        assert(pairs_view.take(0).filter(rt) =~= Seq::<(K::V, V::V)>::empty());
    }
    while t < pairs.len()
        invariant
            part.wf(),
            ii == i as int,
            0 <= ii < part.num_partitions_spec(),
            t <= pairs@.len(),
            pairs_view == pairs.deep_view(),
            rt == routed_to::<K, V::V, P>(*part, ii),
            bucket.wf(),
            bucket.view_spec() == table_merge_values(
                Seq::<(K::V, C::V)>::empty(),
                pairs_view.take(t as int).filter(rt),
                create_of(op),
                mv_of(op),
            ),
        decreases pairs@.len() - t,
    {
        let pair = &pairs[t];
        let ghost pv: (K::V, V::V) = pairs_view[t as int];
        let ghost taken = pairs_view.take(t as int).filter(rt);
        proof {
            assert(pv == (pair.0.deep_view(), pair.1.deep_view()));
            assert(pairs_view.take(t as int) + seq![pv] =~= pairs_view.take(t + 1 as int));
            Seq::filter_distributes_over_add(pairs_view.take(t as int), seq![pv], rt);
            lemma_filter_singleton(pv, rt);
            assert(pairs_view.take(t + 1 as int).filter(rt) == taken + seq![pv].filter(rt));
        }
        let route = part.get_partition(&pair.0);
        proof {
            assert(route as int == part.partition_spec(pair.0.deep_view()));
            assert(pv.0 == pair.0.deep_view());
            assert(rt(pv) == (part.partition_spec(pv.0) == ii));
        }
        if route == i {
            let k = pair.0.dup();
            bucket.merge_value_entry(k, &pair.1, op);
            proof {
                assert(rt(pv));
                lemma_table_merge_values_snoc(
                    Seq::<(K::V, C::V)>::empty(),
                    taken,
                    pv,
                    create_of(op),
                    mv_of(op),
                );
                assert(taken.push(pv) =~= taken + seq![pv]);
                assert(pairs_view.take(t + 1 as int).filter(rt) == taken.push(pv));
            }
        } else {
            proof {
                assert(!rt(pv));
                assert(taken + Seq::<(K::V, V::V)>::empty() =~= taken);
                assert(pairs_view.take(t + 1 as int).filter(rt) == taken);
            }
        }
        t += 1;
    }
    proof {
        assert(pairs_view.take(pairs_view.len() as int) =~= pairs_view);
    }
    bucket.into_entries()
}

/// The whole map side of one task: one pre-aggregated bucket for every
/// reduce partition, in reduce order, ready to publish into the block
/// store.
pub fn map_side_buckets<K: Key, V: Data, C: Data, P: Partitioner<K>, OP: CombineOp<V, C>>(
    pairs: &Vec<(K, V)>,
    op: &OP,
    part: &P,
) -> (r: Vec<Vec<(K, C)>>)
    requires
        part.wf(),
    ensures
        r.deep_view().len() == part.num_partitions_spec(),
        forall|i: int|
            0 <= i < r.deep_view().len() ==> (#[trigger] r.deep_view()[i]) == table_merge_values(
                Seq::<(K::V, C::V)>::empty(),
                pairs.deep_view().filter(routed_to(*part, i)),
                create_of(op),
                mv_of(op),
            ),
{
    let n = part.get_num_of_partitions();
    let mut r: Vec<Vec<(K, C)>> = Vec::new();
    let mut i: usize = 0;
    while i < n
        invariant
            part.wf(),
            n == part.num_partitions_spec(),
            i <= n,
            r.deep_view().len() == i,
            forall|j: int|
                0 <= j < i ==> (#[trigger] r.deep_view()[j]) == table_merge_values(
                    Seq::<(K::V, C::V)>::empty(),
                    pairs.deep_view().filter(routed_to(*part, j)),
                    create_of(op),
                    mv_of(op),
                ),
        decreases n - i,
    {
        let bucket = map_bucket_for(pairs, op, part, i);
        let ghost pre = r.deep_view();
        let ghost bucket_view = bucket.deep_view();
        r.push(bucket);
        proof {
            assert(r.deep_view() =~= pre.push(bucket_view));
        }
        i += 1;
    }
    r
}


/// Map-side pre-aggregation is sound: folding raw values in with
/// `create_combiner` / `merge_value` builds exactly the table that
/// handing every value over as a fresh combiner and merging with
/// `merge_combiners` would build. The combiner law is precisely what
/// makes the two agree.
pub proof fn lemma_map_side_preaggregation_sound<KV, VV, CV>(
    t: Seq<(KV, CV)>,
    pairs: Seq<(KV, VV)>,
    create: spec_fn(VV) -> CV,
    mv: spec_fn(CV, VV) -> CV,
    mc: spec_fn(CV, CV) -> CV,
)
    requires
        forall|c: CV, v: VV| #[trigger] mv(c, v) == mc(c, create(v)),
    ensures
        table_merge_values(t, pairs, create, mv) == table_merge_pairs(
            t,
            pairs.map_values(|p: (KV, VV)| (p.0, create(p.1))),
            mc,
        ),
    decreases pairs.len(),
{
    let mapped = pairs.map_values(|p: (KV, VV)| (p.0, create(p.1)));
    if pairs.len() == 0 {
        assert(mapped.len() == 0);
    } else {
        let k0 = pairs[0].0;
        let v0 = pairs[0].1;
        assert(mapped[0] == (k0, create(v0)));
        assert(table_merge_value_one(t, k0, v0, create, mv) == table_merge_one(
            t,
            k0,
            create(v0),
            mc,
        )) by {
            if table_has_key(t, k0) {
                let i = table_index_of(t, k0);
                assert(mv(t[i].1, v0) == mc(t[i].1, create(v0)));
            }
        }
        assert(mapped.drop_first() =~= pairs.drop_first().map_values(
            |p: (KV, VV)| (p.0, create(p.1)),
        ));
        lemma_map_side_preaggregation_sound(
            table_merge_value_one(t, k0, v0, create, mv),
            pairs.drop_first(),
            create,
            mv,
            mc,
        );
        assert(table_merge_pairs(t, mapped, mc) == table_merge_pairs(
            table_merge_one(t, mapped[0].0, mapped[0].1, mc),
            mapped.drop_first(),
            mc,
        ));
    }
}

/// The op-level reading: for any aggregator, pre-aggregating a bucket on
/// the map side equals shipping each value as a fresh combiner and
/// merging on the reduce side — every implementor's combiner law makes
/// it so.
pub proof fn lemma_preaggregation_sound_for<K: Key, V: Data, C: Data, OP: CombineOp<V, C>>(
    op: &OP,
    t: Seq<(K::V, C::V)>,
    pairs: Seq<(K::V, V::V)>,
)
    ensures
        table_merge_values(t, pairs, create_of(op), mv_of(op)) == table_merge_pairs(
            t,
            pairs.map_values(|p: (K::V, V::V)| (p.0, create_of(op)(p.1))),
            mc_of(op),
        ),
{
    let create = create_of(op);
    let mv = mv_of(op);
    let mc = mc_of(op);
    assert forall|c: C::V, v: V::V| #[trigger] mv(c, v) == mc(c, create(v)) by {
        op.combiner_law(c, v);
    }
    lemma_map_side_preaggregation_sound(t, pairs, create, mv, mc);
}

} // verus!
