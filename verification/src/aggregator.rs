use vstd::prelude::*;

use crate::data::Data;

verus! {

/// A user function a pair RDD maps over whole records or over values.
/// Implementors carry any captured state; the behaviour is pinned down by
/// `apply_spec` over the record views.
pub trait MapOp<V: Data, U: Data> {
    /// What the function returns, as a function of the argument's view.
    spec fn apply_spec(&self, v: V::V) -> U::V;

    fn apply(&self, v: &V) -> (r: U)
        ensures
            r.deep_view() == self.apply_spec(v.deep_view()),
    ;
}

/// A user function that turns one record into a sequence of records,
/// order preserved.
pub trait FlatMapOp<V: Data, U: Data> {
    /// The sequence the function returns, as a function of the argument's view.
    spec fn apply_spec(&self, v: V::V) -> Seq<U::V>;

    fn apply(&self, v: &V) -> (r: Vec<U>)
        ensures
            r.deep_view() == self.apply_spec(v.deep_view()),
    ;
}

/// The reduce-side half of an aggregator: an associative merge of two
/// combiners. Associativity is an obligation every implementor proves; it
/// is what makes the final per-key value independent of how map-side and
/// reduce-side merges are bracketed.
pub trait MergeOp<C: Data> {
    /// What merging two combiners yields, over the combiner views.
    spec fn merge_combiners_spec(&self, a: C::V, b: C::V) -> C::V;

    /// Whether the merge is also commutative. Only a commutative merge
    /// makes the output independent of the order map blocks arrive in.
    spec fn commutative(&self) -> bool;

    fn merge_combiners(&self, a: C, b: C) -> (r: C)
        ensures
            r.deep_view() == self.merge_combiners_spec(a.deep_view(), b.deep_view()),
    ;

    proof fn merge_combiners_assoc(&self, a: C::V, b: C::V, c: C::V)
        ensures
            self.merge_combiners_spec(self.merge_combiners_spec(a, b), c)
                == self.merge_combiners_spec(a, self.merge_combiners_spec(b, c)),
    ;

    proof fn merge_combiners_comm(&self, a: C::V, b: C::V)
        requires
            self.commutative(),
        ensures
            self.merge_combiners_spec(a, b) == self.merge_combiners_spec(b, a),
    ;
}

/// The aggregator triple `(create_combiner, merge_value, merge_combiners)`.
/// Implementors prove the combiner law, which is what lets map-side
/// pre-aggregation stand in for feeding every value to the reduce side.
pub trait CombineOp<V: Data, C: Data>: MergeOp<C> {
    /// The combiner a first value for a key starts.
    spec fn create_spec(&self, v: V::V) -> C::V;

    /// What folding one more value into a combiner yields.
    spec fn merge_value_spec(&self, c: C::V, v: V::V) -> C::V;

    fn create_combiner(&self, v: &V) -> (c: C)
        ensures
            c.deep_view() == self.create_spec(v.deep_view()),
    ;

    fn merge_value(&self, c: C, v: &V) -> (r: C)
        ensures
            r.deep_view() == self.merge_value_spec(c.deep_view(), v.deep_view()),
    ;

    /// The combiner law: `merge_value(c, v) == merge_combiners(c, create_combiner(v))`.
    proof fn combiner_law(&self, c: C::V, v: V::V)
        ensures
            self.merge_value_spec(c, v) == self.merge_combiners_spec(c, self.create_spec(v)),
    ;
}

/// The merge of `op`, as a spec-level function: one shared name, so every
/// contract that speaks about merging speaks about the same function.
pub open spec fn mc_of<C: Data, OP: MergeOp<C>>(op: &OP) -> spec_fn(C::V, C::V) -> C::V {
    |a: C::V, b: C::V| op.merge_combiners_spec(a, b)
}

/// The combiner constructor of `op`, as a spec-level function.
pub open spec fn create_of<V: Data, C: Data, OP: CombineOp<V, C>>(op: &OP) -> spec_fn(V::V) -> C::V {
    |v: V::V| op.create_spec(v)
}

/// The value fold of `op`, as a spec-level function.
pub open spec fn mv_of<V: Data, C: Data, OP: CombineOp<V, C>>(op: &OP) -> spec_fn(
    C::V,
    V::V,
) -> C::V {
    |c: C::V, v: V::V| op.merge_value_spec(c, v)
}

/// The record expansion of a flat-map `f`, as a spec-level function.
pub open spec fn fm_of<V: Data, U: Data, F: FlatMapOp<V, U>>(f: &F) -> spec_fn(V::V) -> Seq<
    U::V,
> {
    |v: V::V| f.apply_spec(v)
}

/// The composition `second ∘ first` of two map functions, as a map
/// function itself.
pub struct ComposeOp<U, F, G> {
    pub first: F,
    pub second: G,
    pub _marker: core::marker::PhantomData<U>,
}

impl<V: Data, U: Data, W: Data, F: MapOp<V, U>, G: MapOp<U, W>> MapOp<V, W> for ComposeOp<
    U,
    F,
    G,
> {
    open spec fn apply_spec(&self, v: V::V) -> W::V {
        self.second.apply_spec(self.first.apply_spec(v))
    }

    fn apply(&self, v: &V) -> (r: W)
        ensures
            r.deep_view() == <ComposeOp<U, F, G> as MapOp<V, W>>::apply_spec(self, v.deep_view()),
    {
        let u = self.first.apply(v);
        self.second.apply(&u)
    }
}

/// Sums `u64` values with wrapping addition; the aggregator behind
/// `reduce_by_key` with `+`. Wrapping addition is associative and
/// commutative, so this op tolerates any fetch order.
pub struct AddU64Op;

impl MergeOp<u64> for AddU64Op {
    open spec fn merge_combiners_spec(&self, a: u64, b: u64) -> u64 {
        vstd::wrapping::u64_specs::wrapping_add(a, b)
    }

    open spec fn commutative(&self) -> bool {
        true
    }

    fn merge_combiners(&self, a: u64, b: u64) -> u64 {
        a.wrapping_add(b)
    }

    proof fn merge_combiners_assoc(&self, a: u64, b: u64, c: u64) {
    }

    proof fn merge_combiners_comm(&self, a: u64, b: u64) {
    }
}

impl CombineOp<u64, u64> for AddU64Op {
    open spec fn create_spec(&self, v: u64) -> u64 {
        v
    }

    open spec fn merge_value_spec(&self, c: u64, v: u64) -> u64 {
        vstd::wrapping::u64_specs::wrapping_add(c, v)
    }

    fn create_combiner(&self, v: &u64) -> u64 {
        *v
    }

    fn merge_value(&self, c: u64, v: &u64) -> u64 {
        c.wrapping_add(*v)
    }

    proof fn combiner_law(&self, c: u64, v: u64) {
    }
}

/// Collects every value of a key into a `Vec`, in arrival order; the
/// aggregator behind `group_by_key`. Concatenation is associative but not
/// commutative, so the grouped order reflects the merge order.
pub struct GroupOp;

impl<V: Data> MergeOp<Vec<V>> for GroupOp {
    open spec fn merge_combiners_spec(&self, a: Seq<V::V>, b: Seq<V::V>) -> Seq<V::V> {
        a + b
    }

    open spec fn commutative(&self) -> bool {
        false
    }

    fn merge_combiners(&self, a: Vec<V>, b: Vec<V>) -> (r: Vec<V>)
        ensures
            r.deep_view() == <GroupOp as MergeOp<Vec<V>>>::merge_combiners_spec(self, a.deep_view(), b.deep_view()),
    {
        let ghost goal = a.deep_view() + b.deep_view();
        let mut a = a;
        let mut b = b;
        a.append(&mut b);
        proof {
            assert(a.deep_view() =~= goal);
        }
        a
    }

    proof fn merge_combiners_assoc(&self, a: Seq<V::V>, b: Seq<V::V>, c: Seq<V::V>) {
        assert((a + b) + c =~= a + (b + c));
    }

    proof fn merge_combiners_comm(&self, a: Seq<V::V>, b: Seq<V::V>) {
    }
}

impl<V: Data> CombineOp<V, Vec<V>> for GroupOp {
    open spec fn create_spec(&self, v: V::V) -> Seq<V::V> {
        seq![v]
    }

    open spec fn merge_value_spec(&self, c: Seq<V::V>, v: V::V) -> Seq<V::V> {
        c.push(v)
    }

    fn create_combiner(&self, v: &V) -> (c: Vec<V>)
        ensures
            c.deep_view() == <GroupOp as CombineOp<V, Vec<V>>>::create_spec(
                self,
                v.deep_view(),
            ),
    {
        let mut c: Vec<V> = Vec::new();
        c.push(v.dup());
        proof {
            assert(c.deep_view() =~= seq![v.deep_view()]);
        }
        c
    }

    fn merge_value(&self, c: Vec<V>, v: &V) -> (r: Vec<V>)
        ensures
            r.deep_view() == <GroupOp as CombineOp<V, Vec<V>>>::merge_value_spec(
                self,
                c.deep_view(),
                v.deep_view(),
            ),
    {
        let ghost pre = c.deep_view();
        let mut c = c;
        c.push(v.dup());
        proof {
            assert(c.deep_view() =~= pre.push(v.deep_view()));
        }
        c
    }

    proof fn combiner_law(&self, c: Seq<V::V>, v: V::V) {
        assert(c.push(v) =~= c + seq![v]);
    }
}


/// The length a prefix-range expansion of `i` has: `i` when positive,
/// nothing otherwise.
pub open spec fn range_len(i: i32) -> nat {
    if i > 0 {
        i as nat
    } else {
        0
    }
}

/// Maps an integer `i` to the vector `[0, 1, ..., i - 1]` (empty when `i`
/// is not positive): the record function of the ranged driver example.
pub struct RangeVecOp;

impl MapOp<i32, Vec<i32>> for RangeVecOp {
    open spec fn apply_spec(&self, v: i32) -> Seq<i32> {
        Seq::new(range_len(v), |j: int| j as i32)
    }

    fn apply(&self, v: &i32) -> (r: Vec<i32>)
        ensures
            r.deep_view() == <RangeVecOp as MapOp<i32, Vec<i32>>>::apply_spec(self, *v),
    {
        let mut out: Vec<i32> = Vec::new();
        let n: i32 = if *v > 0 {
            *v
        } else {
            0
        };
        let mut j: i32 = 0;
        proof {
            assert(out@ =~= Seq::new(0, |t: int| t as i32));
        }
        while j < n
            invariant
                0 <= j <= n,
                n == range_len(*v),
                out@ == Seq::new(j as nat, |t: int| t as i32),
            decreases n - j,
        {
            let ghost pre = out@;
            out.push(j);
            proof {
                assert(out@ =~= Seq::new((j + 1) as nat, |t: int| t as i32));
            }
            j += 1;
        }
        proof {
            assert(out.deep_view() =~= out@);
        }
        out
    }
}

/// Maps a vector to its length; composable after `RangeVecOp`, so the
/// fusion law has a concrete pair of functions to speak about.
pub struct VecLenOp;

impl MapOp<Vec<i32>, u64> for VecLenOp {
    open spec fn apply_spec(&self, v: Seq<i32>) -> u64 {
        v.len() as u64
    }

    fn apply(&self, v: &Vec<i32>) -> (r: u64)
        ensures
            r == <VecLenOp as MapOp<Vec<i32>, u64>>::apply_spec(self, v.deep_view()),
    {
        v.len() as u64
    }
}

} // verus!
