use vstd::prelude::*;

verus! {

/// A parent link in an RDD's lineage, identifying the parent by id.
#[derive(Debug, Clone, Copy, PartialEq, Eq, Structural)]
pub enum Dependency {
    /// Child split `i` depends on parent split `i` of one parent; records
    /// stream through without any data movement.
    NarrowOneToOne { parent_rdd_id: usize },
    /// Child split `i` depends on the `i`-th bucket of every parent split,
    /// routed by a partitioner and aggregated by a combiner.
    Shuffle { shuffle_id: usize, parent_rdd_id: usize },
}

/// The driver session. It mints the monotonically unique rdd and shuffle
/// ids that every RDD and every shuffle dependency of the session carries.
pub struct Context {
    next_rdd_id: usize,
    next_shuffle_id: usize,
}

impl Context {
    /// How many rdd ids the session has handed out so far.
    pub closed spec fn rdd_ids_minted(&self) -> int {
        self.next_rdd_id as int
    }

    /// How many shuffle ids the session has handed out so far.
    pub closed spec fn shuffle_ids_minted(&self) -> int {
        self.next_shuffle_id as int
    }

    /// The counters have room for one more id.
    pub open spec fn can_mint(&self) -> bool {
        self.rdd_ids_minted() < usize::MAX && self.shuffle_ids_minted() < usize::MAX
    }

    pub fn new() -> (r: Self)
        ensures
            r.rdd_ids_minted() == 0,
            r.shuffle_ids_minted() == 0,
    {
        Context { next_rdd_id: 0, next_shuffle_id: 0 }
    }

    /// Mints the next rdd id: ids come out as 0, 1, 2, ... so each is
    /// unique within the session.
    pub fn new_rdd_id(&mut self) -> (id: usize)
        requires
            old(self).rdd_ids_minted() < usize::MAX,
        ensures
            id == old(self).rdd_ids_minted(),
            final(self).rdd_ids_minted() == old(self).rdd_ids_minted() + 1,
            final(self).shuffle_ids_minted() == old(self).shuffle_ids_minted(),
    {
        let id = self.next_rdd_id;
        self.next_rdd_id += 1;
        id
    }

    /// Mints the next shuffle id, unique within the session.
    pub fn new_shuffle_id(&mut self) -> (id: usize)
        requires
            old(self).shuffle_ids_minted() < usize::MAX,
        ensures
            id == old(self).shuffle_ids_minted(),
            final(self).shuffle_ids_minted() == old(self).shuffle_ids_minted() + 1,
            final(self).rdd_ids_minted() == old(self).rdd_ids_minted(),
    {
        let id = self.next_shuffle_id;
        self.next_shuffle_id += 1;
        id
    }
}

/// The state every RDD shares: the id its session minted for it and the
/// ordered lineage it records on its parents. Immutable once the RDD is
/// built.
pub struct RddVals {
    pub id: usize,
    pub dependencies: Vec<Dependency>,
}

impl RddVals {
    /// Mints an id from the session and starts with an empty lineage.
    pub fn new(context: &mut Context) -> (r: Self)
        requires
            old(context).rdd_ids_minted() < usize::MAX,
        ensures
            r.id == old(context).rdd_ids_minted(),
            r.dependencies@ == Seq::<Dependency>::empty(),
            final(context).rdd_ids_minted() == old(context).rdd_ids_minted() + 1,
            final(context).shuffle_ids_minted() == old(context).shuffle_ids_minted(),
    {
        let id = context.new_rdd_id();
        let deps: Vec<Dependency> = Vec::new();
        proof {
            assert(deps@ =~= Seq::<Dependency>::empty());
        }
        RddVals { id, dependencies: deps }
    }
}

} // verus!
