use vstd::prelude::*;

verus! {

/// The failure kinds the engine surfaces. Construction-time user errors
/// (`BadSliceCount`, `PartitionerArityError`) fail fast; `FetchFailed`
/// identifies one shuffle block whose per-block retry budget ran out and is
/// retriable at the scheduler level; the remaining kinds are fatal to the
/// task or process that hits them.
#[derive(Debug, Clone, Copy, PartialEq, Eq, Structural)]
pub enum RddError {
    /// Missing local IP or a bad host table.
    ConfigError,
    /// A parallel collection was asked for fewer than one slice.
    BadSliceCount,
    /// A partitioner was constructed over zero partitions.
    PartitionerArityError,
    /// An RDD's `compute` was handed a split minted by a different RDD.
    SplitTypeMismatch,
    /// One shuffle block could not be fetched within its retry budget.
    FetchFailed { shuffle_id: usize, map_index: usize, reduce_index: usize },
    /// A shuffle block's bytes did not decode.
    SerializationError,
    /// Disk or network trouble outside the shuffle fetch path; a failed
    /// bind is fatal to the worker.
    IoError,
    /// No working directory could be chosen for the shuffle store.
    LocalDirUnavailable,
    /// A first element was asked of a dataset that holds no records.
    EmptyCollection,
}

impl RddError {
    /// A short stable name for the error kind, for reporting.
    pub fn describe(&self) -> (s: &'static str)
        ensures
            s@.len() > 0,
    {
        let r: &'static str = match self {
            RddError::ConfigError => "config error",
            RddError::BadSliceCount => "number of slices must be at least 1",
            RddError::PartitionerArityError => "partitioner needs at least 1 partition",
            RddError::SplitTypeMismatch => "split from a different rdd",
            RddError::FetchFailed { .. } => "shuffle fetch failed",
            RddError::SerializationError => "shuffle block did not decode",
            RddError::IoError => "disk or network error",
            RddError::LocalDirUnavailable => "no shuffle directory could be created",
            RddError::EmptyCollection => "the dataset holds no records",
        };
        proof {
            reveal_strlit("config error");
            reveal_strlit("number of slices must be at least 1");
            reveal_strlit("partitioner needs at least 1 partition");
            reveal_strlit("split from a different rdd");
            reveal_strlit("shuffle fetch failed");
            reveal_strlit("shuffle block did not decode");
            reveal_strlit("disk or network error");
            reveal_strlit("no shuffle directory could be created");
            reveal_strlit("the dataset holds no records");
        }
        r
    }
}

} // verus!
