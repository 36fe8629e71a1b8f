use vstd::prelude::*;

use crate::data::Data;
use crate::error::RddError;
use core::marker::PhantomData;
use std::hash::Hash;
use std::hash::Hasher;

verus! {

/// The stable 64-bit digest of an `i32` key. A pure function of the key:
/// the same key hashes the same on every worker of a job.
pub uninterp spec fn stable_hash_of_i32(k: i32) -> u64;

/// The stable 64-bit digest of an `i64` key.
pub uninterp spec fn stable_hash_of_i64(k: i64) -> u64;

/// The stable 64-bit digest of a `u64` key.
pub uninterp spec fn stable_hash_of_u64(k: u64) -> u64;

/// The stable 64-bit digest of a string key, as a function of its characters.
pub uninterp spec fn stable_hash_of_str(s: Seq<char>) -> u64;

/// Relies on fasthash's `MetroHasher` (MetroHash 64, seeded with the
/// fixed default): the digest depends on the hashed bytes alone, so every
/// worker of a job computes the same value for the same key — which is
/// what lets map and reduce sides agree on a key's partition.
#[verifier::external_body]
fn metro_hash_i32(k: &i32) -> (h: u64)
    ensures
        h == stable_hash_of_i32(*k),
{
    let mut s: fasthash::MetroHasher = Default::default();
    k.hash(&mut s);
    s.finish()
}

/// Relies on fasthash's `MetroHasher`, as `metro_hash_i32` does.
#[verifier::external_body]
fn metro_hash_i64(k: &i64) -> (h: u64)
    ensures
        h == stable_hash_of_i64(*k),
{
    let mut s: fasthash::MetroHasher = Default::default();
    k.hash(&mut s);
    s.finish()
}

/// Relies on fasthash's `MetroHasher`, as `metro_hash_i32` does.
#[verifier::external_body]
fn metro_hash_u64(k: &u64) -> (h: u64)
    ensures
        h == stable_hash_of_u64(*k),
{
    let mut s: fasthash::MetroHasher = Default::default();
    k.hash(&mut s);
    s.finish()
}

/// Relies on fasthash's `MetroHasher`, as `metro_hash_i32` does; `str::hash`
/// feeds the hasher the string's bytes, so the digest is a function of the
/// characters alone.
#[verifier::external_body]
fn metro_hash_str(k: &String) -> (h: u64)
    ensures
        h == stable_hash_of_str(k@),
{
    let mut s: fasthash::MetroHasher = Default::default();
    k.as_str().hash(&mut s);
    s.finish()
}

/// A key of a pair RDD: a record with a stable hash and decidable equality,
/// both understood through the record's view.
pub trait Key: Data {
    /// The key's stable hash, as a function of its view.
    spec fn stable_hash_of(v: Self::V) -> u64;

    /// The fixed non-cryptographic 64-bit hash every worker agrees on.
    fn stable_hash(&self) -> (h: u64)
        ensures
            h == Self::stable_hash_of(self.deep_view()),
    ;

    /// Equality of keys, decided exactly on the views.
    fn key_eq(&self, other: &Self) -> (r: bool)
        ensures
            r == (self.deep_view() == other.deep_view()),
    ;
}

impl Key for i32 {
    open spec fn stable_hash_of(v: i32) -> u64 {
        stable_hash_of_i32(v)
    }

    fn stable_hash(&self) -> u64 {
        metro_hash_i32(self)
    }

    fn key_eq(&self, other: &Self) -> bool {
        *self == *other
    }
}

impl Key for i64 {
    open spec fn stable_hash_of(v: i64) -> u64 {
        stable_hash_of_i64(v)
    }

    fn stable_hash(&self) -> u64 {
        metro_hash_i64(self)
    }

    fn key_eq(&self, other: &Self) -> bool {
        *self == *other
    }
}

impl Key for u64 {
    open spec fn stable_hash_of(v: u64) -> u64 {
        stable_hash_of_u64(v)
    }

    fn stable_hash(&self) -> u64 {
        metro_hash_u64(self)
    }

    fn key_eq(&self, other: &Self) -> bool {
        *self == *other
    }
}

impl Key for String {
    open spec fn stable_hash_of(v: Seq<char>) -> u64 {
        stable_hash_of_str(v)
    }

    fn stable_hash(&self) -> u64 {
        metro_hash_str(self)
    }

    fn key_eq(&self, other: &Self) -> bool {
        self.eq(other)
    }
}

/// A total deterministic routing of keys to reduce-side partitions
/// `[0, num_partitions)`, with a defined equality: `equals` may return true
/// only for partitioners that induce the same routing on every key.
pub trait Partitioner<K: Key>: Sized {
    /// The partitioner is usable: it has at least one partition.
    spec fn wf(&self) -> bool;

    /// How many reduce-side partitions the partitioner routes into.
    spec fn num_partitions_spec(&self) -> int;

    /// The partition a key (given by its view) is routed to.
    spec fn partition_spec(&self, k: K::V) -> int;

    /// A usable partitioner routes into at least one partition.
    proof fn num_partitions_pos(&self)
        requires
            self.wf(),
        ensures
            self.num_partitions_spec() >= 1,
    ;

    fn get_num_of_partitions(&self) -> (n: usize)
        requires
            self.wf(),
        ensures
            n == self.num_partitions_spec(),
            n >= 1,
    ;

    fn get_partition(&self, key: &K) -> (i: usize)
        requires
            self.wf(),
        ensures
            i == self.partition_spec(key.deep_view()),
            0 <= i < self.num_partitions_spec(),
    ;

    fn equals(&self, other: &Self) -> (r: bool)
        ensures
            r ==> self.num_partitions_spec() == other.num_partitions_spec(),
            r ==> forall|k: K::V| self.partition_spec(k) == other.partition_spec(k),
    ;
}

/// Routes a key to `stable_hash(key) % partitions`. Two hash partitioners
/// over the same key type are equal exactly when their partition counts are.
pub struct HashPartitioner<K: Key> {
    partitions: usize,
    _marker: PhantomData<K>,
}

impl<K: Key> HashPartitioner<K> {
    /// How many partitions this partitioner was built over.
    pub closed spec fn partitions_spec(&self) -> int {
        self.partitions as int
    }

    /// Fails with `PartitionerArityError` when asked for zero partitions;
    /// otherwise the partitioner routes into `[0, partitions)`.
    pub fn new(partitions: usize) -> (r: Result<Self, RddError>)
        ensures
            match r {
                Ok(p) => p.wf() && p.partitions_spec() == partitions && partitions >= 1,
                Err(e) => e == RddError::PartitionerArityError && partitions == 0,
            },
    {
        if partitions == 0 {
            Err(RddError::PartitionerArityError)
        } else {
            Ok(HashPartitioner { partitions, _marker: PhantomData })
        }
    }
}

impl<K: Key> Clone for HashPartitioner<K> {
    fn clone(&self) -> (r: Self)
        ensures
            r == *self,
    {
        HashPartitioner { partitions: self.partitions, _marker: PhantomData }
    }
}

impl<K: Key> Partitioner<K> for HashPartitioner<K> {
    closed spec fn wf(&self) -> bool {
        self.partitions >= 1
    }

    closed spec fn num_partitions_spec(&self) -> int {
        self.partitions as int
    }

    open spec fn partition_spec(&self, k: K::V) -> int {
        K::stable_hash_of(k) as int % self.num_partitions_spec()
    }

    proof fn num_partitions_pos(&self) {
    }

    fn get_num_of_partitions(&self) -> usize {
        self.partitions
    }

    fn get_partition(&self, key: &K) -> (i: usize)
        ensures
            i == self.partition_spec(key.deep_view()),
            0 <= i < self.num_partitions_spec(),
    {
        let h = key.stable_hash();
        let i = (h % (self.partitions as u64)) as usize;
        proof {
            assert(h as int % (self.partitions as u64) as int == h as int % self.partitions as int);
        }
        i
    }

    /// Two hash partitioners over the same key type are equal exactly when
    /// they count the same number of partitions.
    fn equals(&self, other: &Self) -> (r: bool)
        ensures
            r == (self.partitions_spec() == other.partitions_spec()),
    {
        self.partitions == other.partitions
    }
}

} // verus!
