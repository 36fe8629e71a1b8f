use vstd::prelude::*;
use vstd::string::StringExecFns;

use crate::error::RddError;
use crate::shuffled_rdd::{table_has_key, table_index_of, table_lookup, table_wf};

verus! {

/// The decimal digit character for one digit value.
pub open spec fn dec_digit(d: int) -> char
    recommends
        0 <= d < 10,
{
    if d == 0 {
        '0'
    } else if d == 1 {
        '1'
    } else if d == 2 {
        '2'
    } else if d == 3 {
        '3'
    } else if d == 4 {
        '4'
    } else if d == 5 {
        '5'
    } else if d == 6 {
        '6'
    } else if d == 7 {
        '7'
    } else if d == 8 {
        '8'
    } else {
        '9'
    }
}

/// The decimal rendering of a non-negative integer, most significant
/// digit first.
pub open spec fn dec_str(n: int) -> Seq<char>
    recommends
        n >= 0,
    decreases n,
{
    if n < 10 {
        seq![dec_digit(n)]
    } else {
        dec_str(n / 10).push(dec_digit(n % 10))
    }
}

/// One decimal digit as a string slice.
fn digit_str(d: u64) -> (r: &'static str)
    requires
        d < 10,
    ensures
        r@ == seq![dec_digit(d as int)],
{
    let r: &'static str = if d == 0 {
        "0"
    } else if d == 1 {
        "1"
    } else if d == 2 {
        "2"
    } else if d == 3 {
        "3"
    } else if d == 4 {
        "4"
    } else if d == 5 {
        "5"
    } else if d == 6 {
        "6"
    } else if d == 7 {
        "7"
    } else if d == 8 {
        "8"
    } else {
        "9"
    };
    proof {
        reveal_strlit("0");
        reveal_strlit("1");
        reveal_strlit("2");
        reveal_strlit("3");
        reveal_strlit("4");
        reveal_strlit("5");
        reveal_strlit("6");
        reveal_strlit("7");
        reveal_strlit("8");
        reveal_strlit("9");
        assert(r@ =~= seq![dec_digit(d as int)]);
    }
    r
}

/// Appends the decimal rendering of `n` to `out`.
fn push_dec(n: u64, out: &mut String)
    ensures
        final(out)@ == old(out)@ + dec_str(n as int),
    decreases n,
{
    if n >= 10 {
        push_dec(n / 10, out);
        out.append(digit_str(n % 10));
        proof {
            assert(old(out)@ + dec_str(n as int / 10) + seq![dec_digit(n as int % 10)]
                =~= old(out)@ + dec_str(n as int));
        }
    } else {
        out.append(digit_str(n));
        proof {
            assert(old(out)@ + seq![dec_digit(n as int)] =~= old(out)@ + dec_str(n as int));
        }
    }
}

/// The decimal rendering of `n` as a `String`.
pub fn u64_to_dec_string(n: u64) -> (r: String)
    ensures
        r@ == dec_str(n as int),
{
    let mut out = String::new();
    push_dec(n, &mut out);
    proof {
        assert(Seq::<char>::empty() + dec_str(n as int) =~= dec_str(n as int));
    }
    out
}

/// Relies on uuid's `Uuid::new_v4` and `to_string`: the hyphenated
/// rendering of a (random) v4 uuid is always 36 ASCII characters. Nothing
/// is claimed about which characters come back.
#[verifier::external_body]
fn fresh_uuid_string() -> (r: String)
    ensures
        r@.len() == 36,
{
    uuid::Uuid::new_v4().to_string()
}

/// Relies on rand's `random_range`: a uniform draw from `[5000, 6000)`,
/// the port window the block server binds in. Nothing is claimed about
/// which port comes back beyond the window.
#[verifier::external_body]
fn draw_server_port() -> (r: u16)
    ensures
        5000 <= r < 6000,
{
    rand::random_range(5000u16..6000u16)
}

/// A fresh candidate working directory under `root`:
/// `<root>/spark-local-<uuid>`.
pub fn fresh_dir_candidate(root: &str) -> (r: String)
    ensures
        exists|u: Seq<char>|
            u.len() == 36 && r@ == root@ + "/spark-local-"@ + u,
{
    let mut out = String::new();
    out.append(root);
    out.append("/spark-local-");
    let uuid = fresh_uuid_string();
    let ghost u = uuid@;
    out.append(uuid.as_str());
    proof {
        assert(Seq::<char>::empty() + root@ =~= root@);
        assert(out@ =~= root@ + "/spark-local-"@ + u);
    }
    out
}

/// The decision core of choosing a local working directory: the worker
/// draws candidates and reports whether each already exists on disk; up to
/// 10 distinct candidates are tried before the startup fails with
/// `LocalDirUnavailable`.
pub struct LocalDirPicker {
    pub tries: u8,
}

/// What to do after offering one candidate directory.
pub enum DirAttempt {
    /// The candidate is free: take it as the working directory.
    Chosen(String),
    /// The candidate exists already: draw another.
    Retry,
    /// Ten candidates existed already: give up.
    Failed(RddError),
}

impl LocalDirPicker {
    pub fn new() -> (r: Self)
        ensures
            r.tries == 0,
    {
        LocalDirPicker { tries: 0 }
    }

    /// One attempt: `candidate` was drawn and `exists` says whether the
    /// path is already taken on disk.
    pub fn offer(&mut self, candidate: String, exists: bool) -> (r: DirAttempt)
        requires
            old(self).tries < 10,
        ensures
            final(self).tries == old(self).tries + 1,
            match r {
                DirAttempt::Chosen(d) => !exists && d@ == candidate@,
                DirAttempt::Retry => exists && old(self).tries + 1 < 10,
                DirAttempt::Failed(e) => exists && old(self).tries + 1 == 10 && e
                    == RddError::LocalDirUnavailable,
            },
    {
        self.tries += 1;
        if !exists {
            DirAttempt::Chosen(candidate)
        } else if self.tries < 10 {
            DirAttempt::Retry
        } else {
            DirAttempt::Failed(RddError::LocalDirUnavailable)
        }
    }
}

/// Replacing a block in the store: an absent key is appended, a present
/// key's bytes are overwritten.
pub open spec fn store_put(
    t: Seq<((usize, usize, usize), Seq<u8>)>,
    k: (usize, usize, usize),
    v: Seq<u8>,
) -> Seq<((usize, usize, usize), Seq<u8>)> {
    if table_has_key(t, k) {
        t.update(table_index_of(t, k), (k, v))
    } else {
        t.push((k, v))
    }
}

/// After a put, the put key maps to the new bytes and every other key is
/// untouched.
pub proof fn lemma_store_put_lookup(
    t: Seq<((usize, usize, usize), Seq<u8>)>,
    k: (usize, usize, usize),
    v: Seq<u8>,
    k2: (usize, usize, usize),
)
    requires
        table_wf(t),
    ensures
        table_lookup(store_put(t, k, v), k2) == if k2 == k {
            Some(v)
        } else {
            table_lookup(t, k2)
        },
{
    let out = store_put(t, k, v);
    if table_has_key(t, k) {
        let i = table_index_of(t, k);
        assert(0 <= i < t.len() && t[i].0 == k);
        if k2 == k {
            assert(out[i].0 == k2);
            assert(table_has_key(out, k2));
            let i2 = table_index_of(out, k2);
            assert(0 <= i2 < out.len() && out[i2].0 == k2);
            assert(i2 == i);
        } else {
            if table_has_key(t, k2) {
                let j = table_index_of(t, k2);
                assert(out[j] == t[j]);
                assert(table_has_key(out, k2));
                let j2 = table_index_of(out, k2);
                assert(out[j2].0 == k2);
                assert(j2 != i);
                assert(j2 == j);
            } else {
                assert(forall|j: int| 0 <= j < out.len() ==> (#[trigger] out[j]).0 != k2);
            }
        }
    } else {
        if k2 == k {
            assert(out[t.len() as int].0 == k2);
            assert(table_has_key(out, k2));
            let i2 = table_index_of(out, k2);
            assert(out[i2].0 == k2);
            assert(forall|j: int| 0 <= j < t.len() ==> (#[trigger] t[j]).0 != k);
            assert(i2 == t.len() as int);
        } else {
            if table_has_key(t, k2) {
                let j = table_index_of(t, k2);
                assert(out[j] == t[j]);
                let j2 = table_index_of(out, k2);
                assert(out[j2].0 == k2);
                assert(j2 == j);
            } else {
                assert(forall|j: int| 0 <= j < out.len() ==> (#[trigger] out[j]).0 != k2);
            }
        }
    }
}

/// A put keeps the store's keys distinct.
pub proof fn lemma_store_put_wf(
    t: Seq<((usize, usize, usize), Seq<u8>)>,
    k: (usize, usize, usize),
    v: Seq<u8>,
)
    requires
        table_wf(t),
    ensures
        table_wf(store_put(t, k, v)),
{
}

/// The per-worker shuffle block server state: the working directories, the
/// advertised URI, and the in-memory store mapping
/// `(shuffle_id, map_index, reduce_index)` to that block's bytes. Bytes are
/// immutable once put; a reader is handed a copy.
pub struct ShuffleManager {
    pub local_dir: String,
    pub shuffle_dir: String,
    pub server_uri: String,
    pub server_address: String,
    pub shuffle_cache: Vec<((usize, usize, usize), Vec<u8>)>,
}

impl ShuffleManager {
    /// The store's contents, keyed by `(shuffle_id, map_index, reduce_index)`.
    pub open spec fn store_view(&self) -> Seq<((usize, usize, usize), Seq<u8>)> {
        self.shuffle_cache.deep_view()
    }

    pub open spec fn wf(&self) -> bool {
        table_wf(self.store_view())
    }

    /// Builds the per-worker state over a chosen working directory: the
    /// `shuffle` subdirectory path, a server port drawn uniformly from
    /// `[5000, 6000)`, the advertised URI `http://<ip>:<port>`, and an
    /// empty store. Creating the directories and binding the server are
    /// the worker's I/O, done around this.
    pub fn new(local_ip: &str, local_dir: String) -> (r: Self)
        ensures
            r.wf(),
            r.store_view() == Seq::<((usize, usize, usize), Seq<u8>)>::empty(),
            r.local_dir@ == local_dir@,
            r.shuffle_dir@ == local_dir@ + "/shuffle"@,
            exists|port: int|
                5000 <= port < 6000 && r.server_address@ == local_ip@ + ":"@ + dec_str(port)
                    && r.server_uri@ == "http://"@ + local_ip@ + ":"@ + dec_str(port),
    {
        let port = draw_server_port();
        let port_str = u64_to_dec_string(port as u64);
        let mut shuffle_dir = String::new();
        shuffle_dir.append(local_dir.as_str());
        shuffle_dir.append("/shuffle");
        let mut server_address = String::new();
        server_address.append(local_ip);
        server_address.append(":");
        server_address.append(port_str.as_str());
        let mut server_uri = String::new();
        server_uri.append("http://");
        server_uri.append(local_ip);
        server_uri.append(":");
        server_uri.append(port_str.as_str());
        let shuffle_cache: Vec<((usize, usize, usize), Vec<u8>)> = Vec::new();
        proof {
            assert(shuffle_cache.deep_view() =~= Seq::<((usize, usize, usize), Seq<u8>)>::empty());
            assert(shuffle_dir@ =~= local_dir@ + "/shuffle"@);
            assert(server_address@ =~= local_ip@ + ":"@ + dec_str(port as int));
            assert(server_uri@ =~= "http://"@ + local_ip@ + ":"@ + dec_str(port as int));
        }
        ShuffleManager { local_dir, shuffle_dir, server_uri, server_address, shuffle_cache }
    }

    /// The URI other workers fetch this worker's blocks from.
    pub fn get_server_uri(&self) -> (r: String)
        ensures
            r@ == self.server_uri@,
    {
        self.server_uri.clone()
    }

    /// The on-disk spill path for one block:
    /// `<shuffle_dir>/<shuffle_id>/<input_id>/<output_id>`. Creating the
    /// directories and the file is the caller's I/O.
    pub fn get_output_file(&self, shuffle_id: usize, input_id: usize, output_id: usize) -> (r:
        String)
        ensures
            r@ == self.shuffle_dir@ + "/"@ + dec_str(shuffle_id as int) + "/"@ + dec_str(
                input_id as int,
            ) + "/"@ + dec_str(output_id as int),
    {
        let mut out = String::new();
        out.append(self.shuffle_dir.as_str());
        out.append("/");
        out.append(u64_to_dec_string(shuffle_id as u64).as_str());
        out.append("/");
        out.append(u64_to_dec_string(input_id as u64).as_str());
        out.append("/");
        out.append(u64_to_dec_string(output_id as u64).as_str());
        proof {
            assert(out@ =~= self.shuffle_dir@ + "/"@ + dec_str(shuffle_id as int) + "/"@ + dec_str(
                input_id as int,
            ) + "/"@ + dec_str(output_id as int));
        }
        out
    }

    /// Publishes one map task's bucket: overwrites any previous bytes for
    /// the same `(shuffle_id, partition, idx)` and touches no other block.
    pub fn put_shuffle_cache(
        &mut self,
        shuffle_id: usize,
        partition: usize,
        idx: usize,
        ser_bytes: Vec<u8>,
    )
        requires
            old(self).wf(),
        ensures
            final(self).wf(),
            final(self).store_view() == store_put(
                old(self).store_view(),
                (shuffle_id, partition, idx),
                ser_bytes@,
            ),
            final(self).server_uri == old(self).server_uri,
            final(self).local_dir == old(self).local_dir,
            final(self).shuffle_dir == old(self).shuffle_dir,
            final(self).server_address == old(self).server_address,
    {
        proof {
            lemma_store_put_wf(
                self.store_view(),
                (shuffle_id, partition, idx),
                ser_bytes@,
            );
        }
        let key = (shuffle_id, partition, idx);
        let mut i: usize = 0;
        while i < self.shuffle_cache.len()
            invariant
                *self == *old(self),
                self.wf(),
                i <= self.shuffle_cache@.len(),
                forall|j: int|
                    0 <= j < i ==> (#[trigger] self.store_view()[j]).0 != (
                    shuffle_id,
                    partition,
                    idx,
                ),
                key == (shuffle_id, partition, idx),
            decreases self.shuffle_cache@.len() - i,
        {
            let entry_key = self.shuffle_cache[i].0;
            if entry_key.0 == shuffle_id && entry_key.1 == partition && entry_key.2 == idx {
                let ghost pre = self.store_view();
                let ghost ci = table_index_of(pre, (shuffle_id, partition, idx));
                proof {
                    assert(pre[i as int].0 == (shuffle_id, partition, idx));
                    assert(table_has_key(pre, (shuffle_id, partition, idx)));
                    assert(0 <= ci < pre.len() && pre[ci].0 == (shuffle_id, partition, idx));
                    assert(ci == i as int);
                }
                let (k0, _old_bytes) = self.shuffle_cache.remove(i);
                self.shuffle_cache.insert(i, (k0, ser_bytes));
                proof {
                    assert(self.store_view() =~~= pre.update(
                        i as int,
                        ((shuffle_id, partition, idx), ser_bytes@),
                    ));
                }
                return ;
            }
            i += 1;
        }
        let ghost pre = self.store_view();
        proof {
            assert(!table_has_key(pre, (shuffle_id, partition, idx)));
        }
        self.shuffle_cache.push((key, ser_bytes));
        proof {
            assert(self.store_view() =~~= pre.push(((shuffle_id, partition, idx), ser_bytes@)));
        }
    }

    /// Serves one block: a copy of the bytes under
    /// `(shuffle_id, map_index, reduce_index)`, or nothing — the block
    /// server answers the latter with 404.
    pub fn get_shuffle_cache(&self, shuffle_id: usize, map_index: usize, reduce_index: usize) -> (r:
        Option<Vec<u8>>)
        requires
            self.wf(),
        ensures
            match r {
                Some(bytes) => table_lookup(
                    self.store_view(),
                    (shuffle_id, map_index, reduce_index),
                ) == Some(bytes@),
                None => table_lookup(self.store_view(), (shuffle_id, map_index, reduce_index))
                    is None,
            },
    {
        let mut i: usize = 0;
        while i < self.shuffle_cache.len()
            invariant
                self.wf(),
                i <= self.shuffle_cache@.len(),
                forall|j: int|
                    0 <= j < i ==> (#[trigger] self.store_view()[j]).0 != (
                    shuffle_id,
                    map_index,
                    reduce_index,
                ),
            decreases self.shuffle_cache@.len() - i,
        {
            let entry_key = self.shuffle_cache[i].0;
            if entry_key.0 == shuffle_id && entry_key.1 == map_index && entry_key.2
                == reduce_index {
                let ghost t = self.store_view();
                let ghost ci = table_index_of(t, (shuffle_id, map_index, reduce_index));
                proof {
                    assert(t[i as int].0 == (shuffle_id, map_index, reduce_index));
                    assert(table_has_key(t, (shuffle_id, map_index, reduce_index)));
                    assert(0 <= ci < t.len() && t[ci].0 == (shuffle_id, map_index, reduce_index));
                    assert(ci == i as int);
                }
                let mut bytes: Vec<u8> = Vec::new();
                let stored = &self.shuffle_cache[i].1;
                let mut b: usize = 0;
                while b < stored.len()
                    invariant
                        b <= stored@.len(),
                        bytes@ == stored@.take(b as int),
                    decreases stored@.len() - b,
                {
                    bytes.push(stored[b]);
                    proof {
                        assert(bytes@ =~= stored@.take(b + 1 as int));
                    }
                    b += 1;
                }
                proof {
                    assert(stored@.take(stored@.len() as int) =~= stored@);
                    assert(bytes@ =~= bytes.deep_view());
                    assert(bytes.deep_view() =~= t[i as int].1);
                }
                return Some(bytes);
            }
            i += 1;
        }
        None
    }
}

} // verus!
