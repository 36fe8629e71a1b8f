use vstd::prelude::*;
use vstd::string::StringExecFns;

use crate::shuffle_fetcher::ShuffleFetcher;
use crate::shuffle_manager::ShuffleManager;

verus! {

/// The loaded host table: the master's socket address and the workers'.
pub struct Hosts {
    pub master: String,
    pub slaves: Vec<String>,
}

/// The locations of the map outputs of one shuffle, read off the
/// registered `(shuffle_id, map_index, uri)` triples in registration
/// order.
pub open spec fn locations_of(
    registered: Seq<(usize, usize, Seq<char>)>,
    shuffle_id: usize,
) -> Seq<(usize, Seq<char>)>
    decreases registered.len(),
{
    if registered.len() == 0 {
        Seq::empty()
    } else {
        locations_of(registered.drop_last(), shuffle_id) + if registered.last().0 == shuffle_id {
            seq![(registered.last().1, registered.last().2)]
        } else {
            Seq::empty()
        }
    }
}

/// The directory service of the shuffle: map tasks register where their
/// output lives, reduce tasks ask where every map output of a shuffle is.
/// Only the lookup interface is the core's concern; how workers gossip
/// the table around is outside it.
pub struct MapOutputTracker {
    pub outputs: Vec<(usize, usize, String)>,
}

impl MapOutputTracker {
    /// The registered `(shuffle_id, map_index, location_uri)` triples.
    pub open spec fn view_spec(&self) -> Seq<(usize, usize, Seq<char>)> {
        self.outputs.deep_view()
    }

    pub fn new() -> (r: Self)
        ensures
            r.view_spec() == Seq::<(usize, usize, Seq<char>)>::empty(),
    {
        let outputs: Vec<(usize, usize, String)> = Vec::new();
        proof {
            assert(outputs.deep_view() =~= Seq::<(usize, usize, Seq<char>)>::empty());
        }
        MapOutputTracker { outputs }
    }

    /// Records that the map task `map_index` of shuffle `shuffle_id`
    /// published its buckets at `location_uri`.
    pub fn register_map_output(&mut self, shuffle_id: usize, map_index: usize, location_uri: String)
        ensures
            final(self).view_spec() == old(self).view_spec().push(
                (shuffle_id, map_index, location_uri@),
            ),
    {
        let ghost pre = self.view_spec();
        self.outputs.push((shuffle_id, map_index, location_uri));
        proof {
            assert(self.view_spec() =~~= pre.push((shuffle_id, map_index, location_uri@)));
        }
    }

    /// Where every registered map output of `shuffle_id` lives, as
    /// `(map_index, location_uri)` pairs in registration order.
    pub fn get_locations(&self, shuffle_id: usize) -> (r: Vec<(usize, String)>)
        ensures
            r.deep_view() == locations_of(self.view_spec(), shuffle_id),
    {
        let mut r: Vec<(usize, String)> = Vec::new();
        let mut i: usize = 0;
        proof {
            assert(self.view_spec().take(0) =~= Seq::<(usize, usize, Seq<char>)>::empty());
            assert(r.deep_view() =~= Seq::<(usize, Seq<char>)>::empty());
        }
        while i < self.outputs.len()
            invariant
                i <= self.outputs@.len(),
                r.deep_view() == locations_of(self.view_spec().take(i as int), shuffle_id),
            decreases self.outputs@.len() - i,
        {
            let ghost taken = self.view_spec().take(i as int);
            let ghost step = self.view_spec().take(i + 1 as int);
            proof {
                assert(step.drop_last() =~= taken);
                assert(step.last() == self.view_spec()[i as int]);
            }
            let entry = &self.outputs[i];
            if entry.0 == shuffle_id {
                let ghost pre = r.deep_view();
                r.push((entry.1, entry.2.clone()));
                proof {
                    assert(r.deep_view() =~~= pre.push(
                        (self.view_spec()[i as int].1, self.view_spec()[i as int].2),
                    ));
                    assert(pre.push((self.view_spec()[i as int].1, self.view_spec()[i as int].2))
                        =~= pre + seq![
                        (self.view_spec()[i as int].1, self.view_spec()[i as int].2),
                    ]);
                }
            } else {
                proof {
                    assert(r.deep_view() + Seq::<(usize, Seq<char>)>::empty() =~= r.deep_view());
                }
            }
            i += 1;
        }
        proof {
            assert(self.view_spec().take(self.outputs@.len() as int) =~= self.view_spec());
        }
        r
    }
}

/// Selects the process role from the first positional argument: `slave`
/// means worker, anything else (or nothing) means driver.
pub fn is_master_role(first_arg: Option<&String>) -> (r: bool)
    ensures
        r == match first_arg {
            Some(a) => a@ != "slave"@,
            None => true,
        },
{
    match first_arg {
        Some(a) => {
            let slave = <String as StringExecFns>::from_str("slave");
            !(a.eq(&slave))
        },
        None => true,
    }
}

/// The process-wide bundle every worker and the driver hold: the
/// map-output tracker, the shuffle manager, the fetcher, the host table,
/// the role and the advertised local IP. Built once at process start and
/// alive until process exit.
pub struct Env {
    pub map_output_tracker: MapOutputTracker,
    pub shuffle_manager: ShuffleManager,
    pub shuffle_fetcher: ShuffleFetcher,
    pub hosts: Hosts,
    pub is_master: bool,
    pub local_ip: String,
}

impl Env {
    /// Builds the bundle over a chosen shuffle working directory; the
    /// caller supplies the role, the host table and the local IP — the
    /// one piece of configuration that is required and never inferred.
    pub fn new(is_master_process: bool, host_conf: Hosts, local_ip: String, local_dir: String) -> (r:
        Env)
        ensures
            r.is_master == is_master_process,
            r.hosts == host_conf,
            r.local_ip@ == local_ip@,
            r.map_output_tracker.view_spec() == Seq::<(usize, usize, Seq<char>)>::empty(),
            r.shuffle_manager.wf(),
            r.shuffle_manager.store_view() == Seq::<((usize, usize, usize), Seq<u8>)>::empty(),
            r.shuffle_manager.local_dir@ == local_dir@,
    {
        let shuffle_manager = ShuffleManager::new(local_ip.as_str(), local_dir);
        Env {
            map_output_tracker: MapOutputTracker::new(),
            shuffle_manager,
            shuffle_fetcher: ShuffleFetcher,
            hosts: host_conf,
            is_master: is_master_process,
            local_ip,
        }
    }
}

} // verus!
