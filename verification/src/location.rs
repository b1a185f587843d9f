use vstd::prelude::*;
use std::collections::HashMap;

verus! {

use crate::codec;
use crate::codec::VolumeFileError;
use crate::types::{Volume, VolumeId, VolumeView};

broadcast use vstd::std_specs::hash::group_hash_axioms;

/// One filesystem directory dedicated to hosting volumes, together with the
/// registry of the volumes it currently serves. The registry is the single
/// source of truth for which volume identifiers this location serves, and
/// holds at most one handle per identifier.
pub struct DiskLocation {
    pub directory: String,
    pub max_volume_count: i64,
    pub volumes: HashMap<VolumeId, Volume>,
}

impl DiskLocation {
    /// The registry at the mathematical level: identifier to handle image.
    pub open spec fn registry(&self) -> Map<VolumeId, VolumeView> {
        self.volumes@.map_values(|v: Volume| v@)
    }

    /// A fresh location serving a directory: its registry is empty.
    pub fn new(dir: &str, max_volume_count: i64) -> (loc: DiskLocation)
        ensures
            loc.directory@ == dir@,
            loc.max_volume_count == max_volume_count,
            loc.registry() == Map::<VolumeId, VolumeView>::empty(),
    {
        let loc = DiskLocation {
            directory: dir.to_owned(),
            max_volume_count,
            volumes: HashMap::new(),
        };
        proof {
            assert(loc.registry() =~= Map::<VolumeId, VolumeView>::empty());
        }
        loc
    }

    /// Pure lookup: the handle registered under the identifier, if any.
    pub fn get_volume(&self, vid: VolumeId) -> (r: Option<&Volume>)
        ensures
            match r {
                Some(v) => self.registry().contains_key(vid) && v@ == self.registry()[vid],
                None => !self.registry().contains_key(vid),
            },
    {
        let r = self.volumes.get(&vid);
        proof {
            assert(self.registry().dom() =~= self.volumes@.dom());
        }
        r
    }

    /// Whether the identifier is currently registered.
    pub fn has_volume(&self, vid: VolumeId) -> (r: bool)
        ensures
            r == self.registry().contains_key(vid),
    {
        let r = self.volumes.contains_key(&vid);
        proof {
            assert(self.registry().dom() =~= self.volumes@.dom());
        }
        r
    }

    /// How many volumes the registry currently holds.
    pub fn volume_count(&self) -> (n: usize)
        ensures
            n == self.registry().len(),
    {
        let n = self.volumes.len();
        proof {
            assert(self.registry().dom() =~= self.volumes@.dom());
        }
        n
    }

    /// Atomic insert-if-absent: the only way a new entry enters the
    /// registry. An already-registered identifier is left untouched, so a
    /// rescan never replaces or duplicates a live handle.
    pub fn try_register_volume(&mut self, v: Volume) -> (inserted: bool)
        ensures
            inserted == !old(self).registry().contains_key(v.id),
            inserted ==> final(self).registry() == old(self).registry().insert(v.id, v@),
            !inserted ==> *final(self) == *old(self),
            final(self).directory == old(self).directory,
            final(self).max_volume_count == old(self).max_volume_count,
    {
        proof {
            assert(self.registry().dom() =~= self.volumes@.dom());
        }
        if self.volumes.contains_key(&v.id) {
            false
        } else {
            self.volumes.insert(v.id, v);
            proof {
                assert(self.registry() =~= old(self).registry().insert(v.id, v@));
            }
            true
        }
    }

    /// Runs the filename codec on one directory entry of this location.
    pub fn volume_id_from_path(&self, name: &str, is_dir: bool) -> (r: Result<
        (VolumeId, String),
        VolumeFileError,
    >)
        ensures
            (match r {
                Ok(p) => codec::parse_spec(name@, is_dir) == Ok::<
                    (VolumeId, Seq<char>),
                    VolumeFileError,
                >((p.0, p.1@)),
                Err(e) => codec::parse_spec(name@, is_dir) == Err::<
                    (VolumeId, Seq<char>),
                    VolumeFileError,
                >(e),
            }),
    {
        codec::parse_volume_file_name(name, is_dir)
    }

    /// Deletion path: `destroy_result` is the outcome of destroying the
    /// registered volume's on-disk state, which the caller performs before
    /// this call whenever the identifier is registered.
    ///
    /// A missing identifier is already in the desired end state, so the call
    /// succeeds and changes nothing. A failed destroy keeps the entry
    /// registered — a volume whose files could not be removed stays
    /// trackable — and reports that failure. Only a successful destroy
    /// removes the entry.
    pub fn delete_volume(&mut self, vid: VolumeId, destroy_result: Result<(), String>) -> (r:
        Result<(), String>)
        ensures
            final(self).directory == old(self).directory,
            final(self).max_volume_count == old(self).max_volume_count,
            !old(self).registry().contains_key(vid) ==> r is Ok && *final(self) == *old(self),
            old(self).registry().contains_key(vid) && destroy_result is Ok ==> r is Ok
                && final(self).registry() == old(self).registry().remove(vid),
            old(self).registry().contains_key(vid) && destroy_result is Err ==> r == destroy_result
                && *final(self) == *old(self),
    {
        proof {
            assert(self.registry().dom() =~= self.volumes@.dom());
        }
        if self.volumes.contains_key(&vid) {
            match destroy_result {
                Ok(()) => {
                    self.volumes.remove(&vid);
                    proof {
                        assert(self.registry() =~= old(self).registry().remove(vid));
                    }
                    Ok(())
                },
                Err(e) => Err(e),
            }
        } else {
            Ok(())
        }
    }
}

} // verus!
