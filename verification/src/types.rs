use vstd::prelude::*;

verus! {

/// Node-scoped numeric identifier of a volume. Within one disk location's
/// registry at most one live handle exists per identifier.
pub type VolumeId = u32;

/// Indexing strategy selector for a volume's needle index. Its values are
/// opaque to the registry logic and are passed through to handle
/// construction unchanged.
#[derive(Clone, Copy, Debug, PartialEq, Eq, Structural)]
pub enum NeedleMapType {
    NeedleMapInMemory,
    NeedleMapLevelDb,
    NeedleMapBoltDb,
}

/// Replica placement policy attached to a volume; opaque to the registry
/// logic, which only stores it in the handle.
#[derive(Clone, Copy, Debug, PartialEq, Eq, Structural)]
pub struct ReplicaPlacement {
    pub same_rack_count: u8,
    pub diff_rack_count: u8,
    pub diff_data_center_count: u8,
}

/// The placement used when discovery supplies no explicit policy.
pub open spec fn default_replica_placement() -> ReplicaPlacement {
    ReplicaPlacement { same_rack_count: 0, diff_rack_count: 0, diff_data_center_count: 0 }
}

impl Default for ReplicaPlacement {
    fn default() -> (r: ReplicaPlacement)
        ensures
            r == default_replica_placement(),
    {
        ReplicaPlacement { same_rack_count: 0, diff_rack_count: 0, diff_data_center_count: 0 }
    }
}

/// Time-to-live policy attached to a volume's contents; opaque to the
/// registry logic, which only stores it in the handle.
#[derive(Clone, Copy, Debug, PartialEq, Eq, Structural)]
pub struct Ttl {
    pub count: u8,
    pub unit: u8,
}

/// The time-to-live used when discovery supplies no explicit policy.
pub open spec fn default_ttl() -> Ttl {
    Ttl { count: 0, unit: 0 }
}

impl Default for Ttl {
    fn default() -> (r: Ttl)
        ensures
            r == default_ttl(),
    {
        Ttl { count: 0, unit: 0 }
    }
}

/// In-memory handle for one volume: the identity and policies it was
/// constructed from. The on-disk state behind it is owned by the process
/// that built the handle; the registry only tracks the handle.
pub struct Volume {
    pub directory: String,
    pub collection: String,
    pub id: VolumeId,
    pub needle_map_kind: NeedleMapType,
    pub replica_placement: ReplicaPlacement,
    pub ttl: Ttl,
    pub generation: u64,
}

/// Mathematical image of a volume handle.
pub struct VolumeView {
    pub directory: Seq<char>,
    pub collection: Seq<char>,
    pub id: VolumeId,
    pub needle_map_kind: NeedleMapType,
    pub replica_placement: ReplicaPlacement,
    pub ttl: Ttl,
    pub generation: u64,
}

impl View for Volume {
    type V = VolumeView;

    open spec fn view(&self) -> VolumeView {
        VolumeView {
            directory: self.directory@,
            collection: self.collection@,
            id: self.id,
            needle_map_kind: self.needle_map_kind,
            replica_placement: self.replica_placement,
            ttl: self.ttl,
            generation: self.generation,
        }
    }
}

impl Volume {
    /// Builds the in-memory handle that records a volume's identity and
    /// policies exactly as given.
    pub fn new(
        directory: &str,
        collection: &str,
        id: VolumeId,
        needle_map_kind: NeedleMapType,
        replica_placement: ReplicaPlacement,
        ttl: Ttl,
        generation: u64,
    ) -> (v: Volume)
        ensures
            v@ == (VolumeView {
                directory: directory@,
                collection: collection@,
                id,
                needle_map_kind,
                replica_placement,
                ttl,
                generation,
            }),
    {
        Volume {
            directory: directory.to_owned(),
            collection: collection.to_owned(),
            id,
            needle_map_kind,
            replica_placement,
            ttl,
            generation,
        }
    }
}

} // verus!
