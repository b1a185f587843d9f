use volume_registry::location::DiskLocation;
use volume_registry::types::{NeedleMapType, ReplicaPlacement, Ttl, Volume};

fn handle(loc: &DiskLocation, collection: &str, vid: u32) -> Volume {
    Volume::new(
        &loc.directory,
        collection,
        vid,
        NeedleMapType::NeedleMapInMemory,
        ReplicaPlacement::default(),
        Ttl::default(),
        0,
    )
}

#[test]
fn new_location_is_empty() {
    let loc = DiskLocation::new("/data/volumes", 7);
    assert_eq!(loc.directory, "/data/volumes");
    assert_eq!(loc.max_volume_count, 7);
    assert_eq!(loc.volume_count(), 0);
    assert!(loc.get_volume(1).is_none());
}

#[test]
fn register_then_lookup() {
    let mut loc = DiskLocation::new("/data/volumes", 100);
    let v = handle(&loc, "photos", 7);
    assert!(loc.try_register_volume(v));
    assert_eq!(loc.volume_count(), 1);
    assert!(loc.has_volume(7));
    let got = loc.get_volume(7).expect("volume 7 must be registered");
    assert_eq!(got.id, 7);
    assert_eq!(got.collection, "photos");
    assert_eq!(got.directory, "/data/volumes");
    assert_eq!(got.generation, 0);
    assert!(loc.get_volume(8).is_none());
}

#[test]
fn register_is_insert_if_absent() {
    let mut loc = DiskLocation::new("/data/volumes", 100);
    assert!(loc.try_register_volume(handle(&loc, "first", 7)));
    assert!(!loc.try_register_volume(handle(&loc, "second", 7)));
    assert_eq!(loc.volume_count(), 1);
    let got = loc.get_volume(7).expect("volume 7 must stay registered");
    assert_eq!(got.collection, "first");
}

#[test]
fn delete_missing_identifier_succeeds_unchanged() {
    let mut loc = DiskLocation::new("/data/volumes", 100);
    assert!(loc.try_register_volume(handle(&loc, "photos", 7)));
    let r = loc.delete_volume(9, Ok(()));
    assert!(r.is_ok());
    assert_eq!(loc.volume_count(), 1);
    assert!(loc.has_volume(7));
}

#[test]
fn delete_retains_entry_when_destroy_fails() {
    let mut loc = DiskLocation::new("/data/volumes", 100);
    assert!(loc.try_register_volume(handle(&loc, "photos", 7)));
    let r = loc.delete_volume(7, Err(String::from("device busy")));
    assert_eq!(r, Err(String::from("device busy")));
    assert!(loc.has_volume(7));
    assert!(loc.get_volume(7).is_some());
    assert_eq!(loc.volume_count(), 1);
}

#[test]
fn delete_removes_entry_when_destroy_succeeds() {
    let mut loc = DiskLocation::new("/data/volumes", 100);
    assert!(loc.try_register_volume(handle(&loc, "photos", 7)));
    let r = loc.delete_volume(7, Ok(()));
    assert!(r.is_ok());
    assert!(!loc.has_volume(7));
    assert!(loc.get_volume(7).is_none());
    assert_eq!(loc.volume_count(), 0);
}
