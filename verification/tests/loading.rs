use volume_registry::codec::VolumeFileError;
use volume_registry::loader::{partition_candidates, DirEntryInfo};
use volume_registry::location::DiskLocation;
use volume_registry::types::NeedleMapType;

fn entry(name: &str) -> DirEntryInfo {
    DirEntryInfo { name: String::from(name), is_dir: false }
}

fn dir_entry(name: &str) -> DirEntryInfo {
    DirEntryInfo { name: String::from(name), is_dir: true }
}

fn all_ok(n: usize) -> Vec<Result<(), String>> {
    let mut v: Vec<Result<(), String>> = Vec::new();
    for _ in 0..n {
        v.push(Ok(()));
    }
    v
}

#[test]
fn scenario_mixed_directory() {
    let mut loc = DiskLocation::new("/data/volumes", 100);
    let entries = vec![entry("photos_7.dat"), entry("9.dat"), entry("notes.txt")];
    let (cands, _) = loc.plan_load(&entries);
    assert_eq!(cands.len(), 2);
    let report = loc.load_existing_volumes(NeedleMapType::NeedleMapInMemory, &entries, &all_ok(2));
    assert_eq!(report.loaded_count, 2);
    assert_eq!(loc.volume_count(), 2);
    let seven = loc.get_volume(7).expect("photos_7.dat must be loaded");
    assert_eq!(seven.collection, "photos");
    let nine = loc.get_volume(9).expect("9.dat must be loaded");
    assert_eq!(nine.collection, "");
    assert_eq!(report.entry_failures.len(), 1);
    assert_eq!(report.entry_failures[0].name, "notes.txt");
    assert_eq!(report.entry_failures[0].error, VolumeFileError::NotVolumeFile);
    assert!(report.volume_failures.is_empty());
}

#[test]
fn directories_are_not_volume_files() {
    let mut loc = DiskLocation::new("/data/volumes", 100);
    let entries = vec![dir_entry("7.dat"), entry("8.dat")];
    let (cands, fails) = loc.plan_load(&entries);
    assert_eq!(cands.len(), 1);
    assert_eq!(cands[0].vid, 8);
    assert_eq!(fails.len(), 1);
    assert_eq!(fails[0].error, VolumeFileError::NotVolumeFile);
    let report = loc.load_existing_volumes(NeedleMapType::NeedleMapInMemory, &entries, &all_ok(1));
    assert_eq!(report.loaded_count, 1);
    assert!(!loc.has_volume(7));
    assert!(loc.has_volume(8));
}

#[test]
fn isolation_one_corrupt_among_ten() {
    let mut loc = DiskLocation::new("/data/volumes", 100);
    let mut entries: Vec<DirEntryInfo> = Vec::new();
    for i in 1..=10u32 {
        entries.push(entry(&format!("c_{}.dat", i)));
    }
    let mut outcomes: Vec<Result<(), String>> = Vec::new();
    for i in 1..=10u32 {
        if i == 4 {
            outcomes.push(Err(String::from("corrupt data file")));
        } else {
            outcomes.push(Ok(()));
        }
    }
    let report = loc.load_existing_volumes(NeedleMapType::NeedleMapInMemory, &entries, &outcomes);
    assert_eq!(report.loaded_count, 9);
    assert_eq!(loc.volume_count(), 9);
    assert!(!loc.has_volume(4));
    assert_eq!(report.volume_failures.len(), 1);
    assert_eq!(report.volume_failures[0].vid, 4);
    assert_eq!(report.volume_failures[0].message, "corrupt data file");
    for i in 1..=10u32 {
        if i != 4 {
            assert!(loc.has_volume(i));
        }
    }

    // The same directory scanned in the opposite order ends in the same state.
    let mut reversed_entries: Vec<DirEntryInfo> = Vec::new();
    let mut reversed_outcomes: Vec<Result<(), String>> = Vec::new();
    for i in (1..=10u32).rev() {
        reversed_entries.push(entry(&format!("c_{}.dat", i)));
        if i == 4 {
            reversed_outcomes.push(Err(String::from("corrupt data file")));
        } else {
            reversed_outcomes.push(Ok(()));
        }
    }
    let mut reversed = DiskLocation::new("/data/volumes", 100);
    let report = reversed.load_existing_volumes(
        NeedleMapType::NeedleMapInMemory,
        &reversed_entries,
        &reversed_outcomes,
    );
    assert_eq!(report.loaded_count, 9);
    assert_eq!(reversed.volume_count(), loc.volume_count());
    for i in 1..=10u32 {
        assert_eq!(reversed.has_volume(i), loc.has_volume(i));
    }
}

#[test]
fn rescan_is_idempotent() {
    let mut loc = DiskLocation::new("/data/volumes", 100);
    let entries = vec![entry("photos_7.dat"), entry("9.dat")];
    let first = loc.load_existing_volumes(NeedleMapType::NeedleMapInMemory, &entries, &all_ok(2));
    assert_eq!(first.loaded_count, 2);
    let (cands, _) = loc.plan_load(&entries);
    assert!(cands.is_empty());
    let second = loc.load_existing_volumes(NeedleMapType::NeedleMapInMemory, &entries, &all_ok(0));
    assert_eq!(second.loaded_count, 0);
    assert_eq!(loc.volume_count(), 2);
    assert_eq!(
        loc.get_volume(7).expect("volume 7 stays").collection,
        "photos"
    );
}

#[test]
fn rescan_retries_previous_failures() {
    let mut loc = DiskLocation::new("/data/volumes", 100);
    let entries = vec![entry("5.dat")];
    let outcomes: Vec<Result<(), String>> = vec![Err(String::from("index rebuild failed"))];
    let first = loc.load_existing_volumes(NeedleMapType::NeedleMapInMemory, &entries, &outcomes);
    assert_eq!(first.loaded_count, 0);
    assert!(!loc.has_volume(5));
    let (cands, _) = loc.plan_load(&entries);
    assert_eq!(cands.len(), 1);
    let second = loc.load_existing_volumes(NeedleMapType::NeedleMapInMemory, &entries, &all_ok(1));
    assert_eq!(second.loaded_count, 1);
    assert!(loc.has_volume(5));
}

#[test]
fn duplicate_identifiers_in_one_scan_keep_the_first() {
    let mut loc = DiskLocation::new("/data/volumes", 100);
    let entries = vec![entry("a_5.dat"), entry("b_5.dat")];
    let (cands, _) = loc.plan_load(&entries);
    assert_eq!(cands.len(), 1);
    assert_eq!(cands[0].collection, "a");
    let report = loc.load_existing_volumes(NeedleMapType::NeedleMapInMemory, &entries, &all_ok(1));
    assert_eq!(report.loaded_count, 1);
    assert_eq!(loc.get_volume(5).expect("volume 5 loads").collection, "a");
}

#[test]
fn already_registered_identifiers_are_skipped() {
    let mut loc = DiskLocation::new("/data/volumes", 100);
    let entries = vec![entry("photos_7.dat")];
    loc.load_existing_volumes(NeedleMapType::NeedleMapInMemory, &entries, &all_ok(1));
    let rescan = vec![entry("photos_7.dat"), entry("8.dat")];
    let (cands, _) = loc.plan_load(&rescan);
    assert_eq!(cands.len(), 1);
    assert_eq!(cands[0].vid, 8);
}

#[test]
fn concurrent_load_matches_sequential() {
    let entries = vec![
        entry("a_1.dat"),
        entry("a_2.dat"),
        entry("b_3.dat"),
        entry("4.dat"),
        entry("b_5.dat"),
        entry("6.dat"),
        entry("c_7.dat"),
    ];
    let mut sequential = DiskLocation::new("/data/volumes", 100);
    sequential.load_existing_volumes(NeedleMapType::NeedleMapInMemory, &entries, &all_ok(7));
    for width in [1usize, 2, 3, 16] {
        let mut concurrent = DiskLocation::new("/data/volumes", 100);
        let report = concurrent.concurrent_loading_volumes(
            NeedleMapType::NeedleMapInMemory,
            width,
            &entries,
            &all_ok(7),
        );
        assert_eq!(report.loaded_count, 7);
        assert_eq!(concurrent.volume_count(), sequential.volume_count());
        for vid in 1..=7u32 {
            let a = sequential.get_volume(vid).expect("loaded sequentially");
            let b = concurrent.get_volume(vid).expect("loaded concurrently");
            assert_eq!(a.collection, b.collection);
        }
    }
}

#[test]
fn concurrent_load_isolates_failures() {
    let entries = vec![entry("1.dat"), entry("2.dat"), entry("3.dat"), entry("4.dat")];
    let outcomes: Vec<Result<(), String>> = vec![
        Ok(()),
        Err(String::from("corrupt")),
        Ok(()),
        Ok(()),
    ];
    let mut loc = DiskLocation::new("/data/volumes", 100);
    let report = loc.concurrent_loading_volumes(
        NeedleMapType::NeedleMapInMemory,
        2,
        &entries,
        &outcomes,
    );
    assert_eq!(report.loaded_count, 3);
    assert_eq!(loc.volume_count(), 3);
    assert!(!loc.has_volume(2));
    assert_eq!(report.volume_failures.len(), 1);
    assert_eq!(report.volume_failures[0].vid, 2);
}

#[test]
fn partition_covers_candidates_in_contiguous_shares() {
    let loc = DiskLocation::new("/data/volumes", 100);
    let entries = vec![
        entry("1.dat"),
        entry("2.dat"),
        entry("3.dat"),
        entry("4.dat"),
        entry("5.dat"),
    ];
    let (cands, _) = loc.plan_load(&entries);
    let parts = partition_candidates(&cands, 2);
    assert_eq!(parts.len(), 2);
    assert_eq!(parts[0].len(), 3);
    assert_eq!(parts[1].len(), 2);
    assert_eq!(parts[0][0].vid, 1);
    assert_eq!(parts[1][0].vid, 4);

    let clamped = partition_candidates(&cands, 0);
    assert_eq!(clamped.len(), 1);
    assert_eq!(clamped[0].len(), 5);

    let empty: Vec<volume_registry::loader::Candidate> = Vec::new();
    assert!(partition_candidates(&empty, 4).is_empty());
}
