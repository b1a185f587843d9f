use volume_registry::codec::{parse_volume_file_name, VolumeFileError};
use volume_registry::location::DiskLocation;

#[test]
fn parse_collection_and_id() {
    let r = parse_volume_file_name("photos_7.dat", false);
    assert_eq!(r, Ok((7, String::from("photos"))));
}

#[test]
fn parse_bare_id() {
    let r = parse_volume_file_name("9.dat", false);
    assert_eq!(r, Ok((9, String::new())));
}

#[test]
fn parse_leading_separator_means_empty_collection() {
    let r = parse_volume_file_name("_7.dat", false);
    assert_eq!(r, Ok((7, String::new())));
}

#[test]
fn parse_largest_identifier() {
    let r = parse_volume_file_name("4294967295.dat", false);
    assert_eq!(r, Ok((4294967295, String::new())));
}

#[test]
fn parse_rejects_wrong_extension() {
    let r = parse_volume_file_name("notes.txt", false);
    assert_eq!(r, Err(VolumeFileError::NotVolumeFile));
}

#[test]
fn parse_rejects_directory() {
    let r = parse_volume_file_name("photos_7.dat", true);
    assert_eq!(r, Err(VolumeFileError::NotVolumeFile));
}

#[test]
fn parse_rejects_bare_extension() {
    let r = parse_volume_file_name(".dat", false);
    assert_eq!(r, Err(VolumeFileError::NotVolumeFile));
}

#[test]
fn parse_rejects_nonnumeric_identifier() {
    let r = parse_volume_file_name("photos_x.dat", false);
    assert_eq!(r, Err(VolumeFileError::MalformedIdentifier));
}

#[test]
fn parse_rejects_empty_identifier() {
    let r = parse_volume_file_name("photos_.dat", false);
    assert_eq!(r, Err(VolumeFileError::MalformedIdentifier));
}

#[test]
fn parse_rejects_second_separator_in_identifier() {
    let r = parse_volume_file_name("a_b_7.dat", false);
    assert_eq!(r, Err(VolumeFileError::MalformedIdentifier));
}

#[test]
fn parse_rejects_identifier_overflow() {
    let r = parse_volume_file_name("4294967296.dat", false);
    assert_eq!(r, Err(VolumeFileError::MalformedIdentifier));
}

#[test]
fn parse_rejects_signed_identifier() {
    let r = parse_volume_file_name("+7.dat", false);
    assert_eq!(r, Err(VolumeFileError::MalformedIdentifier));
}

#[test]
fn location_method_matches_free_function() {
    let loc = DiskLocation::new("/data/volumes", 100);
    assert_eq!(
        loc.volume_id_from_path("photos_7.dat", false),
        Ok((7, String::from("photos")))
    );
    assert_eq!(
        loc.volume_id_from_path("notes.txt", false),
        Err(VolumeFileError::NotVolumeFile)
    );
}
