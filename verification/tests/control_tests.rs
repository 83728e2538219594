use std::io::Write;
use sysaudit::packages::{
    find_md5sums, md5sums_in_control, verify_control_member, ArEntryAction, Package, PackageError,
};

const MD5SUMS: &[u8] = b"aaaa  usr/bin/a\nbbbb  usr/bin/b\n";

fn control_tar(entries: &[(&str, &[u8])]) -> Vec<u8> {
    let mut builder = tar::Builder::new(Vec::new());
    for (path, data) in entries {
        let mut header = tar::Header::new_gnu();
        header.set_size(data.len() as u64);
        header.set_mode(0o644);
        header.set_cksum();
        builder.append_data(&mut header, path, *data).unwrap();
    }
    builder.into_inner().unwrap()
}

fn usual_control() -> Vec<u8> {
    control_tar(&[("./control", b"Package: p\n"), ("./md5sums", MD5SUMS), ("./postinst", b"#!/bin/sh\n")])
}

fn gzip(data: &[u8]) -> Vec<u8> {
    let mut encoder = flate2::write::GzEncoder::new(Vec::new(), flate2::Compression::default());
    encoder.write_all(data).unwrap();
    encoder.finish().unwrap()
}

fn xz(data: &[u8]) -> Vec<u8> {
    let mut writer = lzma_rust2::XzWriter::new(Vec::new(), lzma_rust2::XzOptions::with_preset(6)).unwrap();
    writer.write_all(data).unwrap();
    writer.finish().unwrap()
}

fn zstd(data: &[u8]) -> Vec<u8> {
    ruzstd::encoding::compress_to_vec(data, ruzstd::encoding::CompressionLevel::Fastest)
}

fn package(files: &[(&str, &str)]) -> Package {
    let mut p = Package::new("p".to_string());
    for (path, hash) in files {
        p.add_file(path.to_string(), hash.to_string());
    }
    p
}

#[test]
fn md5sums_found_in_plain_control_archive() {
    assert_eq!(md5sums_in_control(ArEntryAction::Plain, &usual_control()), Ok(Some(MD5SUMS.to_vec())));
}

#[test]
fn md5sums_found_in_gzip_control_archive() {
    assert_eq!(md5sums_in_control(ArEntryAction::Gzip, &gzip(&usual_control())), Ok(Some(MD5SUMS.to_vec())));
}

#[test]
fn md5sums_found_in_xz_control_archive() {
    assert_eq!(md5sums_in_control(ArEntryAction::Xz, &xz(&usual_control())), Ok(Some(MD5SUMS.to_vec())));
}

#[test]
fn md5sums_found_in_zstd_control_archive() {
    assert_eq!(md5sums_in_control(ArEntryAction::Zstd, &zstd(&usual_control())), Ok(Some(MD5SUMS.to_vec())));
}

#[test]
fn skipped_member_holds_no_md5sums() {
    assert_eq!(md5sums_in_control(ArEntryAction::Skip, b"not even an archive"), Ok(None));
}

#[test]
fn control_archive_without_md5sums() {
    let tar = control_tar(&[("./control", b"Package: p\n"), ("./md5sums.old", b"x")]);
    assert_eq!(md5sums_in_control(ArEntryAction::Plain, &tar), Ok(None));
}

#[test]
fn md5sums_in_a_subdirectory_counts() {
    let tar = control_tar(&[("deep/dir/md5sums", b"cc  x\n")]);
    assert_eq!(md5sums_in_control(ArEntryAction::Plain, &tar), Ok(Some(b"cc  x\n".to_vec())));
}

#[test]
fn first_md5sums_wins() {
    let tar = control_tar(&[("./md5sums", b"first"), ("other/md5sums", b"second")]);
    assert_eq!(md5sums_in_control(ArEntryAction::Plain, &tar), Ok(Some(b"first".to_vec())));
}

#[test]
fn undecodable_member_is_an_error() {
    let junk = b"this is not compressed at all".to_vec();
    assert_eq!(md5sums_in_control(ArEntryAction::Gzip, &junk), Err(PackageError::UndecodableControlArchive));
    assert_eq!(md5sums_in_control(ArEntryAction::Xz, &junk), Err(PackageError::UndecodableControlArchive));
    assert_eq!(md5sums_in_control(ArEntryAction::Zstd, &junk), Err(PackageError::UndecodableControlArchive));
}

#[test]
fn corrupt_tar_header_is_an_error() {
    let mut tar = usual_control();
    tar[0] ^= 0x55;
    assert_eq!(md5sums_in_control(ArEntryAction::Plain, &tar), Err(PackageError::MalformedControlArchive));
}

#[test]
fn entries_are_searched_in_order() {
    let entries = vec![
        Some((b"./control".to_vec(), b"c".to_vec())),
        Some((b"./md5sums".to_vec(), b"m".to_vec())),
        None,
    ];
    assert_eq!(find_md5sums(entries), Ok(Some(b"m".to_vec())));
    let entries = vec![Some((b"./control".to_vec(), b"c".to_vec())), None, Some((b"md5sums".to_vec(), b"m".to_vec()))];
    assert_eq!(find_md5sums(entries), Err(PackageError::MalformedControlArchive));
    assert_eq!(find_md5sums(Vec::new()), Ok(None));
}

#[test]
fn control_member_verifies_package() {
    let p = package(&[("/usr/bin/a", "aaaa"), ("/usr/bin/b", "ffff"), ("/usr/bin/c", "cccc")]);
    let member = gzip(&usual_control());
    let report = verify_control_member(&p, ArEntryAction::Gzip, &member).unwrap();
    assert_eq!(report, Some((vec!["/usr/bin/b".to_string()], vec!["/usr/bin/c".to_string()])));
}

#[test]
fn control_member_without_md5sums_gives_no_report() {
    let p = package(&[("/usr/bin/a", "aaaa")]);
    let member = control_tar(&[("./control", b"Package: p\n")]);
    assert_eq!(verify_control_member(&p, ArEntryAction::Plain, &member), Ok(None));
    assert_eq!(verify_control_member(&p, ArEntryAction::Skip, &member), Ok(None));
}

#[test]
fn control_member_with_bad_md5sums() {
    let p = package(&[("/usr/bin/a", "aaaa")]);
    let member = control_tar(&[("./md5sums", b"onlyhash\n")]);
    assert_eq!(verify_control_member(&p, ArEntryAction::Plain, &member), Err(PackageError::MalformedMd5sumsLine));
    let member = control_tar(&[("./md5sums", &[0xff, 0xfe])]);
    assert_eq!(verify_control_member(&p, ArEntryAction::Plain, &member), Err(PackageError::NonUtf8Md5sums));
    assert_eq!(
        verify_control_member(&p, ArEntryAction::Xz, b"junk"),
        Err(PackageError::UndecodableControlArchive)
    );
}
