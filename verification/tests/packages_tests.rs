use sysaudit::digest::FileHasher;
use sysaudit::packages::{
    add_conffile, apply_apt_lines, is_package_list, ar_entry_action, check_md5sums, download_location,
    dpkg_info_file, failed_file_line, get_base_url, is_md5sums_path, remove_conffiles,
    set_conffiles, summary_line, ArEntryAction, DpkgFileKind, Package, PackageError,
};

fn package(name: &str, files: &[(&str, &str)]) -> Package {
    let mut p = Package::new(name.to_string());
    for (path, hash) in files {
        p.add_file(path.to_string(), hash.to_string());
    }
    p
}

#[test]
fn base_url_from_apt_list_name() {
    let url = get_base_url("us.archive.ubuntu.com_ubuntu_dists_noble_main_binary-amd64_Packages").unwrap();
    assert_eq!(url, "https://us.archive.ubuntu.com/ubuntu");
}

#[test]
fn base_url_with_deeper_path() {
    let url = get_base_url("mirror.example.org_debian_archive_dists_bookworm_main_binary-amd64_Packages").unwrap();
    assert_eq!(url, "https://mirror.example.org/debian/archive");
}

#[test]
fn base_url_with_empty_path() {
    let url = get_base_url("host_dists_x_Packages").unwrap();
    assert_eq!(url, "https://host/");
}

#[test]
fn base_url_without_dists_fails() {
    assert_eq!(get_base_url("host_ubuntu_Packages"), Err(PackageError::NoDistsComponent));
}

#[test]
fn package_list_sets_download_urls() {
    let mut pkgs = vec![package("bash", &[]), package("coreutils", &[])];
    let lines: Vec<String> = vec![
        "Package: bash".to_string(),
        "Version: 5.2".to_string(),
        "Filename: pool/main/b/bash/bash_5.2_amd64.deb".to_string(),
        "".to_string(),
        "Package: zsh".to_string(),
        "Filename: pool/main/z/zsh/zsh.deb".to_string(),
    ];
    let name = "archive.ubuntu.com_ubuntu_dists_noble_main_binary-amd64_Packages";
    assert!(is_package_list(name));
    let base = get_base_url(name).unwrap();
    apply_apt_lines(&mut pkgs, &base, &lines);
    assert_eq!(
        pkgs[0].download_url.as_deref(),
        Some("https://archive.ubuntu.com/ubuntu/pool/main/b/bash/bash_5.2_amd64.deb")
    );
    assert_eq!(pkgs[1].download_url, None);
}

#[test]
fn package_list_later_filename_wins() {
    let mut pkgs = vec![package("bash", &[])];
    let lines: Vec<String> = vec![
        "Package: bash".to_string(),
        "Filename: a.deb".to_string(),
        "Filename: b.deb".to_string(),
    ];
    apply_apt_lines(&mut pkgs, "https://h/", &lines);
    assert_eq!(pkgs[0].download_url.as_deref(), Some("https://h//b.deb"));
}

#[test]
fn only_package_indexes_are_lists() {
    assert!(is_package_list("h_dists_x_Packages"));
    assert!(!is_package_list("h_dists_Release"));
    assert!(!is_package_list("Packages"));
}

#[test]
fn filename_before_any_package_names_nothing() {
    let mut pkgs = vec![package("", &[]), package("bash", &[])];
    let lines: Vec<String> = vec!["Filename: a.deb".to_string()];
    apply_apt_lines(&mut pkgs, "https://h", &lines);
    assert_eq!(pkgs[0].download_url.as_deref(), Some("https://h/a.deb"));
    assert_eq!(pkgs[1].download_url, None);
}

#[test]
fn dpkg_info_kinds() {
    assert_eq!(dpkg_info_file(b"bash.list"), Ok(Some((DpkgFileKind::List, "bash".to_string()))));
    assert_eq!(
        dpkg_info_file(b"libc6:amd64.conffiles"),
        Ok(Some((DpkgFileKind::Conffiles, "libc6".to_string())))
    );
    assert_eq!(dpkg_info_file(b"bash.md5sums"), Ok(None));
    assert_eq!(dpkg_info_file(b".list"), Ok(None));
    assert_eq!(dpkg_info_file(b"list"), Ok(None));
    assert_eq!(dpkg_info_file(b"a.b.list"), Ok(Some((DpkgFileKind::List, "a.b".to_string()))));
    assert_eq!(dpkg_info_file(b"bad\xff.list"), Err(PackageError::NonUtf8FileStem));
    assert_eq!(dpkg_info_file(b"bad.\xfflist"), Ok(None));
}

#[test]
fn recorded_fingerprint_replaces_earlier_one() {
    let mut p = package("p", &[("/a", "1"), ("/b", "2")]);
    p.add_file("/a".to_string(), "3".to_string());
    assert_eq!(p.files, vec![("/a".to_string(), "3".to_string()), ("/b".to_string(), "2".to_string())]);
}

#[test]
fn md5_of_empty_and_of_chunks() {
    let h = FileHasher::new();
    assert_eq!(h.finish(), "d41d8cd98f00b204e9800998ecf8427e");
    let mut h = FileHasher::new();
    h.feed(b"ab");
    h.feed(b"c");
    assert_eq!(h.finish(), "900150983cd24fb0d6963f7d28e17f72");
}

#[test]
fn conffiles_are_removed_from_their_package() {
    let mut pkgs = vec![
        package("a", &[("/etc/a.conf", "1"), ("/usr/bin/a", "2")]),
        package("b", &[("/etc/a.conf", "3")]),
    ];
    let mut confs: Vec<(String, Vec<String>)> = Vec::new();
    let mut paths: Vec<String> = Vec::new();
    add_conffile(&mut paths, "/etc/a.conf".to_string());
    add_conffile(&mut paths, "/etc/a.conf".to_string());
    assert_eq!(paths.len(), 1);
    set_conffiles(&mut confs, "a".to_string(), paths);
    set_conffiles(&mut confs, "zz".to_string(), vec!["/x".to_string()]);
    remove_conffiles(&mut pkgs, &confs);
    assert_eq!(pkgs[0].files, vec![("/usr/bin/a".to_string(), "2".to_string())]);
    assert_eq!(pkgs[1].files.len(), 1);
}

#[test]
fn conffiles_of_same_package_are_replaced() {
    let mut confs: Vec<(String, Vec<String>)> = Vec::new();
    set_conffiles(&mut confs, "a".to_string(), vec!["/1".to_string()]);
    set_conffiles(&mut confs, "a".to_string(), vec!["/2".to_string()]);
    assert_eq!(confs, vec![("a".to_string(), vec!["/2".to_string()])]);
}

#[test]
fn download_location_downgrades_scheme() {
    let mut p = package("p", &[]);
    assert_eq!(download_location(&p), Err(PackageError::MissingDownloadUrl));
    p.download_url = Some("https://h/https/x.deb".to_string());
    assert_eq!(download_location(&p).unwrap(), "http://h/http/x.deb");
}

#[test]
fn archive_members() {
    assert_eq!(ar_entry_action(b"debian-binary"), Ok(ArEntryAction::Skip));
    assert_eq!(ar_entry_action(b"control.tar.zst"), Ok(ArEntryAction::Zstd));
    assert_eq!(ar_entry_action(b"control.tar.xz"), Ok(ArEntryAction::Xz));
    assert_eq!(ar_entry_action(b"control.tar.gz"), Ok(ArEntryAction::Gzip));
    assert_eq!(ar_entry_action(b"control.tar"), Ok(ArEntryAction::Plain));
    assert_eq!(ar_entry_action(b"data.tar.xz"), Ok(ArEntryAction::Skip));
    assert_eq!(ar_entry_action(b"control\xff"), Err(PackageError::NonUtf8EntryName));
}

#[test]
fn md5sums_member_paths() {
    assert!(is_md5sums_path(b"./md5sums"));
    assert!(is_md5sums_path(b"md5sums"));
    assert!(is_md5sums_path(b"a//md5sums/"));
    assert!(is_md5sums_path(b"md5sums/."));
    assert!(!is_md5sums_path(b"./conffiles"));
    assert!(!is_md5sums_path(b"md5sums/.."));
    assert!(!is_md5sums_path(b"."));
    assert!(!is_md5sums_path(b""));
}

#[test]
fn md5sums_comparison() {
    let p = package("p", &[("/usr/bin/a", "aaa"), ("/usr/bin/b", "bbb"), ("/usr/bin/c", "ccc")]);
    let data = b"aaa  usr/bin/a\nxxx  usr/bin/b\r\n";
    let (failed, missed) = check_md5sums(&p, data).unwrap();
    assert_eq!(failed, vec!["/usr/bin/b".to_string()]);
    assert_eq!(missed, vec!["/usr/bin/c".to_string()]);
}

#[test]
fn md5sums_last_line_for_a_path_wins() {
    let p = package("p", &[("/a", "2")]);
    let (failed, missed) = check_md5sums(&p, b"1 a\n2 a").unwrap();
    assert!(failed.is_empty());
    assert!(missed.is_empty());
}

#[test]
fn md5sums_errors() {
    let p = package("p", &[("/a", "1")]);
    assert_eq!(check_md5sums(&p, b"1 a\n\n2 b"), Err(PackageError::MalformedMd5sumsLine));
    assert_eq!(check_md5sums(&p, b"onlyhash\n"), Err(PackageError::MalformedMd5sumsLine));
    assert_eq!(check_md5sums(&p, b"1 \xff"), Err(PackageError::NonUtf8Md5sums));
    assert_eq!(check_md5sums(&p, b""), Ok((vec![], vec!["/a".to_string()])));
}

#[test]
fn agreeing_package_reports_nothing() {
    let p = package("p", &[("/x", "1"), ("/y", "2")]);
    assert_eq!(check_md5sums(&p, b"2 y\n1 x\n"), Ok((vec![], vec![])));
}

#[test]
fn summary_lines() {
    assert_eq!(summary_line(0, 3), "\u{1b}[32m 0 failed, 3 missed\u{1b}[39m");
    assert_eq!(summary_line(12, 0), "\u{1b}[31m 12 failed, 0 missed\u{1b}[39m");
    assert_eq!(failed_file_line("/etc/x"), "  /etc/x: FAILED");
}

#[test]
fn failed_and_missed_are_distinct_and_disjoint() {
    let p = package("p", &[("/a", "1"), ("/b", "2"), ("/c", "3"), ("/d", "4")]);
    let (failed, missed) = check_md5sums(&p, b"9 a\n2 b\n9 c\n").unwrap();
    assert_eq!(failed, vec!["/a".to_string(), "/c".to_string()]);
    assert_eq!(missed, vec!["/d".to_string()]);
    assert!(failed.iter().all(|f| !missed.contains(f)));
    assert!(failed.len() + missed.len() <= p.files.len());
}

#[test]
fn apt_lines_touch_only_download_locations() {
    let mut pkgs = vec![package("bash", &[("/bin/bash", "h1")]), package("zsh", &[("/bin/zsh", "h2"), ("/etc/zshrc", "h3")])];
    let lines: Vec<String> = vec![
        "Package: zsh".to_string(),
        "Filename: pool/z.deb".to_string(),
        "Package: unknown".to_string(),
        "Filename: pool/u.deb".to_string(),
    ];
    apply_apt_lines(&mut pkgs, "https://h", &lines);
    assert_eq!(pkgs.len(), 2);
    assert_eq!(pkgs[0].name, "bash");
    assert_eq!(pkgs[0].files, vec![("/bin/bash".to_string(), "h1".to_string())]);
    assert_eq!(pkgs[0].download_url, None);
    assert_eq!(pkgs[1].name, "zsh");
    assert_eq!(pkgs[1].files.len(), 2);
    assert_eq!(pkgs[1].download_url.as_deref(), Some("https://h/pool/z.deb"));
}
