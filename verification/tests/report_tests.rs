use sysaudit::files::{directory_heading, empty_directory_line, file_section, selects_entry, FilesError, PrintName};
use sysaudit::networking::{connection_row, connections_header, protocol_label, SocketOwners};
use sysaudit::paths::file_name;
use sysaudit::processes::{
    check, command_line, executable_suggests_script, parent_line, pid_line, script_heading, ProcessInfo,
};
use sysaudit::shell::{fd_path, script_dir, script_path, tar_layout};

fn v(items: &[&str]) -> Vec<String> {
    items.iter().map(|s| s.to_string()).collect()
}

#[test]
fn file_names_of_paths() {
    assert_eq!(file_name(b"/etc/sudoers"), Some(b"sudoers".to_vec()));
    assert_eq!(file_name(b"/etc/"), Some(b"etc".to_vec()));
    assert_eq!(file_name(b"/"), None);
    assert_eq!(file_name(b"a/.."), None);
    assert_eq!(file_name(b"./x/."), Some(b"x".to_vec()));
}

#[test]
fn file_section_with_full_name() {
    let out = file_section("/etc/crontab", b"/etc/crontab", PrintName::Full, 0, &v(&["a", "b"])).unwrap();
    assert_eq!(out, v(&["\u{1b}[33mFile:\u{1b}[39m /etc/crontab \u{1b}[33m\u{1b}[39m", "a\nb"]));
}

#[test]
fn file_section_of_empty_file() {
    let out = file_section("/x/y", b"/x/y", PrintName::End, 1, &v(&[" ", ""])).unwrap();
    assert_eq!(out, v(&["    \u{1b}[33mFile:\u{1b}[39m y \u{1b}[33m(empty)\u{1b}[39m"]));
}

#[test]
fn file_section_without_name() {
    assert_eq!(file_section("/", b"/", PrintName::No, 0, &v(&["t"])), Ok(v(&["t"])));
    assert_eq!(file_section("/", b"/", PrintName::No, 0, &v(&[])), Ok(v(&[])));
}

#[test]
fn file_section_errors() {
    assert_eq!(file_section("/", b"/", PrintName::End, 0, &v(&[])), Err(FilesError::MissingFileName));
    assert_eq!(file_section("/a\u{fffd}", b"/a\xff", PrintName::End, 0, &v(&[])), Err(FilesError::NonUtf8FileName));
    assert!(file_section("/a\u{fffd}", b"/a\xff", PrintName::Full, 0, &v(&[])).is_ok());
}

#[test]
fn directory_fragments() {
    assert_eq!(directory_heading("/etc/cron.d"), "\n\u{1b}[33mDirectory:\u{1b}[39m /etc/cron.d");
    assert_eq!(empty_directory_line(), "    \u{1b}[33mDirectory is empty\u{1b}[39m");
}

#[test]
fn directory_entry_selection() {
    assert_eq!(selects_entry(&v(&[]), b"\xff"), Ok(true));
    assert_eq!(selects_entry(&v(&["rc", "environment"]), b"rc"), Ok(true));
    assert_eq!(selects_entry(&v(&["rc"]), b"known_hosts"), Ok(false));
    assert_eq!(selects_entry(&v(&["rc"]), b"\xff"), Err(FilesError::NonUtf8FileName));
}

#[test]
fn socket_table() {
    assert_eq!(protocol_label(false, true), "v4/tcp");
    assert_eq!(protocol_label(true, false), "v6/udp");
    let mut owners = SocketOwners::new();
    owners.record(5, "a".to_string(), 1);
    owners.record(7, "b".to_string(), 2);
    owners.record(5, "c".to_string(), 3);
    assert_eq!(owners.owner(5), Some(("c", 3)));
    assert_eq!(owners.owner(7), Some(("b", 2)));
    assert_eq!(owners.owner(9), None);
    let row = connection_row("127.0.0.1:22", "0.0.0.0:0", "Listen", "v4/tcp", 1234, Some(("sshd", 812)));
    assert_eq!(
        row,
        format!("{:<26} {:<26} {:<15} {:<9} {:<7} {}/{}", "127.0.0.1:22", "0.0.0.0:0", "Listen", "v4/tcp", 1234, "sshd", 812)
    );
    let row = connection_row("a", "b", "c", "d", 9, None);
    assert_eq!(row, format!("{:<26} {:<26} {:<15} {:<9} {:<7}", "a", "b", "c", "d", 9));
    assert_eq!(
        connections_header(),
        format!("{:<26} {:<26} {:<15} {:<9} {:<7} Command/PID", "Local Address", "Remote Address", "State", "Protocol", "Inode")
    );
}

#[test]
fn script_processes() {
    let procs = vec![
        ProcessInfo { pid: 1, exe_path: Some(b"/usr/lib/systemd/systemd".to_vec()), map_paths: Some(vec![None]) },
        ProcessInfo { pid: 2, exe_path: Some(b"/usr/bin/python3.12".to_vec()), map_paths: None },
        ProcessInfo { pid: 3, exe_path: Some(b"/usr/bin/bash".to_vec()), map_paths: None },
        ProcessInfo { pid: 4, exe_path: None, map_paths: Some(vec![None, Some(b"/usr/lib/libpython3.so".to_vec())]) },
        ProcessInfo { pid: 5, exe_path: Some(b"/usr/bin/py\xff".to_vec()), map_paths: Some(vec![Some(b"/x/python\xff".to_vec())]) },
        ProcessInfo { pid: 6, exe_path: None, map_paths: None },
    ];
    assert_eq!(check(&procs), vec![1, 2, 3]);
}

#[test]
fn executable_name_alone_can_decide() {
    assert!(executable_suggests_script(&Some(b"/opt/bin/mybash".to_vec())));
    assert!(executable_suggests_script(&Some(b"python3".to_vec())));
    assert!(!executable_suggests_script(&Some(b"/usr/lib/python3/bin/node".to_vec())));
    assert!(!executable_suggests_script(&Some(b"/usr/bin/py\xff".to_vec())));
    assert!(!executable_suggests_script(&None));
    let decided = ProcessInfo { pid: 9, exe_path: Some(b"/bin/bash".to_vec()), map_paths: None };
    assert_eq!(check(&vec![decided]), vec![0]);
}

#[test]
fn process_report_lines() {
    assert_eq!(script_heading(), "\u{1b}[31mFound potential script process:\u{1b}[39m");
    assert_eq!(pid_line(42), "  PID: 42");
    assert_eq!(command_line(&v(&["python3", "-m", "http.server"])), "  Command: python3 -m http.server");
    assert_eq!(parent_line(1, &v(&["/sbin/init"])), "  Parent: 1 - /sbin/init");
    assert_eq!(parent_line(7, &v(&[])), "  Parent: 7 - ");
}

#[test]
fn tool_layout() {
    assert_eq!(script_dir("lynis/lynis"), "lynis");
    assert_eq!(script_dir("loki"), "");
    assert_eq!(script_dir("a/b/c"), "a/b");
    assert_eq!(script_path("linpeas.sh"), "/tmp/linpeas.sh");
    let l = tar_layout("lynis", "lynis/lynis");
    assert_eq!(l.directory, "/tmp/lynis");
    assert_eq!(l.archive, "/tmp/lynis/lynis.tar");
    assert_eq!(l.script, "/tmp/lynis/lynis/lynis");
    assert_eq!(l.working_dir, "/tmp/lynis/lynis");
    assert_eq!(fd_path(3), "/proc/self/fd/3");
}
