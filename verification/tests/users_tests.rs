use sysaudit::users::{
    audit_user, group_line, not_allowed_remark, parse_allow_list, passwd_line, shadow_line,
    user_line, AccountField, User, UserAudit, UserError,
};

fn user(name: &str, uid: u32, groups: &[&str]) -> User {
    User {
        name: name.to_string(),
        uid,
        home_directory: format!("/home/{}", name),
        shell: "/bin/bash".to_string(),
        is_locked: false,
        groups: groups.iter().map(|g| g.to_string()).collect(),
        deleted: false,
    }
}

#[test]
fn passwd_account() {
    let u = passwd_line("alice:x:1000:1000:Alice:/home/alice:/bin/bash").unwrap().unwrap();
    assert_eq!(u.name, "alice");
    assert_eq!(u.uid, 1000);
    assert_eq!(u.home_directory, "/home/alice");
    assert_eq!(u.shell, "/bin/bash");
    assert!(!u.is_locked);
    assert!(u.groups.is_empty());
    assert!(!u.deleted);
}

#[test]
fn passwd_root_is_skipped() {
    assert!(passwd_line("root:x:0:0:root:/root:/bin/bash").unwrap().is_none());
}

#[test]
fn passwd_uid_with_plus_sign() {
    assert_eq!(passwd_line("a:x:+7:0::/h:/s").unwrap().unwrap().uid, 7);
}

#[test]
fn passwd_errors() {
    assert!(matches!(
        passwd_line("broken:x"),
        Err(UserError::MissingField { field: AccountField::Uid, ref line }) if line == "broken:x"
    ));
    assert!(matches!(passwd_line("a:x:-1:0::/h:/s"), Err(UserError::InvalidUid)));
    assert!(matches!(passwd_line("a:x:4294967296:0::/h:/s"), Err(UserError::InvalidUid)));
    assert!(matches!(passwd_line("a:x:12:0:"), Err(UserError::MissingField { field: AccountField::HomeDirectory, .. })));
    assert!(matches!(passwd_line("a:x:12:0::/h"), Err(UserError::MissingField { field: AccountField::Shell, .. })));
}

#[test]
fn shadow_locks() {
    let mut users = vec![user("a", 1000, &[]), user("b", 1001, &[]), user("c", 1002, &[])];
    users[2].is_locked = true;
    shadow_line(&mut users, "a:!$6$x:19000::::::").unwrap();
    shadow_line(&mut users, "b:*:19000::::::").unwrap();
    shadow_line(&mut users, "c:$6$hash:19000::::::").unwrap();
    shadow_line(&mut users, "root").unwrap();
    shadow_line(&mut users, "nobody").unwrap();
    assert!(users[0].is_locked);
    assert!(users[1].is_locked);
    assert!(!users[2].is_locked);
    assert!(matches!(
        shadow_line(&mut users, "a"),
        Err(UserError::MissingField { field: AccountField::Password, .. })
    ));
}

#[test]
fn group_members() {
    let mut users = vec![user("a", 1000, &[]), user("b", 1001, &[])];
    group_line(&mut users, "sudo:x:27:a,,b,zed").unwrap();
    group_line(&mut users, "adm:x:4:").unwrap();
    assert_eq!(users[0].groups, vec!["sudo".to_string()]);
    assert_eq!(users[1].groups, vec!["sudo".to_string()]);
    assert!(matches!(
        group_line(&mut users, "sudo:x:27"),
        Err(UserError::MissingField { field: AccountField::GroupMembers, .. })
    ));
}

#[test]
fn allow_lists() {
    assert_eq!(parse_allow_list("alice\n\nbob\n"), vec!["alice".to_string(), "bob".to_string()]);
    assert!(parse_allow_list("").is_empty());
}

#[test]
fn audit_of_system_admin() {
    let mut u = user("svc", 100, &["sudo", "wheel", "adm", "sudo"]);
    let a = audit_user(&mut u, &vec![], &vec![]);
    assert_eq!(a, UserAudit { make_noninteractive: true, remove_admin: true, allowed: false });
    assert!(u.is_locked);
    assert_eq!(u.groups, vec!["wheel".to_string(), "adm".to_string()]);
    let b = audit_user(&mut u, &vec![], &vec![]);
    assert_eq!(b, UserAudit { make_noninteractive: true, remove_admin: true, allowed: false });
    assert_eq!(u.groups, vec!["wheel".to_string(), "adm".to_string()]);
}

#[test]
fn audit_of_allowed_admin() {
    let mut u = user("alice", 1000, &["sudo"]);
    let a = audit_user(&mut u, &vec!["alice".to_string()], &vec!["alice".to_string()]);
    assert_eq!(a, UserAudit { make_noninteractive: false, remove_admin: false, allowed: true });
    assert!(!u.is_locked);
    assert_eq!(u.groups, vec!["sudo".to_string()]);
}

#[test]
fn report_fragments() {
    assert_eq!(user_line("bob"), "\u{1b}[33mUser:\u{1b}[39m bob");
    assert_eq!(not_allowed_remark(), " - \u{1b}[31mNot allowed\u{1b}[39m");
}

fn lines(items: &[&str]) -> Vec<String> {
    items.iter().map(|s| s.to_string()).collect()
}

#[test]
fn whole_account_databases() {
    let passwd = lines(&[
        "root:x:0:0:root:/root:/bin/bash",
        "daemon:x:1:1:daemon:/usr/sbin:/usr/sbin/nologin",
        "alice:x:1000:1000:Alice:/home/alice:/bin/bash",
    ]);
    let shadow = lines(&["root:*:1::::::", "daemon:*:1::::::", "alice:$6$a:1::::::", "alice:!$6$a:1::::::"]);
    let group = lines(&["root:x:0:", "sudo:x:27:alice", "adm:x:4:daemon,alice"]);
    let users = sysaudit::users::get_users(&passwd, &shadow, &group).unwrap();
    assert_eq!(users.len(), 2);
    assert_eq!(users[0].name, "daemon");
    assert!(users[0].is_locked);
    assert_eq!(users[0].groups, vec!["adm".to_string()]);
    assert_eq!(users[1].name, "alice");
    assert!(users[1].is_locked, "the last shadow line for an account wins");
    assert_eq!(users[1].groups, vec!["sudo".to_string(), "adm".to_string()]);
}

#[test]
fn first_malformed_line_is_the_error() {
    let passwd = lines(&["a:x:1:1::/h:/s", "b:x", "c:x:nan:1::/h:/s"]);
    assert!(matches!(
        sysaudit::users::read_passwd(&passwd),
        Err(UserError::MissingField { field: AccountField::Uid, ref line }) if line == "b:x"
    ));
    let users = sysaudit::users::read_passwd(&lines(&["a:x:1:1::/h:/s"])).unwrap();
    let users = sysaudit::users::apply_shadow(users, &lines(&["zz", "a:*"])).unwrap();
    assert!(users[0].is_locked);
    assert!(matches!(
        sysaudit::users::apply_shadow(users, &lines(&["a", "a:*"])),
        Err(UserError::MissingField { field: AccountField::Password, .. })
    ));
    let users = sysaudit::users::read_passwd(&lines(&["a:x:1:1::/h:/s"])).unwrap();
    assert!(matches!(
        sysaudit::users::get_users(&lines(&["a:x:1:1::/h:/s"]), &lines(&[]), &lines(&["g:x:1"])),
        Err(UserError::MissingField { field: AccountField::GroupMembers, .. })
    ));
    let users = sysaudit::users::apply_group(users, &lines(&["g:x:1:a"])).unwrap();
    assert_eq!(users[0].groups, vec!["g".to_string()]);
}

#[test]
fn passwd_uid_edges_follow_str_parse() {
    for uid in ["0", "4294967295", "+4294967295", "007", "+0", "4294967296", "99999999999", "", "+", "++1", "1 ", " 1", "1a", "-0", "٣"] {
        let line = format!("a:x:{}:0::/h:/s", uid);
        match uid.parse::<u32>() {
            Ok(n) => assert_eq!(passwd_line(&line).unwrap().unwrap().uid, n, "uid {:?}", uid),
            Err(_) => assert!(matches!(passwd_line(&line), Err(UserError::InvalidUid)), "uid {:?}", uid),
        }
    }
}
