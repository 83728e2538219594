//! Local accounts: reading them from `/etc/passwd`, `/etc/shadow` and
//! `/etc/group`, and deciding what the audit does to each.
use vstd::prelude::*;
use crate::text::{
    strs, split_on, starts_with, first_index, lemma_first_index, lemma_split_on_nonempty, split,
    to_owned, push_str, str_eq, position_of, chars_of,
};

verus! {

/// A field of an account database line.
#[derive(Debug, Clone, Copy, PartialEq, Eq, Structural)]
pub enum AccountField {
    /// The user id (third field of `/etc/passwd`).
    Uid,
    /// The home directory (sixth field of `/etc/passwd`).
    HomeDirectory,
    /// The login shell (seventh field of `/etc/passwd`).
    Shell,
    /// The password (second field of `/etc/shadow`).
    Password,
    /// The member list (fourth field of `/etc/group`).
    GroupMembers,
}

/// What can go wrong reading the account databases.
#[derive(Debug)]
pub enum UserError {
    /// The line lacks a field.
    MissingField { field: AccountField, line: String },
    /// The user id is not a decimal number that fits 32 bits.
    InvalidUid,
}

/// A local account.
#[derive(Debug)]
pub struct User {
    pub name: String,
    pub uid: u32,
    pub home_directory: String,
    pub shell: String,
    pub is_locked: bool,
    pub groups: Vec<String>,
    pub deleted: bool,
}

/// The abstract value of an account.
pub struct UserView {
    pub name: Seq<char>,
    pub uid: u32,
    pub home_directory: Seq<char>,
    pub shell: Seq<char>,
    pub is_locked: bool,
    pub groups: Seq<Seq<char>>,
    pub deleted: bool,
}

impl View for User {
    type V = UserView;

    open spec fn view(&self) -> UserView {
        UserView {
            name: self.name@,
            uid: self.uid,
            home_directory: self.home_directory@,
            shell: self.shell@,
            is_locked: self.is_locked,
            groups: strs(self.groups@),
            deleted: self.deleted,
        }
    }
}

/// The abstract values of a list of accounts.
pub open spec fn user_views(v: Seq<User>) -> Seq<UserView> {
    v.map_values(|u: User| u@)
}

/// The names of a list of accounts.
pub open spec fn user_names(v: Seq<UserView>) -> Seq<Seq<char>> {
    v.map_values(|u: UserView| u.name)
}

// ---------------------------------------------------------------------------
// Decimal user ids
// ---------------------------------------------------------------------------

/// `s` is a non-empty run of ASCII digits.
pub open spec fn is_digits(s: Seq<char>) -> bool {
    s.len() > 0 && forall|i: int| 0 <= i < s.len() ==> '0' <= #[trigger] s[i] && s[i] <= '9'
}

/// The number that a run of ASCII digits spells.
pub open spec fn digits_value(s: Seq<char>) -> int
    decreases s.len(),
{
    if s.len() == 0 {
        0
    } else {
        digits_value(s.drop_last()) * 10 + (s.last() as int - 48)
    }
}

/// What `str::parse::<u32>` gives: an optional `'+'` followed by digits
/// whose value fits 32 bits; anything else is rejected.
pub open spec fn u32_from_str(s: Seq<char>) -> Option<u32> {
    let d = if s.len() > 0 && s[0] == '+' {
        s.drop_first()
    } else {
        s
    };
    if is_digits(d) && digits_value(d) <= u32::MAX {
        Some(digits_value(d) as u32)
    } else {
        None
    }
}

/// The value of a run of digits is at least that of any prefix of it.
proof fn lemma_digits_value_grows(s: Seq<char>, k: int)
    requires
        0 <= k <= s.len(),
        forall|i: int| 0 <= i < s.len() ==> '0' <= #[trigger] s[i] && s[i] <= '9',
    ensures
        0 <= digits_value(s.take(k)) <= digits_value(s),
    decreases s.len(),
{
    if s.len() > 0 {
        if k == s.len() {
            assert(s.take(k) =~= s);
            lemma_digits_value_grows(s.drop_last(), k - 1);
            assert(s.drop_last().take(k - 1) =~= s.drop_last());
        } else {
            lemma_digits_value_grows(s.drop_last(), k);
            assert(s.drop_last().take(k) =~= s.take(k));
            lemma_digits_value_grows(s.drop_last(), s.len() - 1);
            assert(s.drop_last().take(s.len() - 1) =~= s.drop_last());
        }
    }
}

/// Parses a decimal user id as `str::parse::<u32>` does: an optional `'+'`
/// followed by ASCII digits whose value fits 32 bits.
fn parse_u32(s: &str) -> (res: Option<u32>)
    ensures
        res == u32_from_str(s@),
{
    let cs = chars_of(s);
    let start: usize = if cs.len() > 0 && cs[0] == '+' {
        1
    } else {
        0
    };
    let ghost d = s@.skip(start as int);
    assert(d =~= (if s@.len() > 0 && s@[0] == '+' {
        s@.drop_first()
    } else {
        s@
    }));
    if start == cs.len() {
        return None;
    }
    let mut value: u64 = 0;
    let mut i: usize = start;
    assert(d.take(0) =~= Seq::<char>::empty());
    while i < cs.len()
        invariant
            start <= i <= cs.len(),
            cs@ == s@,
            d == s@.skip(start as int),
            d == (if s@.len() > 0 && s@[0] == '+' {
                s@.drop_first()
            } else {
                s@
            }),
            value == digits_value(d.take(i - start)),
            value <= u32::MAX,
            forall|j: int| 0 <= j < i - start ==> '0' <= #[trigger] d[j] && d[j] <= '9',
        decreases cs.len() - i,
    {
        let c = cs[i];
        assert(c == d[i - start]);
        if c < '0' || c > '9' {
            assert(!is_digits(d));
            return None;
        }
        let digit = (c as u32) - 48;
        assert(d.take(i - start + 1).drop_last() =~= d.take(i - start));
        assert(d.take(i - start + 1).last() == c);
        value = value * 10 + digit as u64;
        if value > 0xffff_ffffu64 {
            proof {
                if is_digits(d) {
                    lemma_digits_value_grows(d, i - start + 1);
                }
            }
            return None;
        }
        i += 1;
    }
    assert(d.take(i - start) =~= d);
    Some(value as u32)
}

// ---------------------------------------------------------------------------
// The account databases
// ---------------------------------------------------------------------------

/// What a line of `/etc/passwd` amounts to.
pub enum PasswdOutcome {
    /// An account.
    Account(UserView),
    /// The `root` account, which the audit leaves alone.
    Root,
    /// The first field that is missing.
    Missing(AccountField),
    /// The user id is not a decimal number that fits 32 bits.
    BadUid,
}

/// A line of `/etc/passwd`, its fields taken in order (name, uid, home
/// directory, shell) as the account is built from them.
pub open spec fn passwd_outcome(line: Seq<char>) -> PasswdOutcome {
    let parts = split_on(line, ':');
    if parts.len() < 3 {
        PasswdOutcome::Missing(AccountField::Uid)
    } else if u32_from_str(parts[2]) is None {
        PasswdOutcome::BadUid
    } else if parts.len() < 6 {
        PasswdOutcome::Missing(AccountField::HomeDirectory)
    } else if parts.len() < 7 {
        PasswdOutcome::Missing(AccountField::Shell)
    } else if parts[0] == "root"@ {
        PasswdOutcome::Root
    } else {
        PasswdOutcome::Account(
            UserView {
                name: parts[0],
                uid: u32_from_str(parts[2]).unwrap(),
                home_directory: parts[5],
                shell: parts[6],
                is_locked: false,
                groups: Seq::<Seq<char>>::empty(),
                deleted: false,
            },
        )
    }
}

/// Reads one line of `/etc/passwd`: the account it describes, none for
/// `root`, or the first field that is missing or malformed.
pub fn passwd_line(line: &str) -> (res: Result<Option<User>, UserError>)
    ensures
        match passwd_outcome(line@) {
            PasswdOutcome::Account(u) => res matches Ok(Some(v)) && v@ == u,
            PasswdOutcome::Root => res matches Ok(None),
            PasswdOutcome::Missing(f) => res matches Err(UserError::MissingField { field, line: l })
                && field == f && l@ == line@,
            PasswdOutcome::BadUid => res matches Err(UserError::InvalidUid),
        },
{
    let parts = split(line, ':');
    proof {
        lemma_split_on_nonempty(line@, ':');
    }
    if parts.len() < 3 {
        return Err(UserError::MissingField { field: AccountField::Uid, line: to_owned(line) });
    }
    let uid = match parse_u32(parts[2].as_str()) {
        Some(u) => u,
        None => {
            return Err(UserError::InvalidUid);
        },
    };
    if parts.len() < 6 {
        return Err(
            UserError::MissingField { field: AccountField::HomeDirectory, line: to_owned(line) },
        );
    }
    if parts.len() < 7 {
        return Err(UserError::MissingField { field: AccountField::Shell, line: to_owned(line) });
    }
    if str_eq(parts[0].as_str(), "root") {
        return Ok(None);
    }
    let user = User {
        name: to_owned(parts[0].as_str()),
        uid,
        home_directory: to_owned(parts[5].as_str()),
        shell: to_owned(parts[6].as_str()),
        is_locked: false,
        groups: Vec::new(),
        deleted: false,
    };
    assert(strs(user.groups@) =~= Seq::<Seq<char>>::empty());
    Ok(Some(user))
}

/// Position of the first account with the given name, or the number of accounts.
fn find_user(users: &Vec<User>, name: &str) -> (res: usize)
    ensures
        res as int == first_index(user_names(user_views(users@)), name@),
{
    let ghost names = user_names(user_views(users@));
    proof {
        lemma_first_index(names, name@);
    }
    let mut i: usize = 0;
    while i < users.len()
        invariant
            i <= users.len(),
            names == user_names(user_views(users@)),
            forall|j: int| 0 <= j < i ==> names[j] != name@,
            0 <= first_index(names, name@) <= users.len(),
            forall|j: int| 0 <= j < first_index(names, name@) ==> names[j] != name@,
            first_index(names, name@) < users.len() ==> names[first_index(names, name@)]
                == name@,
        decreases users.len() - i,
    {
        if str_eq(users[i].name.as_str(), name) {
            assert(names[i as int] == name@);
            return i;
        }
        i += 1;
    }
    i
}

/// A password that marks a locked account: it begins with `'*'` or `'!'`.
pub open spec fn locked_password(p: Seq<char>) -> bool {
    starts_with(p, "*"@) || starts_with(p, "!"@)
}

/// The account `u` with its lock flag set to `locked`.
pub open spec fn with_lock(u: UserView, locked: bool) -> UserView {
    UserView {
        name: u.name,
        uid: u.uid,
        home_directory: u.home_directory,
        shell: u.shell,
        is_locked: locked,
        groups: u.groups,
        deleted: u.deleted,
    }
}

/// The account `u` with the given groups.
pub open spec fn with_groups(u: UserView, groups: Seq<Seq<char>>) -> UserView {
    UserView {
        name: u.name,
        uid: u.uid,
        home_directory: u.home_directory,
        shell: u.shell,
        is_locked: u.is_locked,
        groups: groups,
        deleted: u.deleted,
    }
}

/// Applies one line of `/etc/shadow`: the first account named in its first
/// field (other than `root`) is locked exactly when its password begins with
/// `'*'` or `'!'`. A line for a known account without a password field is an
/// error.
pub fn shadow_line(users: &mut Vec<User>, line: &str) -> (res: Result<(), UserError>)
    ensures
        ({
            let parts = split_on(line@, ':');
            let k = first_index(user_names(user_views(old(users)@)), parts[0]);
            if parts[0] == "root"@ || k == old(users)@.len() {
                res is Ok && user_views(final(users)@) == user_views(old(users)@)
            } else if parts.len() < 2 {
                res matches Err(UserError::MissingField { field, line: l }) && field
                    == AccountField::Password && l@ == line@ && user_views(final(users)@)
                    == user_views(old(users)@)
            } else {
                res is Ok && user_views(final(users)@) == user_views(old(users)@).update(
                    k,
                    with_lock(user_views(old(users)@)[k], locked_password(parts[1])),
                )
            }
        }),
        match shadow_step(user_views(old(users)@), line@) {
            Ok(r) => res is Ok && user_views(final(users)@) == r,
            Err(_) => res is Err,
        },
{
    let parts = split(line, ':');
    proof {
        lemma_split_on_nonempty(line@, ':');
        lemma_first_index(user_names(user_views(users@)), strs(parts@)[0]);
    }
    if str_eq(parts[0].as_str(), "root") {
        return Ok(());
    }
    let k = find_user(users, parts[0].as_str());
    if k == users.len() {
        return Ok(());
    }
    if parts.len() < 2 {
        return Err(
            UserError::MissingField { field: AccountField::Password, line: to_owned(line) },
        );
    }
    proof {
        reveal_strlit("*");
        reveal_strlit("!");
    }
    let locked = crate::text::has_prefix(parts[1].as_str(), "*") || crate::text::has_prefix(
        parts[1].as_str(),
        "!",
    );
    let ghost before = user_views(users@);
    let mut u = users.remove(k);
    u.is_locked = locked;
    users.insert(k, u);
    assert(user_views(users@) =~= before.update(k as int, with_lock(before[k as int], locked)));
    Ok(())
}

/// The effect of a group's member list on the accounts: each non-empty
/// member name, in order, adds the group to the first account with that name.
pub open spec fn add_group(users: Seq<UserView>, group: Seq<char>, members: Seq<Seq<char>>) -> Seq<
    UserView,
>
    decreases members.len(),
{
    if members.len() == 0 {
        users
    } else {
        let m = members[0];
        let k = first_index(user_names(users), m);
        let next = if m.len() > 0 && k < users.len() {
            users.update(k, with_groups(users[k], users[k].groups.push(group)))
        } else {
            users
        };
        add_group(next, group, members.drop_first())
    }
}

/// Applies one line of `/etc/group`: the group (first field) is added to
/// each account named in the comma-separated member list (fourth field).
pub fn group_line(users: &mut Vec<User>, line: &str) -> (res: Result<(), UserError>)
    ensures
        ({
            let parts = split_on(line@, ':');
            if parts.len() < 4 {
                res matches Err(UserError::MissingField { field, line: l }) && field
                    == AccountField::GroupMembers && l@ == line@ && user_views(final(users)@)
                    == user_views(old(users)@)
            } else {
                res is Ok && user_views(final(users)@) == add_group(
                    user_views(old(users)@),
                    parts[0],
                    split_on(parts[3], ','),
                )
            }
        }),
{
    let parts = split(line, ':');
    proof {
        lemma_split_on_nonempty(line@, ':');
    }
    if parts.len() < 4 {
        return Err(
            UserError::MissingField { field: AccountField::GroupMembers, line: to_owned(line) },
        );
    }
    let members = split(parts[3].as_str(), ',');
    let ghost group = strs(parts@)[0];
    let ghost all = strs(members@);
    let ghost start = user_views(users@);
    let mut i: usize = 0;
    assert(all.skip(0) == all);
    while i < members.len()
        invariant
            i <= members.len(),
            all == strs(members@),
            parts.len() >= 4,
            group == parts@[0]@,
            add_group(start, group, all) == add_group(user_views(users@), group, all.skip(i as int)),
        decreases members.len() - i,
    {
        let ghost rest = all.skip(i as int);
        assert(rest[0] == members@[i as int]@);
        assert(rest.drop_first() == all.skip(i + 1));
        if !members[i].as_str().is_empty() {
            let k = find_user(users, members[i].as_str());
            if k < users.len() {
                let ghost before = user_views(users@);
                let mut u = users.remove(k);
                let ghost old_groups = strs(u.groups@);
                u.groups.push(to_owned(parts[0].as_str()));
                assert(strs(u.groups@) =~= old_groups.push(group));
                users.insert(k, u);
                assert(user_views(users@) =~= before.update(
                    k as int,
                    with_groups(before[k as int], before[k as int].groups.push(group)),
                ));
            }
        }
        i += 1;
    }
    assert(all.skip(members.len() as int) =~= Seq::<Seq<char>>::empty());
    Ok(())
}

// ---------------------------------------------------------------------------
// Whole account databases
// ---------------------------------------------------------------------------

/// The abstract value of an error in reading the account databases.
pub enum AccountsError {
    /// The line lacks the field.
    Missing(AccountField, Seq<char>),
    /// A user id is not a decimal number that fits 32 bits.
    BadUid,
}

/// The abstract value of a `UserError`.
pub open spec fn error_view(e: UserError) -> AccountsError {
    match e {
        UserError::MissingField { field, line } => AccountsError::Missing(field, line@),
        UserError::InvalidUid => AccountsError::BadUid,
    }
}

/// The accounts that the lines of `/etc/passwd` describe, in order and
/// without `root`, or the error of the first malformed line.
pub open spec fn passwd_accounts(lines: Seq<Seq<char>>) -> Result<Seq<UserView>, AccountsError>
    decreases lines.len(),
{
    if lines.len() == 0 {
        Ok(Seq::<UserView>::empty())
    } else {
        match passwd_accounts(lines.drop_last()) {
            Err(e) => Err(e),
            Ok(us) => match passwd_outcome(lines.last()) {
                PasswdOutcome::Account(u) => Ok(us.push(u)),
                PasswdOutcome::Root => Ok(us),
                PasswdOutcome::Missing(f) => Err(AccountsError::Missing(f, lines.last())),
                PasswdOutcome::BadUid => Err(AccountsError::BadUid),
            },
        }
    }
}

/// The effect of one line of `/etc/shadow` on the accounts (see `shadow_line`).
pub open spec fn shadow_step(us: Seq<UserView>, line: Seq<char>) -> Result<Seq<UserView>, AccountsError> {
    let parts = split_on(line, ':');
    let k = first_index(user_names(us), parts[0]);
    if parts[0] == "root"@ || k == us.len() {
        Ok(us)
    } else if parts.len() < 2 {
        Err(AccountsError::Missing(AccountField::Password, line))
    } else {
        Ok(us.update(k, with_lock(us[k], locked_password(parts[1]))))
    }
}

/// The effect of the lines of `/etc/shadow`, in order; the first malformed
/// line is the error.
pub open spec fn shadow_lines(us: Seq<UserView>, lines: Seq<Seq<char>>) -> Result<
    Seq<UserView>,
    AccountsError,
>
    decreases lines.len(),
{
    if lines.len() == 0 {
        Ok(us)
    } else {
        match shadow_lines(us, lines.drop_last()) {
            Err(e) => Err(e),
            Ok(v) => shadow_step(v, lines.last()),
        }
    }
}

/// The effect of one line of `/etc/group` on the accounts (see `group_line`).
pub open spec fn group_step(us: Seq<UserView>, line: Seq<char>) -> Result<Seq<UserView>, AccountsError> {
    let parts = split_on(line, ':');
    if parts.len() < 4 {
        Err(AccountsError::Missing(AccountField::GroupMembers, line))
    } else {
        Ok(add_group(us, parts[0], split_on(parts[3], ',')))
    }
}

/// The effect of the lines of `/etc/group`, in order; the first malformed
/// line is the error.
pub open spec fn group_lines(us: Seq<UserView>, lines: Seq<Seq<char>>) -> Result<
    Seq<UserView>,
    AccountsError,
>
    decreases lines.len(),
{
    if lines.len() == 0 {
        Ok(us)
    } else {
        match group_lines(us, lines.drop_last()) {
            Err(e) => Err(e),
            Ok(v) => group_step(v, lines.last()),
        }
    }
}

/// The accounts of the system: those of `/etc/passwd`, locked as
/// `/etc/shadow` says and with the groups of `/etc/group`; or the first error.
pub open spec fn accounts_of(
    passwd: Seq<Seq<char>>,
    shadow: Seq<Seq<char>>,
    group: Seq<Seq<char>>,
) -> Result<Seq<UserView>, AccountsError> {
    match passwd_accounts(passwd) {
        Err(e) => Err(e),
        Ok(us) => match shadow_lines(us, shadow) {
            Err(e) => Err(e),
            Ok(v) => group_lines(v, group),
        },
    }
}

/// Once reading `/etc/passwd` fails, later lines do not change the error.
proof fn lemma_passwd_error_stays(lines: Seq<Seq<char>>, j: int)
    requires
        0 <= j <= lines.len(),
        passwd_accounts(lines.take(j)) is Err,
    ensures
        passwd_accounts(lines) == passwd_accounts(lines.take(j)),
    decreases lines.len(),
{
    if j == lines.len() {
        assert(lines.take(j) == lines);
    } else {
        assert(lines.drop_last().take(j) == lines.take(j));
        lemma_passwd_error_stays(lines.drop_last(), j);
    }
}

/// Once applying `/etc/shadow` fails, later lines do not change the error.
proof fn lemma_shadow_error_stays(us: Seq<UserView>, lines: Seq<Seq<char>>, j: int)
    requires
        0 <= j <= lines.len(),
        shadow_lines(us, lines.take(j)) is Err,
    ensures
        shadow_lines(us, lines) == shadow_lines(us, lines.take(j)),
    decreases lines.len(),
{
    if j == lines.len() {
        assert(lines.take(j) == lines);
    } else {
        assert(lines.drop_last().take(j) == lines.take(j));
        lemma_shadow_error_stays(us, lines.drop_last(), j);
    }
}

/// Once applying `/etc/group` fails, later lines do not change the error.
proof fn lemma_group_error_stays(us: Seq<UserView>, lines: Seq<Seq<char>>, j: int)
    requires
        0 <= j <= lines.len(),
        group_lines(us, lines.take(j)) is Err,
    ensures
        group_lines(us, lines) == group_lines(us, lines.take(j)),
    decreases lines.len(),
{
    if j == lines.len() {
        assert(lines.take(j) == lines);
    } else {
        assert(lines.drop_last().take(j) == lines.take(j));
        lemma_group_error_stays(us, lines.drop_last(), j);
    }
}

/// The accounts that the lines of `/etc/passwd` describe.
pub fn read_passwd(lines: &Vec<String>) -> (res: Result<Vec<User>, UserError>)
    ensures
        match passwd_accounts(strs(lines@)) {
            Ok(us) => res matches Ok(v) && user_views(v@) == us,
            Err(e) => res matches Err(err) && error_view(err) == e,
        },
{
    let ghost all = strs(lines@);
    let mut users: Vec<User> = Vec::new();
    let mut i: usize = 0;
    assert(all.take(0) =~= Seq::<Seq<char>>::empty());
    assert(user_views(users@) =~= Seq::<UserView>::empty());
    while i < lines.len()
        invariant
            i <= lines.len(),
            all == strs(lines@),
            passwd_accounts(all.take(i as int)) == Ok::<Seq<UserView>, AccountsError>(
                user_views(users@),
            ),
        decreases lines.len() - i,
    {
        let ghost pre = all.take(i + 1);
        assert(pre.drop_last() == all.take(i as int));
        assert(pre.last() == lines@[i as int]@);
        let ghost before = user_views(users@);
        match passwd_line(lines[i].as_str()) {
            Ok(Some(u)) => {
                users.push(u);
                assert(user_views(users@) =~= before.push(users@[users@.len() - 1]@));
            },
            Ok(None) => {},
            Err(e) => {
                assert(passwd_accounts(all.take(i + 1)) == Err::<Seq<UserView>, AccountsError>(
                    error_view(e),
                ));
                proof {
                    lemma_passwd_error_stays(all, i + 1);
                }
                return Err(e);
            },
        }
        i += 1;
    }
    assert(all.take(lines.len() as int) == all);
    Ok(users)
}

/// The accounts after the lines of `/etc/shadow`.
pub fn apply_shadow(accounts: Vec<User>, lines: &Vec<String>) -> (res: Result<Vec<User>, UserError>)
    ensures
        match shadow_lines(user_views(accounts@), strs(lines@)) {
            Ok(us) => res matches Ok(v) && user_views(v@) == us,
            Err(e) => res matches Err(err) && error_view(err) == e,
        },
{
    let ghost all = strs(lines@);
    let ghost start = user_views(accounts@);
    let mut users = accounts;
    let mut i: usize = 0;
    assert(all.take(0) =~= Seq::<Seq<char>>::empty());
    while i < lines.len()
        invariant
            i <= lines.len(),
            all == strs(lines@),
            start == user_views(accounts@),
            shadow_lines(start, all.take(i as int)) == Ok::<Seq<UserView>, AccountsError>(
                user_views(users@),
            ),
        decreases lines.len() - i,
    {
        let ghost pre = all.take(i + 1);
        assert(pre.drop_last() == all.take(i as int));
        assert(pre.last() == lines@[i as int]@);
        let ghost before = user_views(users@);
        match shadow_line(&mut users, lines[i].as_str()) {
            Ok(()) => {
                assert(shadow_step(before, lines@[i as int]@) == Ok::<Seq<UserView>, AccountsError>(
                    user_views(users@),
                ));
            },
            Err(e) => {
                assert(shadow_step(before, lines@[i as int]@) == Err::<Seq<UserView>, AccountsError>(
                    error_view(e),
                ));
                assert(shadow_lines(start, all.take(i + 1)) == Err::<Seq<UserView>, AccountsError>(
                    error_view(e),
                ));
                proof {
                    lemma_shadow_error_stays(start, all, i + 1);
                }
                assert(shadow_lines(start, all) == Err::<Seq<UserView>, AccountsError>(error_view(e)));
                return Err(e);
            },
        }
        i += 1;
    }
    assert(all.take(lines.len() as int) == all);
    Ok(users)
}

/// The accounts after the lines of `/etc/group`.
pub fn apply_group(accounts: Vec<User>, lines: &Vec<String>) -> (res: Result<Vec<User>, UserError>)
    ensures
        match group_lines(user_views(accounts@), strs(lines@)) {
            Ok(us) => res matches Ok(v) && user_views(v@) == us,
            Err(e) => res matches Err(err) && error_view(err) == e,
        },
{
    let ghost all = strs(lines@);
    let ghost start = user_views(accounts@);
    let mut users = accounts;
    let mut i: usize = 0;
    assert(all.take(0) =~= Seq::<Seq<char>>::empty());
    while i < lines.len()
        invariant
            i <= lines.len(),
            all == strs(lines@),
            start == user_views(accounts@),
            group_lines(start, all.take(i as int)) == Ok::<Seq<UserView>, AccountsError>(
                user_views(users@),
            ),
        decreases lines.len() - i,
    {
        let ghost pre = all.take(i + 1);
        assert(pre.drop_last() == all.take(i as int));
        assert(pre.last() == lines@[i as int]@);
        let ghost before = user_views(users@);
        match group_line(&mut users, lines[i].as_str()) {
            Ok(()) => {
                assert(group_step(before, lines@[i as int]@) == Ok::<Seq<UserView>, AccountsError>(
                    user_views(users@),
                ));
            },
            Err(e) => {
                assert(group_step(before, lines@[i as int]@) == Err::<Seq<UserView>, AccountsError>(
                    error_view(e),
                ));
                assert(group_lines(start, all.take(i + 1)) == Err::<Seq<UserView>, AccountsError>(
                    error_view(e),
                ));
                proof {
                    lemma_group_error_stays(start, all, i + 1);
                }
                assert(group_lines(start, all) == Err::<Seq<UserView>, AccountsError>(error_view(e)));
                return Err(e);
            },
        }
        i += 1;
    }
    assert(all.take(lines.len() as int) == all);
    Ok(users)
}

/// The accounts of the system from the lines of `/etc/passwd`,
/// `/etc/shadow` and `/etc/group`.
pub fn get_users(passwd: &Vec<String>, shadow: &Vec<String>, group: &Vec<String>) -> (res: Result<
    Vec<User>,
    UserError,
>)
    ensures
        match accounts_of(strs(passwd@), strs(shadow@), strs(group@)) {
            Ok(us) => res matches Ok(v) && user_views(v@) == us,
            Err(e) => res matches Err(err) && error_view(err) == e,
        },
{
    let users = read_passwd(passwd)?;
    let users = apply_shadow(users, shadow)?;
    apply_group(users, group)
}

// ---------------------------------------------------------------------------
// The audit of each account
// ---------------------------------------------------------------------------

/// The non-empty pieces, in order.
pub open spec fn non_empty(pieces: Seq<Seq<char>>) -> Seq<Seq<char>>
    decreases pieces.len(),
{
    if pieces.len() == 0 {
        pieces
    } else {
        let init = non_empty(pieces.drop_last());
        if pieces.last().len() > 0 {
            init.push(pieces.last())
        } else {
            init
        }
    }
}

/// The names listed one per line in an allow list, blank lines dropped.
pub fn parse_allow_list(text: &str) -> (res: Vec<String>)
    ensures
        strs(res@) == non_empty(split_on(text@, '\n')),
{
    let pieces = split(text, '\n');
    let ghost all = strs(pieces@);
    let mut res: Vec<String> = Vec::new();
    let mut i: usize = 0;
    while i < pieces.len()
        invariant
            i <= pieces.len(),
            all == strs(pieces@),
            strs(res@) == non_empty(all.take(i as int)),
        decreases pieces.len() - i,
    {
        let ghost pre = all.take(i + 1);
        assert(pre.drop_last() == all.take(i as int));
        assert(pre.last() == pieces@[i as int]@);
        if !pieces[i].as_str().is_empty() {
            let ghost before = strs(res@);
            res.push(to_owned(pieces[i].as_str()));
            assert(strs(res@) =~= before.push(pieces@[i as int]@));
        }
        i += 1;
    }
    assert(all.take(pieces.len() as int) == all);
    res
}

/// What the audit does to an account.
#[derive(Debug, Clone, Copy, PartialEq, Eq, Structural)]
pub struct UserAudit {
    /// A system account (uid below 1000): lock it and give it a
    /// non-interactive shell.
    pub make_noninteractive: bool,
    /// In `sudo` or `wheel` without being an allowed administrator: take it
    /// out of both.
    pub remove_admin: bool,
    /// On the list of allowed users.
    pub allowed: bool,
}

/// `groups` without any occurrence of `g`.
pub open spec fn without_group(groups: Seq<Seq<char>>, g: Seq<char>) -> Seq<Seq<char>>
    decreases groups.len(),
{
    if groups.len() == 0 {
        groups
    } else {
        let init = without_group(groups.drop_last(), g);
        if groups.last() == g {
            init
        } else {
            init.push(groups.last())
        }
    }
}

/// The audit's decisions for an account.
pub open spec fn audit_of(u: UserView, allowed_users: Seq<Seq<char>>, allowed_admins: Seq<Seq<char>>) -> UserAudit {
    UserAudit {
        make_noninteractive: u.uid < 1000,
        remove_admin: (u.groups.contains("sudo"@) || u.groups.contains("wheel"@))
            && !allowed_admins.contains(u.name),
        allowed: allowed_users.contains(u.name),
    }
}

/// The account after the audit's decisions: locked when it is made
/// non-interactive, out of `sudo` when its administrator rights are removed.
pub open spec fn audited(u: UserView, a: UserAudit) -> UserView {
    let locked = with_lock(u, u.is_locked || a.make_noninteractive);
    if a.remove_admin {
        with_groups(locked, without_group(u.groups, "sudo"@))
    } else {
        locked
    }
}

/// Whether a list of names holds `name`.
fn list_contains(list: &Vec<String>, name: &str) -> (res: bool)
    ensures
        res == strs(list@).contains(name@),
{
    let k = position_of(list, name);
    proof {
        lemma_first_index(strs(list@), name@);
    }
    if k < list.len() {
        assert(strs(list@)[k as int] == name@);
        true
    } else {
        false
    }
}

/// Decides what the audit does to an account and updates the account to
/// match: a system account is locked, an administrator that is not allowed
/// leaves `sudo`; the caller carries out the matching commands.
pub fn audit_user(user: &mut User, allowed_users: &Vec<String>, allowed_admins: &Vec<String>) -> (res:
    UserAudit)
    ensures
        res == audit_of(old(user)@, strs(allowed_users@), strs(allowed_admins@)),
        final(user)@ == audited(old(user)@, res),
{
    let lock = user.uid < 1000;
    if lock {
        user.is_locked = true;
    }
    let is_admin = list_contains(&user.groups, "sudo") || list_contains(&user.groups, "wheel");
    let remove_admin = is_admin && !list_contains(allowed_admins, user.name.as_str());
    if remove_admin {
        let ghost gs = strs(user.groups@);
        let mut kept: Vec<String> = Vec::new();
        let mut i: usize = 0;
        while i < user.groups.len()
            invariant
                i <= user.groups.len(),
                gs == strs(user.groups@),
                strs(kept@) == without_group(gs.take(i as int), "sudo"@),
            decreases user.groups.len() - i,
        {
            let ghost pre = gs.take(i + 1);
            assert(pre.drop_last() == gs.take(i as int));
            assert(pre.last() == user.groups@[i as int]@);
            if !str_eq(user.groups[i].as_str(), "sudo") {
                let ghost before = strs(kept@);
                kept.push(to_owned(user.groups[i].as_str()));
                assert(strs(kept@) =~= before.push(user.groups@[i as int]@));
            }
            i += 1;
        }
        assert(gs.take(i as int) == gs);
        user.groups = kept;
    }
    let allowed = list_contains(allowed_users, user.name.as_str());
    UserAudit { make_noninteractive: lock, remove_admin, allowed }
}

/// The report line that opens an account: `"User: <name>"`, the label in yellow.
pub fn user_line(name: &str) -> (res: String)
    ensures
        res@ == crate::color::yellow_text("User:"@) + " "@ + name@,
{
    let mut s = crate::color::yellow("User:");
    push_str(&mut s, " ");
    push_str(&mut s, name);
    s
}

/// The remark for an account that is not allowed: `" - Not allowed"`, in red.
pub fn not_allowed_remark() -> (res: String)
    ensures
        res@ == " - "@ + crate::color::red_text("Not allowed"@),
{
    let mut s = to_owned(" - ");
    let r = crate::color::red("Not allowed");
    push_str(&mut s, r.as_str());
    s
}

// ---------------------------------------------------------------------------
// Laws
// ---------------------------------------------------------------------------

/// Taking a group out of a list leaves no occurrence of it and keeps every
/// other group.
pub proof fn lemma_without_group(groups: Seq<Seq<char>>, g: Seq<char>)
    ensures
        !without_group(groups, g).contains(g),
        forall|x: Seq<char>| x != g ==> (without_group(groups, g).contains(x) <==> groups.contains(x)),
        without_group(without_group(groups, g), g) == without_group(groups, g),
    decreases groups.len(),
{
    if groups.len() > 0 {
        let init = without_group(groups.drop_last(), g);
        lemma_without_group(groups.drop_last(), g);
        let last = groups.last();
        if last != g {
            assert(init.push(last).drop_last() =~= init);
        }
        assert forall|x: Seq<char>| x != g implies (without_group(groups, g).contains(x)
            <==> groups.contains(x)) by {
            if groups.contains(x) {
                let i = choose|i: int| 0 <= i < groups.len() && groups[i] == x;
                if i < groups.len() - 1 {
                    assert(groups.drop_last()[i] == x);
                    assert(groups.drop_last().contains(x));
                    assert(init.contains(x));
                    let j = choose|j: int| 0 <= j < init.len() && init[j] == x;
                    if last != g {
                        assert(init.push(last)[j] == x);
                    }
                } else {
                    assert(init.push(last).last() == x);
                }
            }
            if without_group(groups, g).contains(x) {
                if last != g {
                    let w = init.push(last);
                    let j = choose|j: int| 0 <= j < w.len() && w[j] == x;
                    if j < init.len() {
                        assert(init[j] == x);
                        assert(init.contains(x));
                        assert(groups.drop_last().contains(x));
                        let i = choose|i: int| 0 <= i < groups.drop_last().len() && groups.drop_last()[i] == x;
                        assert(groups[i] == x);
                    } else {
                        assert(groups[groups.len() - 1] == x);
                    }
                } else {
                    assert(init.contains(x));
                    assert(groups.drop_last().contains(x));
                    let i = choose|i: int| 0 <= i < groups.drop_last().len() && groups.drop_last()[i] == x;
                    assert(groups[i] == x);
                }
            }
        }
        if without_group(groups, g).contains(g) {
            if last != g {
                let w = init.push(last);
                let j = choose|j: int| 0 <= j < w.len() && w[j] == g;
                if j < init.len() {
                    assert(init[j] == g);
                }
            }
        }
    }
}

/// An administrator whose rights the audit removes is no longer in `sudo`,
/// and a system account the audit visits ends up locked.
pub proof fn law_audit_outcome(
    u: UserView,
    allowed_users: Seq<Seq<char>>,
    allowed_admins: Seq<Seq<char>>,
)
    ensures
        ({
            let a = audit_of(u, allowed_users, allowed_admins);
            &&& a.remove_admin ==> !audited(u, a).groups.contains("sudo"@)
            &&& u.uid < 1000 ==> audited(u, a).is_locked
            &&& u.is_locked ==> audited(u, a).is_locked
        }),
{
    lemma_without_group(u.groups, "sudo"@);
}

/// Auditing an account a second time changes it no further: the audited
/// account is settled.
pub proof fn law_audit_settles(
    u: UserView,
    allowed_users: Seq<Seq<char>>,
    allowed_admins: Seq<Seq<char>>,
)
    ensures
        ({
            let v = audited(u, audit_of(u, allowed_users, allowed_admins));
            audited(v, audit_of(v, allowed_users, allowed_admins)) == v
        }),
{
    let a = audit_of(u, allowed_users, allowed_admins);
    let v = audited(u, a);
    let b = audit_of(v, allowed_users, allowed_admins);
    lemma_without_group(u.groups, "sudo"@);
    lemma_without_group(v.groups, "sudo"@);
    if !a.remove_admin && b.remove_admin {
        // v.groups == u.groups, and the administrator test reads the same values
        assert(v.groups == u.groups);
    }
    if b.remove_admin {
        if a.remove_admin {
            assert(without_group(v.groups, "sudo"@) == v.groups);
        } else {
            assert(v.groups == u.groups);
        }
    }
}

} // verus!

verus! {

/// A line of `/etc/shadow` for a known account (other than `root`) with a
/// password field sets that account's lock flag to whether the password's
/// first character is `'*'` or `'!'` (so an empty password leaves it
/// unlocked), and changes nothing else.
pub proof fn law_shadow_lock_is_first_char(us: Seq<UserView>, line: Seq<char>, k: int)
    requires
        ({
            let parts = split_on(line, ':');
            &&& parts.len() >= 2
            &&& parts[0] != "root"@
            &&& 0 <= k < us.len()
            &&& us[k].name == parts[0]
            &&& forall|m: int| 0 <= m < k ==> us[m].name != parts[0]
        }),
    ensures
        ({
            let parts = split_on(line, ':');
            let p = parts[1];
            shadow_step(us, line) matches Ok(r) && r.len() == us.len() && r[k].is_locked == (
            p.len() > 0 && (p[0] == '*' || p[0] == '!')) && r[k].name == us[k].name && r[k].uid
                == us[k].uid && r[k].groups == us[k].groups && r[k].home_directory
                == us[k].home_directory && r[k].shell == us[k].shell && r[k].deleted == us[k].deleted
                && forall|j: int| 0 <= j < us.len() && j != k ==> r[j] == us[j]
        }),
{
    let parts = split_on(line, ':');
    let names = user_names(us);
    lemma_first_index(names, parts[0]);
    let f = first_index(names, parts[0]);
    assert(names[k] == parts[0]);
    if f < k {
        assert(names[f] == us[f].name);
    }
    assert(f == k);
    reveal_strlit("*");
    reveal_strlit("!");
    let p = parts[1];
    if p.len() > 0 {
        if p[0] == '*' {
            assert(p.take(1) =~= "*"@);
        }
        if p[0] == '!' {
            assert(p.take(1) =~= "!"@);
        }
        if starts_with(p, "*"@) {
            assert(p.take(1)[0] == p[0]);
        }
        if starts_with(p, "!"@) {
            assert(p.take(1)[0] == p[0]);
        }
    }
}

/// Whether the audit removes an account's administrator rights depends only
/// on its groups and the list of approved administrators: it does exactly
/// when the account is in `sudo` or `wheel` and not approved, whatever the
/// list of allowed users holds. An account is made non-interactive exactly
/// when its uid is below 1000, and is allowed exactly when it is on the
/// list of allowed users.
pub proof fn law_audit_decisions(
    u: UserView,
    allowed_users: Seq<Seq<char>>,
    other_users: Seq<Seq<char>>,
    allowed_admins: Seq<Seq<char>>,
)
    ensures
        audit_of(u, allowed_users, allowed_admins).remove_admin == ((u.groups.contains("sudo"@)
            || u.groups.contains("wheel"@)) && !allowed_admins.contains(u.name)),
        audit_of(u, allowed_users, allowed_admins).remove_admin == audit_of(
            u,
            other_users,
            allowed_admins,
        ).remove_admin,
        audit_of(u, allowed_users, allowed_admins).make_noninteractive == (u.uid < 1000),
        audit_of(u, allowed_users, allowed_admins).allowed == allowed_users.contains(u.name),
{
}

/// A line of `/etc/shadow` for `root`, or for a name that no account has,
/// leaves the accounts as they are; a line for a known account without a
/// password field is an error.
pub proof fn law_shadow_other_lines(us: Seq<UserView>, line: Seq<char>)
    ensures
        ({
            let parts = split_on(line, ':');
            &&& (parts[0] == "root"@ || forall|m: int| 0 <= m < us.len() ==> us[m].name != parts[0])
                ==> shadow_step(us, line) == Ok::<Seq<UserView>, AccountsError>(us)
            &&& (parts[0] != "root"@ && parts.len() < 2 && exists|m: int|
                0 <= m < us.len() && us[m].name == parts[0]) ==> shadow_step(us, line) is Err
        }),
{
    let parts = split_on(line, ':');
    let names = user_names(us);
    lemma_first_index(names, parts[0]);
    let f = first_index(names, parts[0]);
    if f < us.len() {
        assert(names[f] == us[f].name);
    }
    if exists|m: int| 0 <= m < us.len() && us[m].name == parts[0] {
        let m = choose|m: int| 0 <= m < us.len() && us[m].name == parts[0];
        assert(names[m] == us[m].name);
    }
}

/// The audit's effect on an account's groups: when it removes the
/// administrator rights, the account keeps every group but `sudo` (`wheel`
/// included) and is no longer in `sudo`; otherwise its groups are unchanged.
/// Its name, uid, home and shell never change.
pub proof fn law_audit_groups(
    u: UserView,
    allowed_users: Seq<Seq<char>>,
    allowed_admins: Seq<Seq<char>>,
)
    ensures
        ({
            let a = audit_of(u, allowed_users, allowed_admins);
            let v = audited(u, a);
            &&& a.remove_admin ==> !v.groups.contains("sudo"@) && forall|g: Seq<char>|
                g != "sudo"@ ==> (v.groups.contains(g) <==> u.groups.contains(g))
            &&& !a.remove_admin ==> v.groups == u.groups
            &&& v.name == u.name && v.uid == u.uid && v.home_directory == u.home_directory
                && v.shell == u.shell && v.deleted == u.deleted
        }),
{
    lemma_without_group(u.groups, "sudo"@);
}

} // verus!
