//! The table of open sockets with the process that owns each.
use vstd::prelude::*;
use crate::text::{pad_right, decimal, signed_decimal, to_owned, push_str, pad_to};
use std::collections::HashMap;

verus! {

/// The protocol column of a socket: `v4` or `v6`, then `/tcp` or `/udp`.
pub open spec fn protocol_text(is_ipv6: bool, is_tcp: bool) -> Seq<char> {
    (if is_ipv6 {
        "v6"@
    } else {
        "v4"@
    }) + (if is_tcp {
        "/tcp"@
    } else {
        "/udp"@
    })
}

/// The protocol column of a socket.
pub fn protocol_label(is_ipv6: bool, is_tcp: bool) -> (res: String)
    ensures
        res@ == protocol_text(is_ipv6, is_tcp),
{
    let mut s = if is_ipv6 {
        to_owned("v6")
    } else {
        to_owned("v4")
    };
    if is_tcp {
        push_str(&mut s, "/tcp");
    } else {
        push_str(&mut s, "/udp");
    }
    s
}

/// The process (command name and id) that owns each socket, by inode.
pub struct SocketOwners {
    map: HashMap<u64, (String, i32)>,
}

impl View for SocketOwners {
    type V = Map<u64, (Seq<char>, i32)>;

    closed spec fn view(&self) -> Map<u64, (Seq<char>, i32)> {
        self.map@.map_values(|v: (String, i32)| (v.0@, v.1))
    }
}

impl SocketOwners {
    /// No socket has an owner yet.
    pub fn new() -> (res: SocketOwners)
        ensures
            res@ == Map::<u64, (Seq<char>, i32)>::empty(),
    {
        let res = SocketOwners { map: HashMap::new() };
        assert(res@ =~= Map::<u64, (Seq<char>, i32)>::empty());
        res
    }

    /// Records that the process `comm`/`pid` holds the socket `inode`,
    /// replacing an earlier owner of the same inode.
    pub fn record(&mut self, inode: u64, comm: String, pid: i32)
        ensures
            final(self)@ == old(self)@.insert(inode, (comm@, pid)),
    {
        broadcast use vstd::std_specs::hash::group_hash_axioms;

        let ghost c = comm@;
        self.map.insert(inode, (comm, pid));
        assert(self@ =~= old(self)@.insert(inode, (c, pid)));
    }

    /// The owner of the socket `inode`, if one was recorded.
    pub fn owner(&self, inode: u64) -> (res: Option<(&str, i32)>)
        ensures
            self@.contains_key(inode) ==> (res matches Some((c, p)) && c@ == self@[inode].0 && p
                == self@[inode].1),
            !self@.contains_key(inode) ==> res is None,
    {
        broadcast use vstd::std_specs::hash::group_hash_axioms;

        match self.map.get(&inode) {
            Some(v) => Some((v.0.as_str(), v.1)),
            None => None,
        }
    }
}

/// An owner read back is the last one recorded for the inode, and recording
/// an inode leaves the owners of the others as they were.
pub proof fn law_last_recorded_owner(
    owners: Map<u64, (Seq<char>, i32)>,
    inode: u64,
    owner: (Seq<char>, i32),
    other: u64,
)
    requires
        other != inode,
    ensures
        owners.insert(inode, owner)[inode] == owner,
        owners.insert(inode, owner).contains_key(other) == owners.contains_key(other),
        owners.contains_key(other) ==> owners.insert(inode, owner)[other] == owners[other],
{
}

/// The columns shared by every row: local and remote address, state,
/// protocol and inode, each left-aligned in its width, with a space between.
pub open spec fn row_columns(
    local: Seq<char>,
    remote: Seq<char>,
    state: Seq<char>,
    protocol: Seq<char>,
    inode: Seq<char>,
) -> Seq<char> {
    pad_right(local, 26) + " "@ + pad_right(remote, 26) + " "@ + pad_right(state, 15) + " "@
        + pad_right(protocol, 9) + " "@ + pad_right(inode, 7)
}

/// The five padded columns of a row.
fn columns(local: &str, remote: &str, state: &str, protocol: &str, inode: &str) -> (res: String)
    ensures
        res@ == row_columns(local@, remote@, state@, protocol@, inode@),
{
    let mut s = pad_to(local, 26);
    push_str(&mut s, " ");
    let c = pad_to(remote, 26);
    push_str(&mut s, c.as_str());
    push_str(&mut s, " ");
    let c = pad_to(state, 15);
    push_str(&mut s, c.as_str());
    push_str(&mut s, " ");
    let c = pad_to(protocol, 9);
    push_str(&mut s, c.as_str());
    push_str(&mut s, " ");
    let c = pad_to(inode, 7);
    push_str(&mut s, c.as_str());
    s
}

/// The heading of the socket table.
pub fn connections_header() -> (res: String)
    ensures
        res@ == row_columns("Local Address"@, "Remote Address"@, "State"@, "Protocol"@, "Inode"@)
            + " Command/PID"@,
{
    let mut s = columns("Local Address", "Remote Address", "State", "Protocol", "Inode");
    push_str(&mut s, " Command/PID");
    s
}

/// A row of the socket table; with an owner, `" <command>/<pid>"` follows the columns.
pub fn connection_row(
    local: &str,
    remote: &str,
    state: &str,
    protocol: &str,
    inode: u64,
    owner: Option<(&str, i32)>,
) -> (res: String)
    ensures
        ({
            let cols = row_columns(local@, remote@, state@, protocol@, decimal(inode as nat));
            res@ == match owner {
                Some((comm, pid)) => cols + " "@ + comm@ + "/"@ + signed_decimal(pid as int),
                None => cols,
            }
        }),
{
    let n = crate::text::u64_decimal(inode);
    let mut s = columns(local, remote, state, protocol, n.as_str());
    match owner {
        Some((comm, pid)) => {
            push_str(&mut s, " ");
            push_str(&mut s, comm);
            push_str(&mut s, "/");
            let p = crate::text::i64_decimal(pid as i64);
            push_str(&mut s, p.as_str());
        },
        None => {},
    }
    s
}

} // verus!
