use crate::id::IDAllocDict;
use crate::net::IPv4;
use std::collections::BTreeSet;
use vstd::prelude::*;

verus! {

broadcast use {vstd::std_specs::btree::group_btree_axioms, vstd::laws_cmp::group_laws_cmp};

/// A connection: the remote address, the local and remote ports, and the sequence and
/// acknowledgement numbers.
pub struct Socket {
    pub raddr: IPv4,
    pub lport: u16,
    pub rport: u16,
    pub seq: u32,
    pub ack: u32,
}

/// The connections by number.
pub type SocketTable = IDAllocDict<Socket>;

/// The socket connects the given addresses and ports.
pub open spec fn socket_matches(s: Socket, raddr: IPv4, lport: u16, rport: u16) -> bool {
    s.raddr == raddr && s.lport == lport && s.rport == rport
}

/// The sequence and acknowledgement numbers of connection `index`.
pub fn get_s_a_by_index(table: &SocketTable, index: usize) -> (r: Option<(u32, u32)>)
    ensures
        match r {
            Some(sa) => table@.contains_key(index) && sa == (table@[index].seq, table@[index].ack),
            None => !table@.contains_key(index),
        },
{
    match table.get(index) {
        Some(x) => Some((x.seq, x.ack)),
        None => None,
    }
}

/// Sets the sequence and acknowledgement numbers of connection `index`.
pub fn set_s_a_by_index(table: &mut SocketTable, index: usize, seq: u32, ack: u32)
    requires
        old(table)@.contains_key(index),
    ensures
        final(table)@ == old(table)@.insert(index, Socket { seq, ack, ..old(table)@[index] }),
        final(table).ids() == old(table).ids(),
{
    let sock = table.get_mut(index).unwrap();
    sock.ack = ack;
    sock.seq = seq;
}

/// The number of the first connection, in order of number, that connects the given addresses
/// and ports.
pub fn get_socket(table: &SocketTable, raddr: IPv4, lport: u16, rport: u16) -> (r: Option<usize>)
    requires
        table.wf(),
    ensures
        match r {
            Some(id) => {
                &&& table@.contains_key(id)
                &&& socket_matches(table@[id], raddr, lport, rport)
                &&& forall|k: usize| k < id && #[trigger] table@.contains_key(k) ==> !socket_matches(table@[k], raddr, lport, rport)
            },
            None => forall|k: usize| #[trigger] table@.contains_key(k) ==> !socket_matches(table@[k], raddr, lport, rport),
        },
{
    let entries = table.iter();
    let mut i: usize = 0;
    while i < entries.len()
        invariant
            i <= entries@.len(),
            forall|j: int| #![trigger entries@[j]] 0 <= j < entries@.len() ==> table@.contains_key(entries@[j].0) && *entries@[j].1 == table@[entries@[j].0],
            forall|a: int, b: int| 0 <= a < b < entries@.len() ==> #[trigger] entries@[a].0 < #[trigger] entries@[b].0,
            forall|id: usize| #[trigger] table@.contains_key(id) ==> exists|j: int| 0 <= j < entries@.len() && entries@[j].0 == id,
            forall|j: int| 0 <= j < i ==> !socket_matches(*(#[trigger] entries@[j]).1, raddr, lport, rport),
        decreases entries@.len() - i,
    {
        let (id, sock) = entries[i];
        if sock.raddr == raddr && sock.lport == lport && sock.rport == rport {
            proof {
                assert forall|k: usize| k < id && #[trigger] table@.contains_key(k) implies !socket_matches(table@[k], raddr, lport, rport) by {
                    let j = choose|j: int| 0 <= j < entries@.len() && entries@[j].0 == k;
                    assert(entries@[j].0 == k);
                    if j >= i {
                        if j > i {
                            assert(entries@[i as int].0 < entries@[j].0);
                        }
                    }
                }
            }
            return Some(id);
        }
        i += 1;
    }
    proof {
        assert forall|k: usize| #[trigger] table@.contains_key(k) implies !socket_matches(table@[k], raddr, lport, rport) by {
            let j = choose|j: int| 0 <= j < entries@.len() && entries@[j].0 == k;
            assert(entries@[j].0 == k);
        }
    }
    None
}

/// Adds a connection between the given addresses and ports and returns its number; `None`
/// when there is one already.
pub fn add_socket(table: &mut SocketTable, raddr: IPv4, lport: u16, rport: u16) -> (r: Option<usize>)
    requires
        old(table).wf(),
        old(table).ids().recycled().len() == 0 ==> old(table).ids().next() < usize::MAX,
    ensures
        final(table).wf(),
        r is None <==> exists|k: usize| #[trigger] old(table)@.contains_key(k) && socket_matches(old(table)@[k], raddr, lport, rport),
        r is None ==> final(table)@ == old(table)@,
        r matches Some(id) ==> {
            &&& !old(table)@.contains_key(id)
            &&& final(table)@ == old(table)@.insert(id, Socket { raddr, lport, rport, seq: 0, ack: 0 })
        },
{
    if get_socket(table, raddr, lport, rport).is_some() {
        return None;
    }
    let socket = Socket { raddr, lport, rport, seq: 0, ack: 0 };
    Some(table.insert(socket))
}

/// Removes connection `index`.
pub fn remove_socket(table: &mut SocketTable, index: usize)
    ensures
        final(table)@ == old(table)@.remove(index),
        old(table).wf() && old(table)@.contains_key(index) ==> final(table).wf(),
{
    table.remove(index);
}

/// Starts listening on `port`.
pub fn listen(listen_ports: &mut BTreeSet<u16>, port: u16)
    ensures
        final(listen_ports)@ == old(listen_ports)@.insert(port),
{
    listen_ports.insert(port);
}

} // verus!
