use kernel_lib::id::IDAllocDict;
use kernel_lib::net::{
    be16, be32, check_sum, net_accept, net_arp, net_tcp_read, recv_arp, recv_tcp, recv_udp, send_udp, ARPHeader,
    ArpType, EthType, EthernetHeader, IPHeader, IPProtocal, IPv4, MacAddress, TCPHeader, TcpFlags, TCP, UDP,
    TCP_FLAG_A, TCP_FLAG_S,
};
use kernel_lib::socket::{add_socket, get_s_a_by_index, get_socket, listen, remove_socket, set_s_a_by_index, Socket};
use std::collections::BTreeSet;

fn eth_bytes(rtype: [u8; 2]) -> Vec<u8> {
    let mut v = vec![0xa, 0xb, 0xc, 0xd, 0xe, 0xf];
    v.extend_from_slice(&[1, 1, 1, 1, 1, 1]);
    v.extend_from_slice(&rtype);
    v
}

fn ip_bytes(pro: u8) -> Vec<u8> {
    vec![0x45, 0, 0, 40, 0, 1, 0, 0, 64, pro, 0, 0, 10, 0, 2, 2, 10, 0, 2, 15]
}

fn tcp_frame(dport: u16, flags: u8, seq: u32, payload: &[u8]) -> Vec<u8> {
    let mut v = eth_bytes([0x08, 0x00]);
    v.extend(ip_bytes(6));
    v.extend_from_slice(&1234u16.to_be_bytes());
    v.extend_from_slice(&dport.to_be_bytes());
    v.extend_from_slice(&seq.to_be_bytes());
    v.extend_from_slice(&0u32.to_be_bytes());
    v.push(5 << 4);
    v.push(flags);
    v.extend_from_slice(&[0x10, 0x00, 0, 0, 0, 0]);
    v.extend_from_slice(payload);
    v
}

#[test]
fn ipv4_and_mac() {
    assert_eq!(IPv4::new(10, 0, 2, 15).to_u32(), 0x0a00020f);
    assert_eq!(MacAddress::new([1, 2, 3, 4, 5, 6]).to_bytes(), [1, 2, 3, 4, 5, 6]);
}

#[test]
fn byte_order() {
    assert_eq!(be16(0x1234), 0x3412);
    assert_eq!(be32(0x12345678), 0x78563412);
}

#[test]
fn header_kinds() {
    let eth = EthernetHeader { dhost: [0; 6], shost: [0; 6], rtype: be16(0x806) };
    assert!(eth.type_() == EthType::ARP);
    let eth = EthernetHeader { dhost: [0; 6], shost: [0; 6], rtype: be16(0x800) };
    assert!(eth.type_() == EthType::IP);
    let mut ip = IPHeader::from_bytes(&ip_bytes(17), 0);
    assert!(ip.protocol() == IPProtocal::UDP);
    ip.pro = 6;
    assert!(ip.protocol() == IPProtocal::TCP);
}

#[test]
fn arp_set_type_reply() {
    let mut h = ARPHeader::from_bytes(&[0u8; 28], 0);
    h.set_type(ArpType::Reply);
    assert_eq!(h.op, be16(2));
}

#[test]
fn tcp_flags_and_ack() {
    let f = TcpFlags::from_bits(TCP_FLAG_S).union(TcpFlags::from_bits(TCP_FLAG_A));
    assert!(f.contains(TcpFlags::from_bits(TCP_FLAG_S)));
    assert!(!TcpFlags::from_bits(TCP_FLAG_A).contains(TcpFlags::from_bits(TCP_FLAG_S)));
    let h = TCPHeader::from_bytes(&tcp_frame(80, TCP_FLAG_S, 41, &[])[34..], 0);
    let a = h.ack();
    assert_eq!(be32(a.ack), 42);
    assert_eq!(a.seq, 0);
    assert_eq!(a.flags.bits(), TCP_FLAG_S | TCP_FLAG_A);
    assert_eq!(a.sport, h.sport);
}

#[test]
fn internet_checksum() {
    // a classic IP header example: its checksum is 0xb861 in network order
    let hdr = [
        0x45u8, 0x00, 0x00, 0x73, 0x00, 0x00, 0x40, 0x00, 0x40, 0x11, 0x00, 0x00, 0xc0, 0xa8, 0x00, 0x01, 0xc0,
        0xa8, 0x00, 0xc7,
    ];
    let sum = check_sum(&hdr, 20, 0);
    assert_eq!(sum.to_le_bytes(), [0xb8, 0x61]);
    // an odd length counts the last byte alone
    assert_eq!(check_sum(&[0xff, 0xff, 0x01], 3, 0), !0x0001u16);
}

#[test]
fn recv_and_accept_tcp() {
    let mut buf = tcp_frame(80, TCP_FLAG_S, 7, &[]);
    buf.resize(1024, 0);
    assert!(recv_tcp(&buf, 54, 81).is_none());
    let p = recv_tcp(&buf, 54, 80).unwrap();
    assert_eq!(be16(p.header.tcp.dport), 80);
    let (reply, socket) = net_accept(Some(p));
    let reply = reply.unwrap();
    assert_eq!(reply.len(), 54);
    // addressed back to the sender
    assert_eq!(&reply[0..6], &[1, 1, 1, 1, 1, 1]);
    assert_eq!(&reply[34..36], &80u16.to_be_bytes());
    assert_eq!(&reply[36..38], &1234u16.to_be_bytes());
    assert_eq!(reply[47], TCP_FLAG_S | TCP_FLAG_A);
    assert_eq!(socket.unwrap().source_port, 80);
    let (none, no_socket) = net_accept(None);
    assert!(none.is_none() && no_socket.is_none());
}

#[test]
fn tcp_read_needs_ack_and_data() {
    let mut buf = tcp_frame(80, TCP_FLAG_A, 1, b"hi");
    let len = buf.len();
    buf.resize(1024, 0);
    let p = recv_tcp(&buf, len, 80).unwrap();
    let got = net_tcp_read(Some(p)).unwrap();
    assert_eq!(got.data, b"hi".to_vec());
    let mut empty = tcp_frame(80, TCP_FLAG_A, 1, b"");
    empty.resize(1024, 0);
    assert!(net_tcp_read(recv_tcp(&empty, 54, 80)).is_none());
    let mut syn = tcp_frame(80, TCP_FLAG_S, 1, b"x");
    syn.resize(1024, 0);
    assert!(net_tcp_read(recv_tcp(&syn, 55, 80)).is_none());
}

#[test]
fn tcp_socket_read_write() {
    let mut buf = tcp_frame(80, TCP_FLAG_A, 9, b"payload");
    let len = buf.len();
    buf.resize(1024, 0);
    let p = recv_tcp(&buf, len, 80).unwrap();
    let mut conn = TCP::new(80);
    let mut out = [0u8; 4];
    assert_eq!(conn.read(p, &mut out), 4);
    assert_eq!(&out, b"payl");
    let (n, frame) = conn.write(b"ok");
    assert_eq!(n, 2);
    assert_eq!(frame.len(), 56);
    assert_eq!(&frame[54..], b"ok");
    assert_eq!(TCP::new_server().source_port, 0);
}

#[test]
fn udp_receive_and_answer() {
    let mut v = eth_bytes([0x08, 0x00]);
    v.extend(ip_bytes(17));
    v.extend_from_slice(&5000u16.to_be_bytes());
    v.extend_from_slice(&6000u16.to_be_bytes());
    v.extend_from_slice(&[0, 12, 0, 0]);
    v.extend_from_slice(b"ping");
    let len = v.len();
    v.resize(1024, 0);
    assert!(recv_udp(&v, len, 5000).is_none());
    let p = recv_udp(&v, len, 6000).unwrap();
    assert_eq!(p.data, b"ping".to_vec());
    let mut sock = UDP::new();
    let mut out = [0u8; 8];
    assert_eq!(sock.read(p, &mut out), 4);
    assert_eq!(&out[..4], b"ping");
    let (n, frame) = sock.write(b"pong");
    assert_eq!(n, 4);
    assert_eq!(&frame[34..36], &6000u16.to_be_bytes());
    assert_eq!(&frame[42..], b"pong");
    let again = send_udp(&sock.udp);
    assert_eq!(again, frame);
}

#[test]
fn arp_reply() {
    let mut v = eth_bytes([0x08, 0x06]);
    v.extend_from_slice(&[0, 1, 8, 0, 6, 4, 0, 1]);
    v.extend_from_slice(&[9, 9, 9, 9, 9, 9, 10, 0, 2, 2]);
    v.extend_from_slice(&[0, 0, 0, 0, 0, 0, 10, 0, 2, 15]);
    v.resize(1024, 0);
    let arp = recv_arp(&v).unwrap();
    let reply = net_arp(Some(arp)).unwrap();
    assert_eq!(reply.len(), 42);
    assert_eq!(&reply[0..6], &[1, 1, 1, 1, 1, 1]);
    assert_eq!(&reply[6..12], &[1, 2, 3, 4, 5, 6]);
    assert_eq!(&reply[20..22], &[0, 2]);
    assert_eq!(&reply[28..32], &[10, 0, 2, 15]);
    assert_eq!(&reply[32..38], &[9, 9, 9, 9, 9, 9]);
    assert!(net_arp(None).is_none());
    let ip = eth_bytes([0x08, 0x00]);
    let mut ipf = ip.clone();
    ipf.resize(1024, 0);
    assert!(recv_arp(&ipf).is_none());
}

#[test]
fn socket_table() {
    let mut table: IDAllocDict<Socket> = IDAllocDict::new();
    let ip = IPv4::new(10, 0, 2, 2);
    let a = add_socket(&mut table, ip, 80, 5000).unwrap();
    let b = add_socket(&mut table, ip, 80, 5001).unwrap();
    assert_eq!((a, b), (0, 1));
    assert_eq!(add_socket(&mut table, ip, 80, 5000), None);
    assert_eq!(get_socket(&table, ip, 80, 5001), Some(1));
    assert_eq!(get_socket(&table, ip, 81, 5001), None);
    assert_eq!(get_s_a_by_index(&table, 0), Some((0, 0)));
    set_s_a_by_index(&mut table, 0, 11, 22);
    assert_eq!(get_s_a_by_index(&table, 0), Some((11, 22)));
    remove_socket(&mut table, 0);
    assert_eq!(get_s_a_by_index(&table, 0), None);
    // the number given back is handed out again
    assert_eq!(add_socket(&mut table, ip, 90, 1), Some(0));
}

#[test]
fn listen_ports() {
    let mut ports = BTreeSet::new();
    listen(&mut ports, 80);
    listen(&mut ports, 80);
    listen(&mut ports, 8080);
    assert_eq!(ports.len(), 2);
    assert!(ports.contains(&8080));
}
