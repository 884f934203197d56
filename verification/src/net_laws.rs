use crate::codec::{le_u16, le_u32, u16_bytes, u32_bytes};
use crate::net::{
    ack_header, checksum_of, eth_bytes, fold16, ip_bytes, reply_eth_header, reply_ip_header, reply_tcp_header, swap16,
    swap32, tcp_bytes, tcp_pseudo_sum, tcp_reply_bytes, udp_bytes, udp_reply_bytes, word_sum, IPHeader, TCPHeader,
    TCPPacketHeader, UDPHeader, UDPPacketHeader, TCP_FLAG_A, TCP_FLAG_S, accept_reply, arp_bytes, arp_reply_spec,
    ARPPacket, payload_offset,
};
use vstd::prelude::*;

verus! {

/// The big-endian value of the two bytes of `s` at `off`.
pub open spec fn be_u16(s: Seq<u8>, off: int) -> int {
    s[off] * 256 + s[off + 1]
}

/// The big-endian value of the four bytes of `s` at `off`.
pub open spec fn be_u32(s: Seq<u8>, off: int) -> int {
    s[off] * 16777216 + s[off + 1] * 65536 + s[off + 2] * 256 + s[off + 3]
}

/// The IP header of the frame `r` checks: its ten words, checksum included, add up in ones'
/// complement to all ones.
pub open spec fn ip_header_checks(r: Seq<u8>) -> bool {
    fold16(word_sum(r.subrange(14, 34), 0, 20)) == 65535
}

/// Folding keeps a sum's remainder modulo 65535, and turns a positive sum into a value from 1
/// to 65535.
pub proof fn lemma_fold16(s: int)
    requires
        s >= 0,
    ensures
        fold16(s) % 65535 == s % 65535,
        s == 0 ==> fold16(s) == 0,
        s > 0 ==> 1 <= fold16(s) <= 65535,
    decreases s,
{
    if s >= 65536 {
        let q = s / 65536;
        let r = s % 65536;
        vstd::arithmetic::div_mod::lemma_fundamental_div_mod(s, 65536);
        assert(q >= 1);
        assert(r + q < s);
        lemma_fold16(r + q);
        assert(s == 65535 * q + (r + q));
        vstd::arithmetic::div_mod::lemma_mod_multiples_vanish(q, r + q, 65535);
    }
}

/// Adding to a sum the checksum computed from it closes the sum: the folded total is all
/// ones.
pub proof fn lemma_checksum_closes(s: int)
    requires
        s >= 0,
    ensures
        0 <= 65535 - fold16(s) <= 65535,
        fold16(s + (65535 - fold16(s))) == 65535,
{
    lemma_fold16(s);
    let f = fold16(s);
    let t = s + (65535 - f);
    assert(t > 0);
    vstd::arithmetic::div_mod::lemma_mod_equivalence(s, f, 65535);
    assert((s - f) % 65535 == 0);
    vstd::arithmetic::div_mod::lemma_mod_add_multiples_vanish(s - f, 65535);
    assert(t % 65535 == 0);
    lemma_fold16(t);
    let g = fold16(t);
    if g < 65535 {
        vstd::arithmetic::div_mod::lemma_small_mod(g as nat, 65535);
    }
}

/// The sum of words is the same over bytes that agree from `k` to `len`.
pub proof fn lemma_word_sum_frame(b: Seq<u8>, b2: Seq<u8>, k: int, len: int)
    requires
        0 <= k,
        len <= b.len(),
        len <= b2.len(),
        forall|i: int| k <= i < len ==> #[trigger] b2[i] == b[i],
    ensures
        word_sum(b2, k, len) == word_sum(b, k, len),
    decreases len - k,
{
    if len - k >= 2 {
        lemma_word_sum_frame(b, b2, k + 2, len);
    }
}

/// Changing the word at `p`, an even distance from `k`, changes the sum of words by the change
/// of that word.
pub proof fn lemma_word_sum_update(b: Seq<u8>, b2: Seq<u8>, k: int, len: int, p: int)
    requires
        0 <= k <= p,
        p + 2 <= len,
        len <= b.len(),
        len <= b2.len(),
        (p - k) % 2 == 0,
        forall|i: int| k <= i < len && i != p && i != p + 1 ==> #[trigger] b2[i] == b[i],
    ensures
        word_sum(b2, k, len) == word_sum(b, k, len) - le_u16(b, p) + le_u16(b2, p),
    decreases len - k,
{
    if k == p {
        lemma_word_sum_frame(b, b2, p + 2, len);
    } else {
        assert(b2[k] == b[k] && b2[k + 1] == b[k + 1]);
        lemma_word_sum_update(b, b2, k + 2, len, p);
    }
}

/// The two bytes of a `u16` in network order read back big-endian as the value.
pub proof fn lemma_swap16_be(x: u16)
    ensures
        u16_bytes(swap16(x)).len() == 2,
        u16_bytes(swap16(x))[0] * 256 + u16_bytes(swap16(x))[1] == x,
{
    let s = swap16(x);
    assert(s % 256 == x / 256 && s / 256 == x % 256) by (bit_vector)
        requires
            s == ((x % 256) * 256 + x / 256) as u16,
    ;
}

/// The four bytes of a `u32` read big-endian give the value in network order.
pub proof fn lemma_swap32_be(x: u32)
    ensures
        u32_bytes(x).len() == 4,
        be_u32(u32_bytes(x), 0) == swap32(x),
        be_u32(u32_bytes(swap32(x)), 0) == x,
{
    let s = swap32(x);
    assert(s % 256 == x / 16777216 && (s / 256) % 256 == (x / 65536) % 256 && (s / 65536) % 256 == (x / 256) % 256
        && s / 16777216 == x % 256) by (bit_vector)
        requires
            s == ((x % 256) * 16777216 + ((x / 256) % 256) * 65536 + ((x / 65536) % 256) * 256 + x / 16777216) as u32,
    ;
    assert(((x % 256) * 16777216 + ((x / 256) % 256) * 65536 + ((x / 65536) % 256) * 256 + x / 16777216) < 0x1_0000_0000) by (bit_vector);
    assert(x == (x / 16777216) * 16777216 + ((x / 65536) % 256) * 65536 + ((x / 256) % 256) * 256 + x % 256) by (bit_vector);
}

/// The IP header of every reply checks: its checksum, computed over the header with a zero
/// checksum field, makes the words of the header add up to all ones.
pub proof fn lemma_reply_ip_header_checks(ip: IPHeader, total: int)
    ensures
        fold16(word_sum(ip_bytes(reply_ip_header(ip, total)), 0, 20)) == 65535,
{
    let h0 = IPHeader { src: ip.dst, dst: ip.src, len: swap16(total as u16), sum: 0, ..ip };
    let b0 = ip_bytes(h0);
    let b1 = ip_bytes(reply_ip_header(ip, total));
    let w0 = word_sum(b0, 0, 20);
    crate::net::lemma_word_sum_nonneg(b0, 0, 20);
    lemma_checksum_closes(w0);
    let c = reply_ip_header(ip, total).sum;
    assert(c == 65535 - fold16(w0));
    lemma_word_sum_update(b0, b1, 0, 20, 10);
    assert(le_u16(b0, 10) == 0);
    assert(le_u16(b1, 10) == c);
}

/// A UDP frame `r` answers the frame with headers `h` and payload `data`: it goes to the
/// sender's hardware address, IP address and port from those the frame came to, with the
/// frame's type and protocol; its IP total length and its UDP length, big-endian, count its
/// headers and `data`; its UDP checksum is left zero and its IP header checks; it carries
/// `data`.
pub open spec fn answers_udp(h: UDPPacketHeader, data: Seq<u8>, r: Seq<u8>) -> bool {
    &&& r.len() == 42 + data.len()
    &&& r.subrange(0, 6) == h.eth.shost@
    &&& r.subrange(6, 12) == h.eth.dhost@
    &&& r.subrange(12, 14) == u16_bytes(h.eth.rtype)
    &&& r[23] == h.ip.pro
    &&& r.subrange(26, 30) == u32_bytes(h.ip.dst)
    &&& r.subrange(30, 34) == u32_bytes(h.ip.src)
    &&& r.subrange(40, 42) == seq![0u8, 0]
    &&& r.subrange(34, 36) == u16_bytes(h.udp.dport)
    &&& r.subrange(36, 38) == u16_bytes(h.udp.sport)
    &&& be_u16(r, 16) == (data.len() + 28) as u16
    &&& be_u16(r, 38) == (data.len() + 8) as u16
    &&& ip_header_checks(r)
    &&& r.skip(42) == data
}

/// The reply to a UDP datagram answers it: addressed back to the sender, with the UDP length
/// counting the 8-byte header and the data, the IP length counting both headers and the data,
/// and an IP header that checks.
pub proof fn lemma_udp_reply(h: UDPPacketHeader, data: Seq<u8>)
    ensures
        answers_udp(h, data, udp_reply_bytes(h, data)),
{
    let r = udp_reply_bytes(h, data);
    let u = UDPHeader { sport: h.udp.dport, dport: h.udp.sport, sum: 0, ulen: swap16((data.len() + 8) as u16) };
    let iph = reply_ip_header(h.ip, (data.len() + 28) as int);
    let e = eth_bytes(reply_eth_header(h.eth));
    let i = ip_bytes(iph);
    let ub = udp_bytes(u);
    assert(r == e + i + ub + data);
    assert(r.subrange(0, 6) =~= h.eth.shost@);
    assert(r.subrange(6, 12) =~= h.eth.dhost@);
    assert(r.subrange(14, 34) =~= i);
    assert(r.subrange(26, 30) =~= u32_bytes(h.ip.dst));
    assert(r.subrange(30, 34) =~= u32_bytes(h.ip.src));
    assert(r.subrange(12, 14) =~= u16_bytes(h.eth.rtype));
    assert(r[23] == i[9]);
    assert(r.subrange(40, 42) =~= seq![0u8, 0]);
    assert(r.subrange(34, 36) =~= u16_bytes(h.udp.dport));
    assert(r.subrange(36, 38) =~= u16_bytes(h.udp.sport));
    assert(r.skip(42) =~= data);
    lemma_swap16_be((data.len() + 8) as u16);
    lemma_swap16_be((data.len() + 28) as u16);
    assert(r[38] == ub[4] && r[39] == ub[5]);
    assert(r[16] == i[2] && r[17] == i[3]);
    lemma_reply_ip_header_checks(h.ip, (data.len() + 28) as int);
}

/// The TCP segment of the frame `r` checks: the pseudo header (the frame's source and
/// destination addresses, protocol 6, and the segment length, each as the words that stand in
/// memory) and the words of the segment, checksum included, add up in ones' complement to all
/// ones.
pub open spec fn tcp_segment_checks(r: Seq<u8>) -> bool {
    fold16(le_u32(r, 26) + le_u32(r, 30) + 6 * 256 + swap16((r.len() - 34) as u16) + word_sum(r.skip(34), 0, r.len() - 34))
        == 65535
}

/// A TCP frame `r` answers the frame with headers `h`: it goes to the sender's hardware
/// address, IP address and port from those the frame came to, with the frame's type and
/// protocol; its IP total length counts its
/// headers and `data`; its header is five words long; its IP header checks and, for a TCP
/// frame, so does its segment; it carries `data`.
pub open spec fn tcp_reply_addressed(h: TCPPacketHeader, data: Seq<u8>, r: Seq<u8>) -> bool {
    &&& r.len() == 54 + data.len()
    &&& r.subrange(0, 6) == h.eth.shost@
    &&& r.subrange(6, 12) == h.eth.dhost@
    &&& r.subrange(12, 14) == u16_bytes(h.eth.rtype)
    &&& r[23] == h.ip.pro
    &&& r.subrange(26, 30) == u32_bytes(h.ip.dst)
    &&& r.subrange(30, 34) == u32_bytes(h.ip.src)
    &&& r.subrange(34, 36) == u16_bytes(h.tcp.dport)
    &&& r.subrange(36, 38) == u16_bytes(h.tcp.sport)
    &&& r[46] == 0x50
    &&& be_u16(r, 16) == (data.len() + 40) as u16
    &&& ip_header_checks(r)
    &&& h.ip.pro == 6 ==> tcp_segment_checks(r)
    &&& r.skip(54) == data
}

/// A TCP frame `r` answers the frame with headers `h` carrying `data`, as
/// [`tcp_reply_addressed`] says, with the sequence and acknowledgement numbers, flags, window
/// and urgent pointer of `h`.
pub open spec fn answers_tcp(h: TCPPacketHeader, data: Seq<u8>, r: Seq<u8>) -> bool {
    &&& tcp_reply_addressed(h, data, r)
    &&& r.subrange(38, 42) == u32_bytes(h.tcp.seq)
    &&& r.subrange(42, 46) == u32_bytes(h.tcp.ack)
    &&& r[47] == h.tcp.flags.bits
    &&& r.subrange(48, 50) == u16_bytes(h.tcp.win)
    &&& r.subrange(52, 54) == u16_bytes(h.tcp.urg)
}

/// Every TCP frame the kernel sends answers the frame it replies to: addressed back to the
/// sender, with the sequence and acknowledgement numbers, flags, window and urgent pointer it
/// was given, and with an IP header and, over the pseudo header, a TCP segment that check.
pub proof fn lemma_tcp_reply(h: TCPPacketHeader, data: Seq<u8>)
    ensures
        answers_tcp(h, data, tcp_reply_bytes(h, data)),
{
    let r = tcp_reply_bytes(h, data);
    let seglen = (data.len() + 20) as int;
    let iph = reply_ip_header(h.ip, (data.len() + 40) as int);
    let e = eth_bytes(reply_eth_header(h.eth));
    let i = ip_bytes(iph);
    let t = reply_tcp_header(h, data);
    let tb = tcp_bytes(t);
    assert(r == e + i + tb + data);
    assert(r.subrange(0, 6) =~= h.eth.shost@);
    assert(r.subrange(6, 12) =~= h.eth.dhost@);
    assert(r.subrange(14, 34) =~= i);
    assert(r.subrange(26, 30) =~= u32_bytes(h.ip.dst));
    assert(r.subrange(30, 34) =~= u32_bytes(h.ip.src));
    assert(r.subrange(12, 14) =~= u16_bytes(h.eth.rtype));
    assert(r[23] == i[9]);
    assert(r.subrange(34, 36) =~= u16_bytes(h.tcp.dport));
    assert(r.subrange(36, 38) =~= u16_bytes(h.tcp.sport));
    assert(r.subrange(38, 42) =~= u32_bytes(h.tcp.seq));
    assert(r.subrange(42, 46) =~= u32_bytes(h.tcp.ack));
    assert(r.subrange(48, 50) =~= u16_bytes(h.tcp.win));
    assert(r.subrange(52, 54) =~= u16_bytes(h.tcp.urg));
    assert(r[46] == tb[12] && r[47] == tb[13]);
    assert(r.skip(54) =~= data);
    lemma_swap16_be((data.len() + 40) as u16);
    assert(r[16] == i[2] && r[17] == i[3]);
    lemma_reply_ip_header_checks(h.ip, (data.len() + 40) as int);
    if h.ip.pro == 6 {
        lemma_tcp_segment_checks(h, data);
    }
}

/// The checksum of every TCP segment the kernel sends is computed over the pseudo header: with
/// it, the pseudo header and the segment add up in ones' complement to all ones.
pub proof fn lemma_tcp_segment_checks(h: TCPPacketHeader, data: Seq<u8>)
    requires
        h.ip.pro == 6,
    ensures
        tcp_segment_checks(tcp_reply_bytes(h, data)),
{
    let r = tcp_reply_bytes(h, data);
    let seglen = (data.len() + 20) as int;
    let iph = reply_ip_header(h.ip, (data.len() + 40) as int);
    let e = eth_bytes(reply_eth_header(h.eth));
    let i = ip_bytes(iph);
    let t0 = TCPHeader { sport: h.tcp.dport, dport: h.tcp.sport, offset: 0x50, sum: 0, ..h.tcp };
    let t = reply_tcp_header(h, data);
    let b0 = tcp_bytes(t0) + data;
    let b1 = tcp_bytes(t) + data;
    assert(r == e + i + b1);
    assert(r.skip(34) =~= b1);
    assert(r.len() - 34 == seglen);
    assert(r.subrange(26, 30) =~= u32_bytes(h.ip.dst));
    assert(r.subrange(30, 34) =~= u32_bytes(h.ip.src));
    crate::codec::lemma_u32_roundtrip(h.ip.dst);
    crate::codec::lemma_u32_roundtrip(h.ip.src);
    assert(le_u32(r, 26) == h.ip.dst) by {
        assert(r[26] == u32_bytes(h.ip.dst)[0] && r[27] == u32_bytes(h.ip.dst)[1]);
        assert(r[28] == u32_bytes(h.ip.dst)[2] && r[29] == u32_bytes(h.ip.dst)[3]);
    }
    assert(le_u32(r, 30) == h.ip.src) by {
        assert(r[30] == u32_bytes(h.ip.src)[0] && r[31] == u32_bytes(h.ip.src)[1]);
        assert(r[32] == u32_bytes(h.ip.src)[2] && r[33] == u32_bytes(h.ip.src)[3]);
    }
    let p = tcp_pseudo_sum(h.ip, seglen);
    assert(swap16(h.ip.pro as u16) == 6 * 256);
    assert(le_u32(r, 26) + le_u32(r, 30) + 6 * 256 + swap16((r.len() - 34) as u16) == p);
    let w0 = word_sum(b0, 0, seglen);
    crate::net::lemma_word_sum_nonneg(b0, 0, seglen);
    lemma_checksum_closes(p + w0);
    assert(t.sum == 65535 - fold16(p + w0));
    assert forall|k: int| 0 <= k < seglen && k != 16 && k != 17 implies #[trigger] b1[k] == b0[k] by {
        if k >= 20 {
            assert(b1[k] == data[k - 20] && b0[k] == data[k - 20]);
        }
    }
    lemma_word_sum_update(b0, b1, 0, seglen, 16);
    assert(le_u16(b0, 16) == 0);
    assert(le_u16(b1, 16) == t.sum);
    assert(word_sum(r.skip(34), 0, r.len() - 34) == w0 + t.sum);
}

/// The header that acknowledges `h` keeps its ports, header length, window and urgent pointer,
/// starts its own sequence at zero, acknowledges one past the sequence number of `h` (both
/// read big-endian, as they travel), and carries the flags SYN and ACK.
pub proof fn lemma_ack_header(h: TCPHeader)
    requires
        swap32(h.seq) < u32::MAX,
    ensures
        ack_header(h).sport == h.sport,
        ack_header(h).dport == h.dport,
        ack_header(h).offset == h.offset,
        ack_header(h).win == h.win,
        ack_header(h).urg == h.urg,
        ack_header(h).seq == 0,
        ack_header(h).flags.bits == 0x12,
        be_u32(u32_bytes(ack_header(h).ack), 0) == be_u32(u32_bytes(h.seq), 0) + 1,
{
    lemma_swap32_be(h.seq);
    lemma_swap32_be((swap32(h.seq) + 1) as u32);
    assert(TCP_FLAG_S | TCP_FLAG_A == 0x12u8) by (bit_vector);
}

/// A frame `r` accepts the connection asked for by the frame with headers `h`: it is addressed
/// back to the sender, starts its sequence at zero, acknowledges one past the sequence number
/// of `h`, carries the flags SYN and ACK, and keeps the window and urgent pointer of `h`.
pub open spec fn acknowledges_syn(h: TCPPacketHeader, r: Seq<u8>) -> bool {
    &&& tcp_reply_addressed(h, Seq::empty(), r)
    &&& r.subrange(38, 42) == seq![0u8, 0, 0, 0]
    &&& be_u32(r, 42) == be_u32(u32_bytes(h.tcp.seq), 0) + 1
    &&& r[47] == 0x12
    &&& r.subrange(48, 50) == u16_bytes(h.tcp.win)
    &&& r.subrange(52, 54) == u16_bytes(h.tcp.urg)
}

/// The answer to a frame asking for a connection accepts it, as [`acknowledges_syn`] says.
pub proof fn lemma_syn_ack(h: TCPPacketHeader)
    requires
        swap32(h.tcp.seq) < u32::MAX,
    ensures
        acknowledges_syn(h, tcp_reply_bytes(accept_reply(h), Seq::empty())),
{
    let a = accept_reply(h);
    let r = tcp_reply_bytes(a, Seq::empty());
    lemma_tcp_reply(a, Seq::empty());
    lemma_ack_header(h.tcp);
    assert(u32_bytes(0u32) =~= seq![0u8, 0, 0, 0]);
    let ab = u32_bytes(a.tcp.ack);
    assert(r.subrange(42, 46) == ab);
    assert(r[42] == ab[0] && r[43] == ab[1] && r[44] == ab[2] && r[45] == ab[3]);
}

/// The ARP frame `r` answers the request `p`: bytes `q` as the request came. It goes to the
/// requester's hardware address from this host's (01:02:03:04:05:06), keeps the frame type and
/// the address types and lengths, is a reply (operation 2), gives this host's hardware address
/// and IP address 10.0.2.15 as the sender's, and the requester's hardware and IP addresses as
/// the target's.
pub open spec fn answers_arp(p: ARPPacket, r: Seq<u8>) -> bool {
    let q = eth_bytes(p.eth) + arp_bytes(p.arp);
    &&& r.len() == 42
    &&& r.subrange(0, 6) == q.subrange(6, 12)
    &&& r.subrange(6, 12) == seq![1u8, 2, 3, 4, 5, 6]
    &&& r.subrange(12, 20) == q.subrange(12, 20)
    &&& r.subrange(20, 22) == seq![0u8, 2]
    &&& r.subrange(22, 28) == seq![1u8, 2, 3, 4, 5, 6]
    &&& r.subrange(28, 32) == seq![10u8, 0, 2, 15]
    &&& r.subrange(32, 38) == q.subrange(22, 28)
    &&& r.subrange(38, 42) == q.subrange(28, 32)
}

/// The reply to an ARP request answers it, as [`answers_arp`] says.
pub proof fn lemma_arp_reply(p: ARPPacket)
    ensures
        answers_arp(p, eth_bytes(arp_reply_spec(p).eth) + arp_bytes(arp_reply_spec(p).arp)),
{
    let a = arp_reply_spec(p);
    let r = eth_bytes(a.eth) + arp_bytes(a.arp);
    let q = eth_bytes(p.eth) + arp_bytes(p.arp);
    assert(swap32(0x0a00020fu32) == 0x0f02000au32);
    assert(u32_bytes(0x0f02000au32) =~= seq![10u8, 0, 2, 15]);
    assert(swap16(2u16) == 512u16);
    assert(u16_bytes(512u16) =~= seq![0u8, 2]);
    assert(r.subrange(0, 6) =~= q.subrange(6, 12));
    assert(r.subrange(6, 12) =~= seq![1u8, 2, 3, 4, 5, 6]);
    assert(r.subrange(12, 20) =~= q.subrange(12, 20));
    assert(r.subrange(20, 22) =~= seq![0u8, 2]);
    assert(r.subrange(22, 28) =~= seq![1u8, 2, 3, 4, 5, 6]);
    assert(r.subrange(28, 32) =~= seq![10u8, 0, 2, 15]);
    assert(r.subrange(32, 38) =~= q.subrange(22, 28));
    assert(r.subrange(38, 42) =~= q.subrange(28, 32));
}

/// The payload of a TCP frame starts after the options: the header is as many 4-byte words long
/// as the high four bits of its offset byte say, and the first 20 bytes of it are not part of
/// the frame's data.
pub proof fn lemma_payload_offset(h: TCPHeader)
    ensures
        payload_offset(h) == 4 * (h.offset / 16) - 20,
{
    let o = h.offset;
    assert((o >> 4u8) & 0xf == o / 16) by (bit_vector);
}

} // verus!
