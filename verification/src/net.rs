use crate::codec::{le_u16, le_u32, push_u16, push_u32, read_u16, read_u32, u16_bytes, u32_bytes};
use crate::net_laws::{acknowledges_syn, answers_arp, answers_tcp, answers_udp, be_u32};
use vstd::prelude::*;

verus! {

/// `x` with its two bytes swapped: the conversion between host order (little-endian) and
/// network order.
pub open spec fn swap16(x: u16) -> u16 {
    ((x % 256) * 256 + x / 256) as u16
}

/// `x` with its four bytes in reverse order.
pub open spec fn swap32(x: u32) -> u32 {
    ((x % 256) * 16777216 + ((x / 256) % 256) * 65536 + ((x / 65536) % 256) * 256 + x / 16777216) as u32
}

/// `x` in network byte order.
pub fn be16(x: u16) -> (r: u16)
    ensures
        r == swap16(x),
{
    let r = (x << 8u16) | (x >> 8u16);
    assert(r == ((x % 256) * 256 + x / 256) as u16) by (bit_vector)
        requires
            r == (x << 8u16) | (x >> 8u16),
    ;
    r
}

/// `x` in network byte order.
pub fn be32(x: u32) -> (r: u32)
    ensures
        r == swap32(x),
{
    let r = ((x & 0xff) << 24u32) | (((x >> 8u32) & 0xff) << 16u32) | (((x >> 16u32) & 0xff) << 8u32) | (x >> 24u32);
    assert(r == ((x % 256) * 16777216 + ((x / 256) % 256) * 65536 + ((x / 65536) % 256) * 256 + x / 16777216) as u32) by (bit_vector)
        requires
            r == ((x & 0xff) << 24u32) | (((x >> 8u32) & 0xff) << 16u32) | (((x >> 16u32) & 0xff) << 8u32) | (x >> 24u32),
    ;
    r
}

/// An IPv4 address, the first byte in the highest bits.
#[derive(Clone, Copy, PartialEq, Eq, Structural, Default)]
pub struct IPv4(pub u32);

impl IPv4 {
    /// The address `a1.a2.a3.a4`.
    pub fn new(a1: u8, a2: u8, a3: u8, a4: u8) -> (r: Self)
        ensures
            r.0 == a1 * 16777216 + a2 * 65536 + a3 * 256 + a4,
    {
        let r = (a1 as u32) << 24u32 | (a2 as u32) << 16u32 | (a3 as u32) << 8u32 | (a4 as u32);
        let (b1, b2, b3, b4) = (a1 as u32, a2 as u32, a3 as u32, a4 as u32);
        assert(b1 << 24u32 | b2 << 16u32 | b3 << 8u32 | b4 == b1 * 16777216 + b2 * 65536 + b3 * 256 + b4) by (bit_vector)
            requires
                b1 < 256,
                b2 < 256,
                b3 < 256,
                b4 < 256,
        ;
        IPv4(r)
    }

    /// The address as a number.
    pub fn to_u32(&self) -> (r: u32)
        ensures
            r == self.0,
    {
        self.0
    }
}

/// A hardware address.
#[derive(Clone, Copy, Default)]
pub struct MacAddress(pub [u8; 6]);

impl MacAddress {
    pub fn new(addr: [u8; 6]) -> (r: Self)
        ensures
            r.0 == addr,
    {
        MacAddress(addr)
    }

    /// The six bytes of the address.
    pub fn to_bytes(&self) -> (r: [u8; 6])
        ensures
            r == self.0,
    {
        self.0
    }
}

/// The address of this host.
pub fn localhost_ip() -> (r: IPv4)
    ensures
        r.0 == 0x0a00020f,
{
    IPv4::new(10, 0, 2, 15)
}

/// The hardware address of this host.
pub fn localhost_mac() -> (r: MacAddress)
    ensures
        r.0@ == seq![1u8, 2, 3, 4, 5, 6],
{
    let r = MacAddress::new([1, 2, 3, 4, 5, 6]);
    assert(r.0@ =~= seq![1u8, 2, 3, 4, 5, 6]);
    r
}

/// The payload kind of an Ethernet frame.
#[derive(PartialEq, Eq, Structural)]
pub enum EthType {
    IP,
    ARP,
}

/// An Ethernet header, each field as it lies in memory (multi-byte fields in network order).
#[derive(Clone, Copy, Default)]
pub struct EthernetHeader {
    pub dhost: [u8; 6],
    pub shost: [u8; 6],
    pub rtype: u16,
}

/// The bytes of an Ethernet header.
pub open spec fn eth_bytes(h: EthernetHeader) -> Seq<u8> {
    h.dhost@ + h.shost@ + u16_bytes(h.rtype)
}

/// The payload kind named by a frame type, where it names one.
pub open spec fn eth_type_of(rtype: u16) -> Option<EthType> {
    if swap16(rtype) == 0x800 {
        Some(EthType::IP)
    } else if swap16(rtype) == 0x806 {
        Some(EthType::ARP)
    } else {
        None
    }
}

impl EthernetHeader {
    /// The payload kind of the frame.
    pub fn type_(&self) -> (r: EthType)
        requires
            eth_type_of(self.rtype) is Some,
        ensures
            eth_type_of(self.rtype) == Some(r),
    {
        let t = be16(self.rtype);
        if t == 0x800 {
            EthType::IP
        } else {
            EthType::ARP
        }
    }

    /// The header stored at `off` in `b`.
    pub fn from_bytes(b: &[u8], off: usize) -> (r: Self)
        requires
            off + 14 <= b@.len(),
        ensures
            eth_bytes(r) == b@.subrange(off as int, off + 14),
    {
        let _n = b.len();
        let dhost = read_mac(b, off);
        let shost = read_mac(b, off + 6);
        let rtype = read_u16(b, off + 12);
        let r = EthernetHeader { dhost, shost, rtype };
        proof {
            crate::codec::lemma_u16_roundtrip(rtype);
            lemma_u16_bytes_of(b@, off + 12);
            assert(eth_bytes(r) =~= b@.subrange(off as int, off + 14));
        }
        r
    }

    /// Appends the bytes of the header to `v`.
    pub fn push_to(&self, v: &mut Vec<u8>)
        ensures
            final(v)@ == old(v)@ + eth_bytes(*self),
    {
        push_mac(v, &self.dhost);
        push_mac(v, &self.shost);
        push_u16(v, self.rtype);
        assert(final(v)@ =~= old(v)@ + eth_bytes(*self));
    }
}

/// The protocol carried by an IP packet.
#[derive(PartialEq, Eq, Structural)]
pub enum IPProtocal {
    TCP,
    UDP,
}

/// An IP header, each field as it lies in memory.
#[derive(Clone, Copy, Default)]
pub struct IPHeader {
    pub vhl: u8,
    pub tos: u8,
    pub len: u16,
    pub id: u16,
    pub off: u16,
    pub ttl: u8,
    pub pro: u8,
    pub sum: u16,
    pub src: u32,
    pub dst: u32,
}

/// The bytes of an IP header.
pub open spec fn ip_bytes(h: IPHeader) -> Seq<u8> {
    seq![h.vhl, h.tos] + u16_bytes(h.len) + u16_bytes(h.id) + u16_bytes(h.off) + seq![h.ttl, h.pro]
        + u16_bytes(h.sum) + u32_bytes(h.src) + u32_bytes(h.dst)
}

/// The protocol named by a protocol number, where it names one.
pub open spec fn protocol_of(pro: u8) -> Option<IPProtocal> {
    if pro == 6 {
        Some(IPProtocal::TCP)
    } else if pro == 17 {
        Some(IPProtocal::UDP)
    } else {
        None
    }
}

impl IPHeader {
    /// The protocol carried by the packet.
    pub fn protocol(&self) -> (r: IPProtocal)
        requires
            protocol_of(self.pro) is Some,
        ensures
            protocol_of(self.pro) == Some(r),
    {
        if self.pro == 6 {
            IPProtocal::TCP
        } else {
            IPProtocal::UDP
        }
    }

    /// The header stored at `off` in `b`.
    pub fn from_bytes(b: &[u8], off: usize) -> (r: Self)
        requires
            off + 20 <= b@.len(),
        ensures
            ip_bytes(r) == b@.subrange(off as int, off + 20),
    {
        let _n = b.len();
        let r = IPHeader {
            vhl: b[off],
            tos: b[off + 1],
            len: read_u16(b, off + 2),
            id: read_u16(b, off + 4),
            off: read_u16(b, off + 6),
            ttl: b[off + 8],
            pro: b[off + 9],
            sum: read_u16(b, off + 10),
            src: read_u32(b, off + 12),
            dst: read_u32(b, off + 16),
        };
        proof {
            lemma_u16_bytes_of(b@, off + 2);
            lemma_u16_bytes_of(b@, off + 4);
            lemma_u16_bytes_of(b@, off + 6);
            lemma_u16_bytes_of(b@, off + 10);
            crate::layout::lemma_u32_le_bytes(b@, off + 12);
            crate::layout::lemma_u32_le_bytes(b@, off + 16);
            assert(ip_bytes(r) =~= b@.subrange(off as int, off + 20));
        }
        r
    }

    /// Appends the bytes of the header to `v`.
    pub fn push_to(&self, v: &mut Vec<u8>)
        ensures
            final(v)@ == old(v)@ + ip_bytes(*self),
    {
        v.push(self.vhl);
        v.push(self.tos);
        push_u16(v, self.len);
        push_u16(v, self.id);
        push_u16(v, self.off);
        v.push(self.ttl);
        v.push(self.pro);
        push_u16(v, self.sum);
        push_u32(v, self.src);
        push_u32(v, self.dst);
        assert(final(v)@ =~= old(v)@ + ip_bytes(*self));
    }
}

/// The kind of an ARP message this host sends.
#[derive(Clone, Copy)]
pub enum ArpType {
    Reply,
}

/// An ARP header, each field as it lies in memory.
#[derive(Clone, Copy, Default)]
pub struct ARPHeader {
    pub httype: u16,
    pub pttype: u16,
    pub hlen: u8,
    pub plen: u8,
    pub op: u16,
    pub sha: [u8; 6],
    pub spa: u32,
    pub tha: [u8; 6],
    pub tpa: u32,
}

/// The bytes of an ARP header.
pub open spec fn arp_bytes(h: ARPHeader) -> Seq<u8> {
    u16_bytes(h.httype) + u16_bytes(h.pttype) + seq![h.hlen, h.plen] + u16_bytes(h.op) + h.sha@
        + u32_bytes(h.spa) + h.tha@ + u32_bytes(h.tpa)
}

impl ARPHeader {
    /// Sets the operation: 2 in network order for a reply.
    pub fn set_type(&mut self, type_: ArpType)
        ensures
            final(self).op == swap16(2),
            final(self).httype == old(self).httype,
            final(self).pttype == old(self).pttype,
            final(self).hlen == old(self).hlen,
            final(self).plen == old(self).plen,
            final(self).sha == old(self).sha,
            final(self).spa == old(self).spa,
            final(self).tha == old(self).tha,
            final(self).tpa == old(self).tpa,
    {
        let op: u16 = match type_ {
            ArpType::Reply => 2,
        };
        self.op = be16(op);
    }

    /// The header stored at `off` in `b`.
    pub fn from_bytes(b: &[u8], off: usize) -> (r: Self)
        requires
            off + 28 <= b@.len(),
        ensures
            arp_bytes(r) == b@.subrange(off as int, off + 28),
    {
        let _n = b.len();
        let r = ARPHeader {
            httype: read_u16(b, off),
            pttype: read_u16(b, off + 2),
            hlen: b[off + 4],
            plen: b[off + 5],
            op: read_u16(b, off + 6),
            sha: read_mac(b, off + 8),
            spa: read_u32(b, off + 14),
            tha: read_mac(b, off + 18),
            tpa: read_u32(b, off + 24),
        };
        proof {
            lemma_u16_bytes_of(b@, off as int);
            lemma_u16_bytes_of(b@, off + 2);
            lemma_u16_bytes_of(b@, off + 6);
            crate::layout::lemma_u32_le_bytes(b@, off + 14);
            crate::layout::lemma_u32_le_bytes(b@, off + 24);
            assert(arp_bytes(r) =~= b@.subrange(off as int, off + 28));
        }
        r
    }

    /// Appends the bytes of the header to `v`.
    pub fn push_to(&self, v: &mut Vec<u8>)
        ensures
            final(v)@ == old(v)@ + arp_bytes(*self),
    {
        push_u16(v, self.httype);
        push_u16(v, self.pttype);
        v.push(self.hlen);
        v.push(self.plen);
        push_u16(v, self.op);
        push_mac(v, &self.sha);
        push_u32(v, self.spa);
        push_mac(v, &self.tha);
        push_u32(v, self.tpa);
        assert(final(v)@ =~= old(v)@ + arp_bytes(*self));
    }
}

/// The six bytes at `off` in `b`.
fn read_mac(b: &[u8], off: usize) -> (r: [u8; 6])
    requires
        off + 6 <= b@.len(),
    ensures
        r@ == b@.subrange(off as int, off + 6),
{
    let _n = b.len();
    let r = [b[off], b[off + 1], b[off + 2], b[off + 3], b[off + 4], b[off + 5]];
    assert(r@ =~= b@.subrange(off as int, off + 6));
    r
}

/// Appends the six bytes of `m` to `v`.
fn push_mac(v: &mut Vec<u8>, m: &[u8; 6])
    ensures
        final(v)@ == old(v)@ + m@,
{
    let mut i: usize = 0;
    while i < 6
        invariant
            i <= 6,
            v@ == old(v)@ + m@.take(i as int),
        decreases 6 - i,
    {
        v.push(m[i]);
        i += 1;
        assert(v@ =~= old(v)@ + m@.take(i as int));
    }
    assert(m@.take(6) =~= m@);
}

/// The two bytes of a `u16` read at `off` are the bytes at `off`.
pub proof fn lemma_u16_bytes_of(s: Seq<u8>, off: int)
    requires
        0 <= off,
        off + 2 <= s.len(),
    ensures
        u16_bytes(le_u16(s, off) as u16) == s.subrange(off, off + 2),
{
    assert(u16_bytes(le_u16(s, off) as u16) =~= s.subrange(off, off + 2));
}

/// The TCP flag bits.
pub const TCP_FLAG_NONE: u8 = 0;
pub const TCP_FLAG_F: u8 = 0b00000001;
pub const TCP_FLAG_S: u8 = 0b00000010;
pub const TCP_FLAG_R: u8 = 0b00000100;
pub const TCP_FLAG_P: u8 = 0b00001000;
pub const TCP_FLAG_A: u8 = 0b00010000;
pub const TCP_FLAG_U: u8 = 0b00100000;

/// A set of TCP flags, one bit each.
#[derive(Clone, Copy, Default)]
pub struct TcpFlags {
    pub bits: u8,
}

impl TcpFlags {
    /// The flags whose bits are set in `bits`.
    pub fn from_bits(bits: u8) -> (r: Self)
        ensures
            r.bits == bits,
    {
        TcpFlags { bits }
    }

    /// The bits of the flags.
    pub fn bits(&self) -> (r: u8)
        ensures
            r == self.bits,
    {
        self.bits
    }

    /// Whether every flag of `other` is set.
    pub fn contains(&self, other: TcpFlags) -> (r: bool)
        ensures
            r == (self.bits & other.bits == other.bits),
    {
        self.bits & other.bits == other.bits
    }

    /// The flags set in either.
    pub fn union(self, other: TcpFlags) -> (r: TcpFlags)
        ensures
            r.bits == self.bits | other.bits,
    {
        TcpFlags { bits: self.bits | other.bits }
    }
}

/// A TCP header, each field as it lies in memory.
#[derive(Clone, Copy, Default)]
pub struct TCPHeader {
    pub sport: u16,
    pub dport: u16,
    pub seq: u32,
    pub ack: u32,
    pub offset: u8,
    pub flags: TcpFlags,
    pub win: u16,
    pub sum: u16,
    pub urg: u16,
}

/// The bytes of a TCP header.
pub open spec fn tcp_bytes(h: TCPHeader) -> Seq<u8> {
    u16_bytes(h.sport) + u16_bytes(h.dport) + u32_bytes(h.seq) + u32_bytes(h.ack) + seq![h.offset, h.flags.bits]
        + u16_bytes(h.win) + u16_bytes(h.sum) + u16_bytes(h.urg)
}

/// The header that acknowledges `h`.
pub open spec fn ack_header(h: TCPHeader) -> TCPHeader {
    TCPHeader {
        sport: h.sport,
        dport: h.dport,
        seq: 0,
        ack: swap32((swap32(h.seq) + 1) as u32),
        offset: h.offset,
        flags: TcpFlags { bits: TCP_FLAG_S | TCP_FLAG_A },
        win: h.win,
        urg: h.urg,
        sum: 0,
    }
}

impl TCPHeader {
    /// The header that acknowledges this one: same ports, window and urgent pointer, sequence
    /// number zero, acknowledgement number one past this sequence number, flags SYN and ACK,
    /// checksum zero.
    pub fn ack(&self) -> (r: Self)
        requires
            swap32(self.seq) < u32::MAX,
        ensures
            r == ack_header(*self),
            r.sport == self.sport,
            r.dport == self.dport,
            r.offset == self.offset,
            r.win == self.win,
            r.urg == self.urg,
            r.seq == 0,
            r.flags.bits == 0x12,
            be_u32(u32_bytes(r.ack), 0) == be_u32(u32_bytes(self.seq), 0) + 1,
    {
        proof {
            crate::net_laws::lemma_ack_header(*self);
        }
        Self {
            sport: self.sport,
            dport: self.dport,
            seq: 0,
            ack: be32(be32(self.seq) + 1),
            offset: self.offset,
            flags: TcpFlags::from_bits(TCP_FLAG_S).union(TcpFlags::from_bits(TCP_FLAG_A)),
            win: self.win,
            urg: self.urg,
            sum: 0,
        }
    }

    /// The header stored at `off` in `b`.
    pub fn from_bytes(b: &[u8], off: usize) -> (r: Self)
        requires
            off + 20 <= b@.len(),
        ensures
            tcp_bytes(r) == b@.subrange(off as int, off + 20),
    {
        let _n = b.len();
        let r = TCPHeader {
            sport: read_u16(b, off),
            dport: read_u16(b, off + 2),
            seq: read_u32(b, off + 4),
            ack: read_u32(b, off + 8),
            offset: b[off + 12],
            flags: TcpFlags::from_bits(b[off + 13]),
            win: read_u16(b, off + 14),
            sum: read_u16(b, off + 16),
            urg: read_u16(b, off + 18),
        };
        proof {
            lemma_u16_bytes_of(b@, off as int);
            lemma_u16_bytes_of(b@, off + 2);
            crate::layout::lemma_u32_le_bytes(b@, off + 4);
            crate::layout::lemma_u32_le_bytes(b@, off + 8);
            lemma_u16_bytes_of(b@, off + 14);
            lemma_u16_bytes_of(b@, off + 16);
            lemma_u16_bytes_of(b@, off + 18);
            assert(tcp_bytes(r) =~= b@.subrange(off as int, off + 20));
        }
        r
    }

    /// Appends the bytes of the header to `v`.
    pub fn push_to(&self, v: &mut Vec<u8>)
        ensures
            final(v)@ == old(v)@ + tcp_bytes(*self),
    {
        push_u16(v, self.sport);
        push_u16(v, self.dport);
        push_u32(v, self.seq);
        push_u32(v, self.ack);
        v.push(self.offset);
        v.push(self.flags.bits);
        push_u16(v, self.win);
        push_u16(v, self.sum);
        push_u16(v, self.urg);
        assert(final(v)@ =~= old(v)@ + tcp_bytes(*self));
    }
}

/// A UDP header, each field as it lies in memory.
#[derive(Clone, Copy, Default)]
pub struct UDPHeader {
    pub sport: u16,
    pub dport: u16,
    pub ulen: u16,
    pub sum: u16,
}

/// The bytes of a UDP header.
pub open spec fn udp_bytes(h: UDPHeader) -> Seq<u8> {
    u16_bytes(h.sport) + u16_bytes(h.dport) + u16_bytes(h.ulen) + u16_bytes(h.sum)
}

impl UDPHeader {
    /// The header stored at `off` in `b`.
    pub fn from_bytes(b: &[u8], off: usize) -> (r: Self)
        requires
            off + 8 <= b@.len(),
        ensures
            udp_bytes(r) == b@.subrange(off as int, off + 8),
    {
        let _n = b.len();
        let r = UDPHeader {
            sport: read_u16(b, off),
            dport: read_u16(b, off + 2),
            ulen: read_u16(b, off + 4),
            sum: read_u16(b, off + 6),
        };
        proof {
            lemma_u16_bytes_of(b@, off as int);
            lemma_u16_bytes_of(b@, off + 2);
            lemma_u16_bytes_of(b@, off + 4);
            lemma_u16_bytes_of(b@, off + 6);
            assert(udp_bytes(r) =~= b@.subrange(off as int, off + 8));
        }
        r
    }

    /// Appends the bytes of the header to `v`.
    pub fn push_to(&self, v: &mut Vec<u8>)
        ensures
            final(v)@ == old(v)@ + udp_bytes(*self),
    {
        push_u16(v, self.sport);
        push_u16(v, self.dport);
        push_u16(v, self.ulen);
        push_u16(v, self.sum);
        assert(final(v)@ =~= old(v)@ + udp_bytes(*self));
    }
}

/// The sum of the 16-bit little-endian words of bytes `k` to `len` of `b`, a last odd byte
/// counting alone.
pub open spec fn word_sum(b: Seq<u8>, k: int, len: int) -> int
    decreases len - k,
{
    if len - k >= 2 {
        le_u16(b, k) + word_sum(b, k + 2, len)
    } else if len - k == 1 {
        b[k] as int
    } else {
        0
    }
}

/// A sum of words is never negative.
pub proof fn lemma_word_sum_nonneg(b: Seq<u8>, k: int, len: int)
    ensures
        word_sum(b, k, len) >= 0,
    decreases len - k,
{
    if len - k >= 2 {
        lemma_word_sum_nonneg(b, k + 2, len);
    }
}

/// `s` with its carries folded back into the low 16 bits until none is left.
pub open spec fn fold16(s: int) -> int
    decreases s,
{
    if s < 65536 {
        s
    } else {
        fold16(s % 65536 + s / 65536)
    }
}

/// The Internet checksum of the first `len` bytes of `b`, starting from the partial sum `sum`.
pub open spec fn checksum_of(b: Seq<u8>, len: int, sum: int) -> u16 {
    (65535 - fold16(sum + word_sum(b, 0, len))) as u16
}

/// The Internet checksum of the first `len` bytes of `data`, starting from the partial sum
/// `sum`: the ones' complement of the folded sum of the 16-bit words.
pub fn check_sum(data: &[u8], len: usize, sum: u32) -> (r: u16)
    requires
        len <= data@.len(),
        sum + word_sum(data@, 0, len as int) <= u32::MAX,
    ensures
        r == checksum_of(data@, len as int, sum as int),
{
    let mut sum = sum;
    let mut k: usize = 0;
    let ghost total = sum + word_sum(data@, 0, len as int);
    while len - k > 1
        invariant
            k <= len,
            len <= data@.len(),
            total <= u32::MAX,
            sum + word_sum(data@, k as int, len as int) == total,
        decreases len - k,
    {
        proof {
            lemma_word_sum_nonneg(data@, k + 2, len as int);
        }
        sum += read_u16(data, k) as u32;
        k += 2;
    }
    if len - k == 1 {
        sum += data[k] as u32;
    }
    assert(sum == total);
    while (sum >> 16u32) != 0
        invariant
            fold16(sum as int) == fold16(total),
        decreases sum,
    {
        let lo = sum & 0xffff;
        let hi = sum >> 16u32;
        assert(lo == sum % 65536 && hi == sum / 65536 && hi != 0 ==> sum >= 65536) by (bit_vector);
        assert(lo == sum % 65536 && hi == sum / 65536) by (bit_vector)
            requires
                lo == sum & 0xffff,
                hi == sum >> 16u32,
        ;
        sum = lo + hi;
    }
    assert(sum < 65536) by (bit_vector)
        requires
            (sum >> 16u32) == 0,
    ;
    let r = !sum as u16;
    assert(r == (65535 - sum) as u16) by (bit_vector)
        requires
            r == !sum as u16,
            sum < 65536,
    ;
    r
}

/// Appends the bytes of `s` to `v`.
pub fn push_bytes(v: &mut Vec<u8>, s: &[u8])
    ensures
        final(v)@ == old(v)@ + s@,
{
    let mut i: usize = 0;
    while i < s.len()
        invariant
            i <= s@.len(),
            v@ == old(v)@ + s@.take(i as int),
        decreases s@.len() - i,
    {
        v.push(s[i]);
        i += 1;
        assert(v@ =~= old(v)@ + s@.take(i as int));
    }
    assert(s@.take(s@.len() as int) =~= s@);
}

/// An ARP frame.
#[derive(Clone, Copy)]
pub struct ARPPacket {
    pub eth: EthernetHeader,
    pub arp: ARPHeader,
}

/// The headers of a UDP frame.
#[derive(Clone, Copy, Default)]
pub struct UDPPacketHeader {
    pub eth: EthernetHeader,
    pub ip: IPHeader,
    pub udp: UDPHeader,
}

/// A UDP frame: its headers and its payload.
pub struct UDPPacket {
    pub header: UDPPacketHeader,
    pub data: Vec<u8>,
}

/// The headers of a TCP frame.
#[derive(Clone, Copy, Default)]
pub struct TCPPacketHeader {
    pub eth: EthernetHeader,
    pub ip: IPHeader,
    pub tcp: TCPHeader,
}

/// A TCP frame: its headers and its payload.
pub struct TCPPacket {
    pub header: TCPPacketHeader,
    pub data: Vec<u8>,
}

/// A header with every field zero.
pub open spec fn zero_tcp_header() -> TCPPacketHeader {
    TCPPacketHeader {
        eth: EthernetHeader { dhost: [0u8, 0, 0, 0, 0, 0], shost: [0u8, 0, 0, 0, 0, 0], rtype: 0 },
        ip: IPHeader { vhl: 0, tos: 0, len: 0, id: 0, off: 0, ttl: 0, pro: 0, sum: 0, src: 0, dst: 0 },
        tcp: TCPHeader { sport: 0, dport: 0, seq: 0, ack: 0, offset: 0, flags: TcpFlags { bits: 0 }, win: 0, sum: 0, urg: 0 },
    }
}

impl TCPPacket {
    /// A frame with zero headers and no payload.
    pub fn empty() -> (r: Self)
        ensures
            r.header == zero_tcp_header(),
            r.data@ == Seq::<u8>::empty(),
    {
        TCPPacket {
            header: TCPPacketHeader {
                eth: EthernetHeader { dhost: [0u8, 0, 0, 0, 0, 0], shost: [0u8, 0, 0, 0, 0, 0], rtype: 0 },
                ip: IPHeader { vhl: 0, tos: 0, len: 0, id: 0, off: 0, ttl: 0, pro: 0, sum: 0, src: 0, dst: 0 },
                tcp: TCPHeader { sport: 0, dport: 0, seq: 0, ack: 0, offset: 0, flags: TcpFlags { bits: 0 }, win: 0, sum: 0, urg: 0 },
            },
            data: Vec::new(),
        }
    }

    /// A copy of the frame.
    pub fn duplicate(&self) -> (r: Self)
        ensures
            r.header == self.header,
            r.data@ == self.data@,
    {
        let mut data = Vec::new();
        push_bytes(&mut data, self.data.as_slice());
        TCPPacket { header: self.header, data }
    }
}

impl UDPPacket {
    /// A frame with zero headers and no payload.
    pub fn empty() -> (r: Self)
        ensures
            r.header.eth == (EthernetHeader { dhost: [0u8, 0, 0, 0, 0, 0], shost: [0u8, 0, 0, 0, 0, 0], rtype: 0 }),
            r.header.ip == (IPHeader { vhl: 0, tos: 0, len: 0, id: 0, off: 0, ttl: 0, pro: 0, sum: 0, src: 0, dst: 0 }),
            r.header.udp == (UDPHeader { sport: 0, dport: 0, ulen: 0, sum: 0 }),
            r.data@ == Seq::<u8>::empty(),
    {
        UDPPacket {
            header: UDPPacketHeader {
                eth: EthernetHeader { dhost: [0u8, 0, 0, 0, 0, 0], shost: [0u8, 0, 0, 0, 0, 0], rtype: 0 },
                ip: IPHeader { vhl: 0, tos: 0, len: 0, id: 0, off: 0, ttl: 0, pro: 0, sum: 0, src: 0, dst: 0 },
                udp: UDPHeader { sport: 0, dport: 0, ulen: 0, sum: 0 },
            },
            data: Vec::new(),
        }
    }

    /// A copy of the frame.
    pub fn duplicate(&self) -> (r: Self)
        ensures
            r.header == self.header,
            r.data@ == self.data@,
    {
        let mut data = Vec::new();
        push_bytes(&mut data, self.data.as_slice());
        UDPPacket { header: self.header, data }
    }
}

/// Size of the headers of an ARP frame.
pub const ARP_FRAME_LEN: usize = 42;
/// Size of the headers of a UDP frame.
pub const UDP_HEADERS_LEN: usize = 42;
/// Size of the headers of a TCP frame.
pub const TCP_HEADERS_LEN: usize = 54;

/// The frame type stored in a received frame.
pub open spec fn frame_type(buf: Seq<u8>) -> u16 {
    le_u16(buf, 12) as u16
}

/// The ARP frame at the start of the receive buffer `buf`, if the frame is one.
pub fn recv_arp(buf: &[u8]) -> (r: Option<ARPPacket>)
    requires
        buf@.len() >= ARP_FRAME_LEN,
        eth_type_of(frame_type(buf@)) is Some,
    ensures
        r is Some <==> eth_type_of(frame_type(buf@)) == Some(EthType::ARP),
        r matches Some(p) ==> eth_bytes(p.eth) + arp_bytes(p.arp) == buf@.take(42),
{
    let eth = EthernetHeader::from_bytes(buf, 0);
    let arp = ARPHeader::from_bytes(buf, 14);
    proof {
        crate::codec::lemma_u16_roundtrip(eth.rtype);
        assert(eth.rtype == frame_type(buf@)) by {
            assert(eth_bytes(eth).subrange(12, 14) =~= u16_bytes(eth.rtype));
            assert(buf@.subrange(0, 14)[12] == buf@[12]);
            assert(buf@.subrange(0, 14)[13] == buf@[13]);
        }
        assert(eth_bytes(eth) + arp_bytes(arp) =~= buf@.take(42));
    }
    if eth.type_() == EthType::ARP {
        Some(ARPPacket { eth, arp })
    } else {
        None
    }
}

/// The ARP reply to `arp`: this host answers with its own addresses, to the sender.
pub open spec fn arp_reply_spec(p: ARPPacket) -> ARPPacket {
    ARPPacket {
        eth: EthernetHeader { dhost: p.eth.shost, shost: [1u8, 2, 3, 4, 5, 6], rtype: p.eth.rtype },
        arp: ARPHeader {
            httype: p.arp.httype,
            pttype: p.arp.pttype,
            hlen: p.arp.hlen,
            plen: p.arp.plen,
            op: swap16(2),
            sha: [1u8, 2, 3, 4, 5, 6],
            spa: swap32(0x0a00020f),
            tha: p.arp.sha,
            tpa: p.arp.spa,
        },
    }
}

/// The bytes to send in answer to the ARP frame `arp`.
pub fn send_arp(arp: &ARPPacket) -> (r: Vec<u8>)
    ensures
        r@ == eth_bytes(arp_reply_spec(*arp).eth) + arp_bytes(arp_reply_spec(*arp).arp),
        answers_arp(*arp, r@),
{
    let mut re_arp = *arp;
    let ip = localhost_ip();
    let mac = localhost_mac();
    re_arp.arp.spa = be32(ip.to_u32());
    re_arp.arp.sha = mac.to_bytes();
    re_arp.arp.tpa = arp.arp.spa;
    re_arp.arp.tha = arp.arp.sha;
    re_arp.arp.set_type(ArpType::Reply);
    re_arp.eth.dhost = arp.eth.shost;
    re_arp.eth.shost = mac.to_bytes();
    assert(mac.0 == [1u8, 2, 3, 4, 5, 6]) by {
        assert(mac.0@ =~= [1u8, 2, 3, 4, 5, 6]@);
    }
    let mut v = Vec::new();
    re_arp.eth.push_to(&mut v);
    re_arp.arp.push_to(&mut v);
    assert(answers_arp(*arp, v@)) by {
        crate::net_laws::lemma_arp_reply(*arp);
    }
    v
}

/// Answers an ARP frame, where one came: the bytes to send.
pub fn net_arp(received: Option<ARPPacket>) -> (r: Option<Vec<u8>>)
    ensures
        match received {
            Some(p) => r matches Some(b) && b@ == eth_bytes(arp_reply_spec(p).eth) + arp_bytes(arp_reply_spec(p).arp)
                && answers_arp(p, b@),
            None => r is None,
        },
{
    match received {
        Some(arp) => Some(send_arp(&arp)),
        None => None,
    }
}

/// A `u16` whose bytes lie at `off` in `s` is the value read there.
pub proof fn lemma_u16_field(x: u16, s: Seq<u8>, off: int)
    requires
        0 <= off,
        off + 2 <= s.len(),
        u16_bytes(x) == s.subrange(off, off + 2),
    ensures
        x == le_u16(s, off),
{
    crate::codec::lemma_u16_roundtrip(x);
    assert(u16_bytes(x)[0] == s[off]);
    assert(u16_bytes(x)[1] == s[off + 1]);
}

/// The sum of the words of `len - k` bytes is at most 65535 per byte.
pub proof fn lemma_word_sum_bound(b: Seq<u8>, k: int, len: int)
    requires
        0 <= k,
        len <= b.len(),
    ensures
        word_sum(b, k, len) <= 65535 * (if len > k { len - k } else { 0 }),
    decreases len - k,
{
    if len - k >= 2 {
        lemma_word_sum_bound(b, k + 2, len);
    }
}

/// The IP protocol number stored in a received frame.
pub open spec fn frame_protocol(buf: Seq<u8>) -> u8 {
    buf[23]
}

/// The destination port, as stored, of the transport header of a received frame.
pub open spec fn frame_dport(buf: Seq<u8>) -> u16 {
    le_u16(buf, 36) as u16
}

/// Whether a received frame can be read: its frame type is known, and so is the protocol of
/// an IP frame.
pub open spec fn frame_readable(buf: Seq<u8>) -> bool {
    &&& eth_type_of(frame_type(buf)) is Some
    &&& eth_type_of(frame_type(buf)) == Some(EthType::IP) ==> protocol_of(frame_protocol(buf)) is Some
}

/// The headers at the start of a received frame.
fn read_headers(buf: &[u8]) -> (r: (EthernetHeader, IPHeader))
    requires
        buf@.len() >= 34,
    ensures
        eth_bytes(r.0) == buf@.subrange(0, 14),
        ip_bytes(r.1) == buf@.subrange(14, 34),
        r.0.rtype == frame_type(buf@),
        r.1.pro == frame_protocol(buf@),
{
    let eth = EthernetHeader::from_bytes(buf, 0);
    let ip = IPHeader::from_bytes(buf, 14);
    proof {
        assert(eth_bytes(eth).subrange(12, 14) =~= u16_bytes(eth.rtype));
        assert(buf@.subrange(12, 14) =~= buf@.subrange(0, 14).subrange(12, 14));
        lemma_u16_field(eth.rtype, buf@, 12);
        assert(ip_bytes(ip)[9] == ip.pro);
    }
    (eth, ip)
}

/// The TCP frame addressed to `port` held by the first `len` bytes of the receive buffer
/// `buf`, if the frame is one.
pub fn recv_tcp(buf: &[u8], len: usize, port: u16) -> (r: Option<TCPPacket>)
    requires
        TCP_HEADERS_LEN <= len <= buf@.len(),
        frame_readable(buf@),
    ensures
        r is Some <==> eth_type_of(frame_type(buf@)) == Some(EthType::IP) && frame_protocol(buf@) == 6
            && swap16(frame_dport(buf@)) == port,
        r matches Some(p) ==> {
            &&& eth_bytes(p.header.eth) + ip_bytes(p.header.ip) + tcp_bytes(p.header.tcp) == buf@.take(54)
            &&& p.data@ == buf@.subrange(54, len as int)
        },
{
    let (eth, ip) = read_headers(buf);
    let tcp = TCPHeader::from_bytes(buf, 34);
    proof {
        assert(tcp_bytes(tcp).subrange(2, 4) =~= u16_bytes(tcp.dport));
        assert(buf@.subrange(36, 38) =~= buf@.subrange(34, 54).subrange(2, 4));
        lemma_u16_field(tcp.dport, buf@, 36);
        assert(eth_bytes(eth) + ip_bytes(ip) + tcp_bytes(tcp) =~= buf@.take(54));
    }
    if eth.type_() == EthType::IP && ip.protocol() == IPProtocal::TCP && be16(tcp.dport) == port {
        let mut data = Vec::new();
        push_bytes(&mut data, slice_range(buf, TCP_HEADERS_LEN, len));
        Some(TCPPacket { header: TCPPacketHeader { eth, ip, tcp }, data })
    } else {
        None
    }
}

/// The UDP frame addressed to `port` held by the first `len` bytes of the receive buffer
/// `buf`, if the frame is one.
pub fn recv_udp(buf: &[u8], len: usize, port: u16) -> (r: Option<UDPPacket>)
    requires
        UDP_HEADERS_LEN <= len <= buf@.len(),
        frame_readable(buf@),
    ensures
        r is Some <==> eth_type_of(frame_type(buf@)) == Some(EthType::IP) && frame_protocol(buf@) == 17
            && swap16(frame_dport(buf@)) == port,
        r matches Some(p) ==> {
            &&& eth_bytes(p.header.eth) + ip_bytes(p.header.ip) + udp_bytes(p.header.udp) == buf@.take(42)
            &&& p.data@ == buf@.subrange(42, len as int)
        },
{
    let (eth, ip) = read_headers(buf);
    let udp = UDPHeader::from_bytes(buf, 34);
    proof {
        assert(udp_bytes(udp).subrange(2, 4) =~= u16_bytes(udp.dport));
        assert(buf@.subrange(36, 38) =~= buf@.subrange(34, 42).subrange(2, 4));
        lemma_u16_field(udp.dport, buf@, 36);
        assert(eth_bytes(eth) + ip_bytes(ip) + udp_bytes(udp) =~= buf@.take(42));
    }
    if eth.type_() == EthType::IP && ip.protocol() == IPProtocal::UDP && be16(udp.dport) == port {
        let mut data = Vec::new();
        push_bytes(&mut data, slice_range(buf, UDP_HEADERS_LEN, len));
        Some(UDPPacket { header: UDPPacketHeader { eth, ip, udp }, data })
    } else {
        None
    }
}

/// Bytes `from` to `to` (excluded) of `s`.
fn slice_range(s: &[u8], from: usize, to: usize) -> (r: &[u8])
    requires
        from <= to <= s@.len(),
    ensures
        r@ == s@.subrange(from as int, to as int),
{
    crate::inode::slice_range(s, from, to)
}

/// The IP header of a reply to `ip` carrying `total` bytes of IP payload and headers: the
/// addresses swapped, the length set, and the checksum computed over the header.
pub open spec fn reply_ip_header(ip: IPHeader, total: int) -> IPHeader {
    let h = IPHeader { src: ip.dst, dst: ip.src, len: swap16(total as u16), sum: 0, ..ip };
    IPHeader { sum: checksum_of(ip_bytes(h), 20, 0), ..h }
}

/// The Ethernet header of a reply: the hosts swapped.
pub open spec fn reply_eth_header(eth: EthernetHeader) -> EthernetHeader {
    EthernetHeader { dhost: eth.shost, shost: eth.dhost, rtype: eth.rtype }
}

/// The partial checksum of the pseudo header of a TCP segment of `len` bytes.
pub open spec fn tcp_pseudo_sum(ip: IPHeader, len: int) -> int {
    ip.dst + ip.src + swap16(ip.pro as u16) + swap16(len as u16)
}

/// The TCP header of a reply to `h` carrying `data`: the ports swapped, a header of five words,
/// and the checksum computed over the pseudo header, the header and the data.
pub open spec fn reply_tcp_header(h: TCPPacketHeader, data: Seq<u8>) -> TCPHeader {
    let t = TCPHeader { sport: h.tcp.dport, dport: h.tcp.sport, offset: 0x50, sum: 0, ..h.tcp };
    TCPHeader { sum: checksum_of(tcp_bytes(t) + data, (data.len() + 20) as int, tcp_pseudo_sum(h.ip, (data.len() + 20) as int)), ..t }
}

/// The bytes sent for the TCP frame `h` with `data`: a reply to its sender.
pub open spec fn tcp_reply_bytes(h: TCPPacketHeader, data: Seq<u8>) -> Seq<u8> {
    eth_bytes(reply_eth_header(h.eth)) + ip_bytes(reply_ip_header(h.ip, (data.len() + 40) as int))
        + tcp_bytes(reply_tcp_header(h, data)) + data
}

/// Computes the IP header of a reply.
fn reply_ip(ip: &IPHeader, total: usize) -> (r: IPHeader)
    ensures
        r == reply_ip_header(*ip, total as int),
{
    let mut h = *ip;
    h.src = ip.dst;
    h.dst = ip.src;
    h.len = be16(total as u16);
    h.sum = 0;
    let mut bytes = Vec::new();
    h.push_to(&mut bytes);
    proof {
        lemma_word_sum_bound(bytes@, 0, 20);
    }
    h.sum = check_sum(bytes.as_slice(), 20, 0);
    h
}

/// The bytes to send for the TCP frame `tcp`: a reply to its sender carrying its data.
#[verifier::spinoff_prover]
pub fn send_tcp(tcp: &TCPPacket) -> (r: Vec<u8>)
    requires
        tcp.data@.len() + 40 <= usize::MAX,
        tcp_pseudo_sum(tcp.header.ip, (tcp.data@.len() + 20) as int) + 65535 * (tcp.data@.len() + 20) <= u32::MAX,
    ensures
        r@ == tcp_reply_bytes(tcp.header, tcp.data@),
        answers_tcp(tcp.header, tcp.data@, r@),
{
    let h = tcp.header;
    let mut t = h.tcp;
    t.sport = h.tcp.dport;
    t.dport = h.tcp.sport;
    t.offset = 5 << 4u8;
    assert(5u8 << 4u8 == 0x50u8) by (bit_vector);
    t.sum = 0;
    let dlen = tcp.data.len();
    let mut sum = h.ip.dst;
    sum += h.ip.src;
    sum += be16(h.ip.pro as u16) as u32;
    sum += be16((dlen + 20) as u16) as u32;
    let mut seg = Vec::new();
    t.push_to(&mut seg);
    push_bytes(&mut seg, tcp.data.as_slice());
    proof {
        lemma_word_sum_bound(seg@, 0, dlen + 20);
    }
    t.sum = check_sum(seg.as_slice(), dlen + 20, sum);
    assert(t == reply_tcp_header(h, tcp.data@));
    let ip = reply_ip(&h.ip, dlen + 40);
    let eth = EthernetHeader { dhost: h.eth.shost, shost: h.eth.dhost, rtype: h.eth.rtype };
    let mut v = Vec::new();
    eth.push_to(&mut v);
    ip.push_to(&mut v);
    t.push_to(&mut v);
    push_bytes(&mut v, tcp.data.as_slice());
    assert(answers_tcp(tcp.header, tcp.data@, v@)) by {
        crate::net_laws::lemma_tcp_reply(tcp.header, tcp.data@);
    }
    v
}

/// The bytes sent for the UDP frame `h` with `data`: a reply to its sender.
pub open spec fn udp_reply_bytes(h: UDPPacketHeader, data: Seq<u8>) -> Seq<u8> {
    let u = UDPHeader { sport: h.udp.dport, dport: h.udp.sport, sum: 0, ulen: swap16((data.len() + 8) as u16) };
    eth_bytes(reply_eth_header(h.eth)) + ip_bytes(reply_ip_header(h.ip, (data.len() + 28) as int)) + udp_bytes(u) + data
}

/// The bytes to send for the UDP frame `udp`: a reply to its sender carrying its data.
#[verifier::spinoff_prover]
pub fn send_udp(udp: &UDPPacket) -> (r: Vec<u8>)
    requires
        udp.data@.len() + 28 <= usize::MAX,
    ensures
        r@ == udp_reply_bytes(udp.header, udp.data@),
        answers_udp(udp.header, udp.data@, r@),
{
    let h = udp.header;
    let dlen = udp.data.len();
    let u = UDPHeader { sport: h.udp.dport, dport: h.udp.sport, sum: 0, ulen: be16((dlen + 8) as u16) };
    let ip = reply_ip(&h.ip, dlen + 28);
    let eth = EthernetHeader { dhost: h.eth.shost, shost: h.eth.dhost, rtype: h.eth.rtype };
    let mut v = Vec::new();
    eth.push_to(&mut v);
    ip.push_to(&mut v);
    u.push_to(&mut v);
    push_bytes(&mut v, udp.data.as_slice());
    assert(answers_udp(udp.header, udp.data@, v@)) by {
        crate::net_laws::lemma_udp_reply(udp.header, udp.data@);
    }
    v
}

/// Whether a TCP frame carries every flag of `bits`.
pub open spec fn has_flags(p: TCPHeader, bits: u8) -> bool {
    p.flags.bits & bits == bits
}

/// What can be sent in answer to a TCP frame `p` that asks for a connection: the headers of the
/// acknowledgement.
pub open spec fn accept_reply(h: TCPPacketHeader) -> TCPPacketHeader {
    TCPPacketHeader { tcp: ack_header(h.tcp), ..h }
}

/// Answers a TCP frame that asks for a connection (flag SYN): the bytes of the acknowledgement
/// to send, and the connection, whose port is the frame's destination port.
#[verifier::spinoff_prover]
pub fn net_accept(received: Option<TCPPacket>) -> (r: (Option<Vec<u8>>, Option<TCP>))
    requires
        match received {
            Some(p) => has_flags(p.header.tcp, TCP_FLAG_S) ==> {
                &&& swap32(p.header.tcp.seq) < u32::MAX
                &&& tcp_pseudo_sum(p.header.ip, 20) + 65535 * 20 <= u32::MAX
            },
            None => true,
        },
    ensures
        match received {
            Some(p) => if has_flags(p.header.tcp, TCP_FLAG_S) {
                &&& r.0 matches Some(b) && b@ == tcp_reply_bytes(accept_reply(p.header), Seq::empty())
                    && acknowledges_syn(p.header, b@)
                &&& r.1 matches Some(c) && c.source_port == swap16(p.header.tcp.dport) && c.packet_is_empty()
            } else {
                r.0 is None && r.1 is None
            },
            None => r.0 is None && r.1 is None,
        },
{
    match received {
        Some(tcp) => {
            if tcp.header.tcp.flags.contains(TcpFlags::from_bits(TCP_FLAG_S)) {
                let mut re_tcp = tcp.header;
                re_tcp.tcp = tcp.header.tcp.ack();
                let reply = TCPPacket { header: re_tcp, data: Vec::new() };
                let bytes = send_tcp(&reply);
                proof {
                    crate::net_laws::lemma_syn_ack(tcp.header);
                }
                (Some(bytes), Some(TCP::new(be16(tcp.header.tcp.dport))))
            } else {
                (None, None)
            }
        },
        None => (None, None),
    }
}

/// The TCP frame to hand to a reader: one that acknowledges (flag ACK) and carries data.
pub fn net_tcp_read(received: Option<TCPPacket>) -> (r: Option<TCPPacket>)
    ensures
        match received {
            Some(p) => if has_flags(p.header.tcp, TCP_FLAG_A) && p.data@.len() > 0 {
                r matches Some(q) && q.header == p.header && q.data@ == p.data@
            } else {
                r is None
            },
            None => r is None,
        },
{
    match received {
        Some(tcp) => {
            if tcp.header.tcp.flags.contains(TcpFlags::from_bits(TCP_FLAG_A)) {
                if tcp.data.len() == 0 {
                    return None;
                }
                Some(tcp)
            } else {
                None
            }
        },
        None => None,
    }
}

/// Offset of the payload within the data of a TCP frame: the header words beyond five.
pub open spec fn payload_offset(h: TCPHeader) -> int {
    (((h.offset >> 4u8) & 0xf) as int - 5) * 4
}

/// A TCP connection: its local port and the last frame received on it.
pub struct TCP {
    pub source_port: u16,
    pub tcp: TCPPacket,
}

impl TCP {
    /// The last frame received.
    pub open spec fn packet_header(&self) -> TCPPacketHeader {
        self.tcp.header
    }

    /// The data of the last frame received.
    pub open spec fn packet_data(&self) -> Seq<u8> {
        self.tcp.data@
    }

    /// No frame was received yet.
    pub open spec fn packet_is_empty(&self) -> bool {
        self.packet_header() == zero_tcp_header() && self.packet_data() == Seq::<u8>::empty()
    }

    /// A listening connection, on port zero.
    pub fn new_server() -> (r: Self)
        ensures
            r.source_port == 0,
            r.packet_is_empty(),
    {
        Self { source_port: 0, tcp: TCPPacket::empty() }
    }

    /// A connection on port `dest_port`.
    pub fn new(dest_port: u16) -> (r: Self)
        ensures
            r.source_port == dest_port,
            r.packet_is_empty(),
    {
        Self { source_port: dest_port, tcp: TCPPacket::empty() }
    }

    /// Takes in the frame `tcp` received on the connection and copies its payload into `buf`,
    /// as far as it fits; returns the number of bytes copied.
    pub fn read(&mut self, tcp: TCPPacket, buf: &mut [u8]) -> (r: usize)
        requires
            ((tcp.header.tcp.offset >> 4u8) & 0xf) >= 5,
            payload_offset(tcp.header.tcp) <= tcp.data@.len(),
        ensures
            final(self).source_port == old(self).source_port,
            final(self).packet_header() == tcp.header,
            final(self).packet_data() == tcp.data@,
            r == vstd::math::min(old(buf)@.len() as int, tcp.data@.len() - payload_offset(tcp.header.tcp)),
            final(buf)@.len() == old(buf)@.len(),
            forall|i: int| 0 <= i < r ==> #[trigger] final(buf)@[i] == tcp.data@[payload_offset(tcp.header.tcp) + i],
            forall|i: int| r <= i < old(buf)@.len() ==> #[trigger] final(buf)@[i] == old(buf)@[i],
            payload_offset(tcp.header.tcp) == 4 * (tcp.header.tcp.offset / 16) - 20,
    {
        proof {
            crate::net_laws::lemma_payload_offset(tcp.header.tcp);
        }
        let o = (tcp.header.tcp.offset >> 4u8) & 0xf;
        let offset = (o as usize - 5) * 4;
        self.tcp = tcp;
        let n = copy_payload(self.tcp.data.as_slice(), offset, buf);
        n
    }

    /// Sends `data` on the connection, answering the last frame received: returns the number of
    /// bytes sent and the frame to transmit.
    #[verifier::spinoff_prover]
    pub fn write(&mut self, data: &[u8]) -> (r: (usize, Vec<u8>))
        requires
            data@.len() + 40 <= usize::MAX,
            tcp_pseudo_sum(old(self).packet_header().ip, (data@.len() + 20) as int) + 65535 * (data@.len() + 20) <= u32::MAX,
        ensures
            r.0 == data@.len(),
            final(self).source_port == old(self).source_port,
            final(self).packet_header() == (TCPPacketHeader {
                tcp: TCPHeader {
                    ack: old(self).packet_header().tcp.seq,
                    seq: old(self).packet_header().tcp.ack,
                    flags: TcpFlags { bits: TCP_FLAG_A },
                    ..old(self).packet_header().tcp
                },
                ..old(self).packet_header()
            }),
            final(self).packet_data() == data@,
            r.1@ == tcp_reply_bytes(final(self).packet_header(), data@),
            answers_tcp(final(self).packet_header(), data@, r.1@),
    {
        let mut v = Vec::new();
        push_bytes(&mut v, data);
        let len = v.len();
        let seq = self.tcp.header.tcp.seq;
        let ack = self.tcp.header.tcp.ack;
        self.tcp.header.tcp.ack = seq;
        self.tcp.header.tcp.seq = ack;
        self.tcp.header.tcp.flags = TcpFlags::from_bits(TCP_FLAG_A);
        self.tcp.data = v;
        let bytes = send_tcp(&self.tcp);
        (len, bytes)
    }
}

/// Copies `data` from `offset` on into `buf`, as far as both go; returns the number of bytes
/// copied.
fn copy_payload(data: &[u8], offset: usize, buf: &mut [u8]) -> (r: usize)
    requires
        offset <= data@.len(),
    ensures
        r == vstd::math::min(old(buf)@.len() as int, data@.len() - offset),
        final(buf)@.len() == old(buf)@.len(),
        forall|i: int| 0 <= i < r ==> #[trigger] final(buf)@[i] == data@[offset + i],
        forall|i: int| r <= i < old(buf)@.len() ==> #[trigger] final(buf)@[i] == old(buf)@[i],
{
    let dl = data.len();
    let avail = dl - offset;
    let mut i: usize = 0;
    while i < buf.len()
        invariant
            i <= buf@.len(),
            i <= avail,
            avail == data@.len() - offset,
            dl == data@.len(),
            offset <= data@.len(),
            buf@.len() == old(buf)@.len(),
            forall|k: int| 0 <= k < i ==> #[trigger] buf@[k] == data@[offset + k],
            forall|k: int| i <= k < old(buf)@.len() ==> #[trigger] buf@[k] == old(buf)@[k],
        decreases buf@.len() - i,
    {
        if i >= avail {
            return i;
        }
        buf[i] = data[offset + i];
        i += 1;
    }
    buf.len()
}

/// A UDP endpoint: its local port and the last frame received on it.
pub struct UDP {
    pub source_port: u16,
    pub udp: UDPPacket,
}

impl UDP {
    /// The headers of the last frame received.
    pub open spec fn packet_header(&self) -> UDPPacketHeader {
        self.udp.header
    }

    /// The data of the last frame received.
    pub open spec fn packet_data(&self) -> Seq<u8> {
        self.udp.data@
    }

    /// An endpoint on port zero that received nothing yet.
    pub fn new() -> (r: Self)
        ensures
            r.source_port == 0,
            r.packet_data() == Seq::<u8>::empty(),
            r.packet_header().udp == (UDPHeader { sport: 0, dport: 0, ulen: 0, sum: 0 }),
    {
        Self { source_port: 0, udp: UDPPacket::empty() }
    }

    /// Takes in the frame `udp` received on the endpoint and copies its data into `buf`, as far
    /// as it fits; returns the number of bytes copied.
    pub fn read(&mut self, udp: UDPPacket, buf: &mut [u8]) -> (r: usize)
        ensures
            final(self).source_port == old(self).source_port,
            final(self).packet_header() == udp.header,
            final(self).packet_data() == udp.data@,
            r == vstd::math::min(old(buf)@.len() as int, udp.data@.len() as int),
            final(buf)@.len() == old(buf)@.len(),
            forall|i: int| 0 <= i < r ==> #[trigger] final(buf)@[i] == udp.data@[i],
            forall|i: int| r <= i < old(buf)@.len() ==> #[trigger] final(buf)@[i] == old(buf)@[i],
    {
        self.udp = udp;
        copy_payload(self.udp.data.as_slice(), 0, buf)
    }

    /// Sends `data` in answer to the last frame received: returns the number of bytes sent and
    /// the frame to transmit.
    pub fn write(&mut self, data: &[u8]) -> (r: (usize, Vec<u8>))
        requires
            data@.len() + 28 <= usize::MAX,
        ensures
            r.0 == data@.len(),
            final(self).source_port == old(self).source_port,
            final(self).packet_header() == old(self).packet_header(),
            final(self).packet_data() == data@,
            r.1@ == udp_reply_bytes(old(self).packet_header(), data@),
            answers_udp(old(self).packet_header(), data@, r.1@),
    {
        let mut v = Vec::new();
        push_bytes(&mut v, data);
        let len = v.len();
        self.udp.data = v;
        let bytes = send_udp(&self.udp);
        (len, bytes)
    }
}

} // verus!
