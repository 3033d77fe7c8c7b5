//! Connection identifiers: the 28-byte canonical form, its text form and the
//! 10-byte short form.

use vstd::prelude::*;
use vstd::string::*;
use crate::crockford::{crockford_decoded, crockford_digit, lemma_decode_refuses, crockford_text, lemma_text_order, text_lt};

verus! {

/// Relies on `base32::encode` with the Crockford alphabet: five bits per
/// character, most significant first, the last group zero-filled, no padding;
/// and on `base32::decode` giving the bytes back.
#[verifier::external_body]
fn crockford_encode(data: &[u8]) -> (r: String)
    ensures
        r@ == crockford_text(data@),
        crockford_decoded(r@) == Some(data@),
{
    base32::encode(base32::Alphabet::Crockford, data)
}

/// Relies on `base32::decode` with the Crockford alphabet: it refuses text that
/// is not ASCII or holds a character outside the alphabet (after ASCII
/// upper-casing, with I and L read as 1 and O as 0), and otherwise yields five
/// bits per character, truncated to whole bytes.
#[verifier::external_body]
fn crockford_decode(t: &str) -> (r: Option<Vec<u8>>)
    ensures
        r is Some <==> crockford_decoded(t@) is Some,
        r matches Some(v) ==> Some(v@) == crockford_decoded(t@) && is_ascii(t) && v@.len()
            == t.spec_bytes().len() * 5 / 8,
{
    base32::decode(base32::Alphabet::Crockford, t)
}

/// The tag values that the first six bytes carry in their two low bits.
#[non_exhaustive]
pub struct MachineIdType;

impl MachineIdType {
    pub const RANDOM: u8 = 0;
    pub const ADDRESS_V4: u8 = 1;
    pub const ADDRESS_V6: u8 = 2;
}

/// Big-endian bytes of a 16-bit value.
pub open spec fn be2(x: u16) -> Seq<u8> {
    seq![(x >> 8u16) as u8, x as u8]
}

/// Big-endian bytes of a 32-bit value.
pub open spec fn be4(x: u32) -> Seq<u8> {
    seq![(x >> 24u32) as u8, (x >> 16u32) as u8, (x >> 8u32) as u8, x as u8]
}

/// Big-endian bytes of the low 48 bits of a 64-bit value.
pub open spec fn be6(x: u64) -> Seq<u8> {
    seq![
        (x >> 40u64) as u8,
        (x >> 32u64) as u8,
        (x >> 24u64) as u8,
        (x >> 16u64) as u8,
        (x >> 8u64) as u8,
        x as u8,
    ]
}

/// Big-endian bytes of a 128-bit value.
pub open spec fn be16(x: u128) -> Seq<u8> {
    seq![
        (x >> 120u128) as u8,
        (x >> 112u128) as u8,
        (x >> 104u128) as u8,
        (x >> 96u128) as u8,
        (x >> 88u128) as u8,
        (x >> 80u128) as u8,
        (x >> 72u128) as u8,
        (x >> 64u128) as u8,
        (x >> 56u128) as u8,
        (x >> 48u128) as u8,
        (x >> 40u128) as u8,
        (x >> 32u128) as u8,
        (x >> 24u128) as u8,
        (x >> 16u128) as u8,
        (x >> 8u128) as u8,
        x as u8,
    ]
}

/// The 16-bit value of two big-endian bytes.
pub open spec fn u16_of(s: Seq<u8>) -> u16 {
    ((s[0] as u16) << 8u16) | (s[1] as u16)
}

/// The 32-bit value of four big-endian bytes.
pub open spec fn u32_of(s: Seq<u8>) -> u32 {
    ((s[0] as u32) << 24u32) | ((s[1] as u32) << 16u32) | ((s[2] as u32) << 8u32) | (s[3] as u32)
}

/// The 48-bit value of six big-endian bytes.
pub open spec fn u48_of(s: Seq<u8>) -> u64 {
    ((s[0] as u64) << 40u64) | ((s[1] as u64) << 32u64) | ((s[2] as u64) << 24u64) | ((s[3] as u64)
        << 16u64) | ((s[4] as u64) << 8u64) | (s[5] as u64)
}

/// The 128-bit value of sixteen big-endian bytes.
pub open spec fn u128_of(s: Seq<u8>) -> u128 {
    ((s[0] as u128) << 120u128) | ((s[1] as u128) << 112u128) | ((s[2] as u128) << 104u128) | ((
    s[3] as u128) << 96u128) | ((s[4] as u128) << 88u128) | ((s[5] as u128) << 80u128) | ((
    s[6] as u128) << 72u128) | ((s[7] as u128) << 64u128) | ((s[8] as u128) << 56u128) | ((
    s[9] as u128) << 48u128) | ((s[10] as u128) << 40u128) | ((s[11] as u128) << 32u128) | ((
    s[12] as u128) << 24u128) | ((s[13] as u128) << 16u128) | ((s[14] as u128) << 8u128) | (
    s[15] as u128)
}

proof fn lemma_u16_round_trip(x: u16)
    ensures
        u16_of(be2(x)) == x,
{
    let b0 = (x >> 8u16) as u8;
    let b1 = x as u8;
    assert((((b0 as u16) << 8u16) | (b1 as u16)) == x) by (bit_vector)
        requires
            b0 == (x >> 8u16) as u8,
            b1 == x as u8,
    ;
}

proof fn lemma_u32_round_trip(x: u32)
    ensures
        u32_of(be4(x)) == x,
{
    let b0 = (x >> 24u32) as u8;
    let b1 = (x >> 16u32) as u8;
    let b2 = (x >> 8u32) as u8;
    let b3 = x as u8;
    assert((((b0 as u32) << 24u32) | ((b1 as u32) << 16u32) | ((b2 as u32) << 8u32) | (b3 as u32))
        == x) by (bit_vector)
        requires
            b0 == (x >> 24u32) as u8,
            b1 == (x >> 16u32) as u8,
            b2 == (x >> 8u32) as u8,
            b3 == x as u8,
    ;
}

proof fn lemma_u48_round_trip(x: u64)
    requires
        x < 0x1_0000_0000_0000,
    ensures
        u48_of(be6(x)) == x,
{
    let b0 = (x >> 40u64) as u8;
    let b1 = (x >> 32u64) as u8;
    let b2 = (x >> 24u64) as u8;
    let b3 = (x >> 16u64) as u8;
    let b4 = (x >> 8u64) as u8;
    let b5 = x as u8;
    assert((((b0 as u64) << 40u64) | ((b1 as u64) << 32u64) | ((b2 as u64) << 24u64) | ((b3 as u64)
        << 16u64) | ((b4 as u64) << 8u64) | (b5 as u64)) == x) by (bit_vector)
        requires
            x < 0x1_0000_0000_0000,
            b0 == (x >> 40u64) as u8,
            b1 == (x >> 32u64) as u8,
            b2 == (x >> 24u64) as u8,
            b3 == (x >> 16u64) as u8,
            b4 == (x >> 8u64) as u8,
            b5 == x as u8,
    ;
}

proof fn lemma_u128_round_trip(x: u128)
    ensures
        u128_of(be16(x)) == x,
{
    let s = be16(x);
    let (b0, b1, b2, b3) = (s[0], s[1], s[2], s[3]);
    let (b4, b5, b6, b7) = (s[4], s[5], s[6], s[7]);
    let (b8, b9, b10, b11) = (s[8], s[9], s[10], s[11]);
    let (b12, b13, b14, b15) = (s[12], s[13], s[14], s[15]);
    assert(((b0 as u128) << 120u128) | ((b1 as u128) << 112u128) | ((b2 as u128) << 104u128) | ((
    b3 as u128) << 96u128) | ((b4 as u128) << 88u128) | ((b5 as u128) << 80u128) | ((b6 as u128)
        << 72u128) | ((b7 as u128) << 64u128) | ((b8 as u128) << 56u128) | ((b9 as u128) << 48u128)
        | ((b10 as u128) << 40u128) | ((b11 as u128) << 32u128) | ((b12 as u128) << 24u128) | ((
    b13 as u128) << 16u128) | ((b14 as u128) << 8u128) | (b15 as u128) == x) by (bit_vector)
        requires
            b0 == (x >> 120u128) as u8,
            b1 == (x >> 112u128) as u8,
            b2 == (x >> 104u128) as u8,
            b3 == (x >> 96u128) as u8,
            b4 == (x >> 88u128) as u8,
            b5 == (x >> 80u128) as u8,
            b6 == (x >> 72u128) as u8,
            b7 == (x >> 64u128) as u8,
            b8 == (x >> 56u128) as u8,
            b9 == (x >> 48u128) as u8,
            b10 == (x >> 40u128) as u8,
            b11 == (x >> 32u128) as u8,
            b12 == (x >> 24u128) as u8,
            b13 == (x >> 16u128) as u8,
            b14 == (x >> 8u128) as u8,
            b15 == x as u8,
    ;
}

/// A 4-byte IPv4 address with a port.
#[derive(Clone, Copy, Debug, PartialEq, Eq, Structural)]
pub struct SocketAddrV4 {
    pub ip: u32,
    pub port: u16,
}

/// A 16-byte IPv6 address with a port.
#[derive(Clone, Copy, Debug, PartialEq, Eq, Structural)]
pub struct SocketAddrV6 {
    pub ip: u128,
    pub port: u16,
}

/// A socket address, IPv4 or IPv6.
#[derive(Clone, Copy, Debug, PartialEq, Eq, Structural)]
pub enum SocketAddr {
    V4(SocketAddrV4),
    V6(SocketAddrV6),
}

/// The process or host that minted an identifier.
#[derive(Clone, Copy, Debug)]
pub enum MachineId {
    Random([u8; 18]),
    AddressV4(SocketAddrV4),
    AddressV6(SocketAddrV6),
}

impl PartialEq for MachineId {
    fn eq(&self, o: &MachineId) -> (r: bool) {
        match (*self, *o) {
            (MachineId::Random(a), MachineId::Random(b)) => {
                let mut i: usize = 0;
                while i < 18
                    invariant
                        0 <= i <= 18,
                        *self == MachineId::Random(a),
                        *o == MachineId::Random(b),
                        forall|j: int| 0 <= j < i ==> a@[j] == b@[j],
                    decreases 18 - i,
                {
                    if a[i] != b[i] {
                        assert(a@[i as int] != b@[i as int]);
                        return false;
                    }
                    i = i + 1;
                }
                assert(a@ =~= b@);
                assert(a =~= b);
                true
            },
            (MachineId::AddressV4(a), MachineId::AddressV4(b)) => a == b,
            (MachineId::AddressV6(a), MachineId::AddressV6(b)) => a == b,
            _ => false,
        }
    }
}

impl vstd::std_specs::cmp::PartialEqSpecImpl for MachineId {
    open spec fn obeys_eq_spec() -> bool {
        true
    }

    open spec fn eq_spec(&self, o: &MachineId) -> bool {
        *self == *o
    }
}

impl Eq for MachineId {
}

fn push_u16(buf: &mut Vec<u8>, x: u16)
    ensures
        final(buf)@ == old(buf)@ + be2(x),
{
    buf.push((x >> 8u16) as u8);
    buf.push(x as u8);
    assert(final(buf)@ =~= old(buf)@ + be2(x));
}

fn push_u32(buf: &mut Vec<u8>, x: u32)
    ensures
        final(buf)@ == old(buf)@ + be4(x),
{
    buf.push((x >> 24u32) as u8);
    buf.push((x >> 16u32) as u8);
    buf.push((x >> 8u32) as u8);
    buf.push(x as u8);
    assert(final(buf)@ =~= old(buf)@ + be4(x));
}

fn push_u48(buf: &mut Vec<u8>, x: u64)
    ensures
        final(buf)@ == old(buf)@ + be6(x),
{
    buf.push((x >> 40u64) as u8);
    buf.push((x >> 32u64) as u8);
    buf.push((x >> 24u64) as u8);
    buf.push((x >> 16u64) as u8);
    buf.push((x >> 8u64) as u8);
    buf.push(x as u8);
    assert(final(buf)@ =~= old(buf)@ + be6(x));
}

fn push_u128(buf: &mut Vec<u8>, x: u128)
    ensures
        final(buf)@ == old(buf)@ + be16(x),
{
    buf.push((x >> 120u128) as u8);
    buf.push((x >> 112u128) as u8);
    buf.push((x >> 104u128) as u8);
    buf.push((x >> 96u128) as u8);
    buf.push((x >> 88u128) as u8);
    buf.push((x >> 80u128) as u8);
    buf.push((x >> 72u128) as u8);
    buf.push((x >> 64u128) as u8);
    buf.push((x >> 56u128) as u8);
    buf.push((x >> 48u128) as u8);
    buf.push((x >> 40u128) as u8);
    buf.push((x >> 32u128) as u8);
    buf.push((x >> 24u128) as u8);
    buf.push((x >> 16u128) as u8);
    buf.push((x >> 8u128) as u8);
    buf.push(x as u8);
    assert(final(buf)@ =~= old(buf)@ + be16(x));
}

fn read_u16(b: &[u8], at: usize) -> (r: u16)
    requires
        at + 2 <= b@.len(),
    ensures
        r == u16_of(b@.subrange(at as int, at + 2)),
{
    ((b[at] as u16) << 8u16) | (b[at + 1] as u16)
}

fn read_u32(b: &[u8], at: usize) -> (r: u32)
    requires
        at + 4 <= b@.len(),
    ensures
        r == u32_of(b@.subrange(at as int, at + 4)),
{
    ((b[at] as u32) << 24u32) | ((b[at + 1] as u32) << 16u32) | ((b[at + 2] as u32) << 8u32) | (b[at
        + 3] as u32)
}

fn read_u48(b: &[u8], at: usize) -> (r: u64)
    requires
        at + 6 <= b@.len(),
    ensures
        r == u48_of(b@.subrange(at as int, at + 6)),
        r < 0x1_0000_0000_0000,
{
    let (b0, b1, b2, b3, b4, b5) = (b[at], b[at + 1], b[at + 2], b[at + 3], b[at + 4], b[at + 5]);
    let r = ((b0 as u64) << 40u64) | ((b1 as u64) << 32u64) | ((b2 as u64) << 24u64) | ((b3 as u64)
        << 16u64) | ((b4 as u64) << 8u64) | (b5 as u64);
    assert(((b0 as u64) << 40u64) | ((b1 as u64) << 32u64) | ((b2 as u64) << 24u64) | ((b3 as u64)
        << 16u64) | ((b4 as u64) << 8u64) | (b5 as u64) < 0x1_0000_0000_0000u64) by (bit_vector);
    r
}

fn read_u128(b: &[u8], at: usize) -> (r: u128)
    requires
        at + 16 <= b@.len(),
    ensures
        r == u128_of(b@.subrange(at as int, at + 16)),
{
    ((b[at + 0] as u128) << 120u128) | ((b[at + 1] as u128) << 112u128) | ((b[at + 2] as u128) << 104u128) | ((b[at + 3] as u128) << 96u128) | ((b[at + 4] as u128) << 88u128) | ((b[at + 5] as u128) << 80u128) | ((b[at + 6] as u128) << 72u128) | ((b[at + 7] as u128) << 64u128) | ((b[at + 8] as u128) << 56u128) | ((b[at + 9] as u128) << 48u128) | ((b[at + 10] as u128) << 40u128) | ((b[at + 11] as u128) << 32u128) | ((b[at + 12] as u128) << 24u128) | ((b[at + 13] as u128) << 16u128) | ((b[at + 14] as u128) << 8u128) | (b[at + 15] as u128)
}

/// The error of a malformed identifier.
#[derive(Clone, Debug)]
pub struct Error {
    pub detail: String,
}

impl Error {
    pub fn new(detail: &str) -> (r: Error)
        ensures
            r.detail@ == detail@,
    {
        Error { detail: detail.to_owned() }
    }
}

/// Bytes equal element by element.
fn bytes_eq(a: &[u8], b: &[u8]) -> (r: bool)
    ensures
        r == (a@ == b@),
{
    if a.len() != b.len() {
        return false;
    }
    let mut i: usize = 0;
    while i < a.len()
        invariant
            0 <= i <= a@.len(),
            a@.len() == b@.len(),
            forall|j: int| 0 <= j < i ==> a@[j] == b@[j],
        decreases a@.len() - i,
    {
        if a[i] != b[i] {
            assert(a@[i as int] != b@[i as int]);
            return false;
        }
        i = i + 1;
    }
    assert(a@ =~= b@);
    true
}

/// The tag that the encoding gives a machine id.
pub open spec fn machine_tag(m: MachineId) -> u8 {
    match m {
        MachineId::Random(_) => MachineIdType::RANDOM,
        MachineId::AddressV4(_) => MachineIdType::ADDRESS_V4,
        MachineId::AddressV6(_) => MachineIdType::ADDRESS_V6,
    }
}

/// The 18 bytes that the encoding gives a machine id.
pub open spec fn machine_payload(m: MachineId) -> Seq<u8> {
    match m {
        MachineId::Random(r) => r@,
        MachineId::AddressV4(a) => be4(a.ip) + be2(a.port) + Seq::new(12, |i: int| 0u8),
        MachineId::AddressV6(a) => be16(a.ip) + be2(a.port),
    }
}

/// The array of 18 bytes that holds a sequence of 18 bytes.
pub open spec fn array_of(p: Seq<u8>) -> [u8; 18] {
    choose|a: [u8; 18]| a@ == p
}

/// The machine id that an 18-byte payload holds under a tag, if the tag is known.
pub open spec fn machine_of(tag: u64, p: Seq<u8>) -> Option<MachineId> {
    if tag == MachineIdType::RANDOM as u64 {
        Some(MachineId::Random(array_of(p)))
    } else if tag == MachineIdType::ADDRESS_V4 as u64 {
        Some(
            MachineId::AddressV4(
                SocketAddrV4 { ip: u32_of(p.subrange(0, 4)), port: u16_of(p.subrange(4, 6)) },
            ),
        )
    } else if tag == MachineIdType::ADDRESS_V6 as u64 {
        Some(
            MachineId::AddressV6(
                SocketAddrV6 { ip: u128_of(p.subrange(0, 16)), port: u16_of(p.subrange(16, 18)) },
            ),
        )
    } else {
        None
    }
}

/// The identifier that 28 bytes encode, if they encode one.
pub open spec fn id_of_bytes(b: Seq<u8>) -> Option<ConnectionId> {
    if b.len() != 28 {
        None
    } else {
        let head = u48_of(b.subrange(0, 6));
        let tail = u16_of(b.subrange(26, 28));
        match machine_of(head & 3, b.subrange(6, 24)) {
            None => None,
            Some(m) => Some(
                ConnectionId {
                    machine_id: m,
                    msec: head >> 2u64,
                    incr: u16_of(b.subrange(24, 26)),
                    rand: tail >> 2u16,
                    version: (tail & 3) as u8,
                },
            ),
        }
    }
}

/// A globally unique, time-ordered connection identifier.
#[derive(Clone, Copy, Debug)]
pub struct ConnectionId {
    pub machine_id: MachineId,
    pub msec: u64,
    pub incr: u16,
    pub rand: u16,
    pub version: u8,
}

/// The identifier that a text holds, if it holds one.
pub open spec fn id_of_text(t: Seq<char>) -> Option<ConnectionId> {
    if t.len() != 45 {
        None
    } else {
        match crockford_decoded(t) {
            Some(b) => id_of_bytes(b),
            None => None,
        }
    }
}

/// The identifier that a short form stands for under a machine id.
pub open spec fn id_of_short(s: Seq<u8>, m: MachineId) -> ConnectionId {
    let tail = u16_of(s.subrange(8, 10));
    ConnectionId {
        machine_id: m,
        msec: u48_of(s.subrange(0, 6)),
        incr: u16_of(s.subrange(6, 8)),
        rand: tail >> 2u16,
        version: (tail & 3) as u8,
    }
}

/// The machine id that bytes 6 to 24 of an encoding hold under a tag.
fn decode_machine(b: &[u8], tag: u64) -> (r: Option<MachineId>)
    requires
        b@.len() == 28,
    ensures
        r == machine_of(tag, b@.subrange(6, 24)),
{
    if tag == MachineIdType::RANDOM as u64 {
        let mut a = [0u8; 18];
        let mut i: usize = 0;
        while i < 18
            invariant
                0 <= i <= 18,
                b@.len() == 28,
                forall|j: int| 0 <= j < i ==> a@[j] == b@[6 + j],
            decreases 18 - i,
        {
            a[i] = b[6 + i];
            i = i + 1;
        }
        proof {
            let p = b@.subrange(6, 24);
            assert(a@ =~= p);
            assert(exists|x: [u8; 18]| x@ == p) by {
                assert(a@ == p);
            }
            let c = array_of(p);
            assert(c@ =~= a@);
            assert(c =~= a);
        }
        Some(MachineId::Random(a))
    } else if tag == MachineIdType::ADDRESS_V4 as u64 {
        proof {
            assert(b@.subrange(6, 24).subrange(0, 4) =~= b@.subrange(6, 10));
            assert(b@.subrange(6, 24).subrange(4, 6) =~= b@.subrange(10, 12));
        }
        Some(MachineId::AddressV4(SocketAddrV4 { ip: read_u32(b, 6), port: read_u16(b, 10) }))
    } else if tag == MachineIdType::ADDRESS_V6 as u64 {
        proof {
            assert(b@.subrange(6, 24).subrange(0, 16) =~= b@.subrange(6, 22));
            assert(b@.subrange(6, 24).subrange(16, 18) =~= b@.subrange(22, 24));
        }
        Some(MachineId::AddressV6(SocketAddrV6 { ip: read_u128(b, 6), port: read_u16(b, 22) }))
    } else {
        None
    }
}

impl ConnectionId {
    /// Every field within the width that the encoding gives it.
    pub open spec fn wf(self) -> bool {
        &&& self.msec < 0x4000_0000_0000
        &&& self.rand < 0x4000
        &&& self.version < 4
    }

    /// The canonical 28-byte encoding.
    pub open spec fn spec_bytes(self) -> Seq<u8> {
        be6((self.msec << 2u64) | (machine_tag(self.machine_id) as u64)) + machine_payload(
            self.machine_id,
        ) + be2(self.incr) + be2((self.rand << 2u16) | (self.version as u16))
    }

    /// The 45-character text form.
    pub open spec fn spec_text(self) -> Seq<char> {
        crockford_text(self.spec_bytes())
    }

    /// The 10-byte short form.
    pub open spec fn spec_short(self) -> Seq<u8> {
        be6(self.msec) + be2(self.incr) + be2((self.rand << 2u16) | (self.version as u16))
    }

    /// Milliseconds since the Unix epoch at which the identifier was minted.
    pub fn get_time(&self) -> (r: u64)
        ensures
            r == self.msec,
    {
        self.msec
    }

    /// The socket address that the machine id holds, if it holds one.
    pub fn get_socket_addr(&self) -> (r: Option<SocketAddr>)
        ensures
            r == match self.machine_id {
                MachineId::AddressV4(a) => Some(SocketAddr::V4(a)),
                MachineId::AddressV6(a) => Some(SocketAddr::V6(a)),
                MachineId::Random(_) => None,
            },
    {
        match self.machine_id {
            MachineId::AddressV4(a) => Some(SocketAddr::V4(a)),
            MachineId::AddressV6(a) => Some(SocketAddr::V6(a)),
            MachineId::Random(_) => None,
        }
    }

    pub fn get_version(&self) -> (r: u8)
        ensures
            r == self.version,
    {
        self.version
    }

    /// The canonical 28-byte encoding.
    pub fn encode(&self) -> (r: Vec<u8>)
        ensures
            r@ == self.spec_bytes(),
            r@.len() == 28,
    {
        let mut buf: Vec<u8> = Vec::new();
        let tag: u8 = match self.machine_id {
            MachineId::Random(_) => MachineIdType::RANDOM,
            MachineId::AddressV4(_) => MachineIdType::ADDRESS_V4,
            MachineId::AddressV6(_) => MachineIdType::ADDRESS_V6,
        };
        push_u48(&mut buf, (self.msec << 2u64) | (tag as u64));
        let ghost head = buf@;
        match self.machine_id {
            MachineId::Random(r) => {
                let mut i: usize = 0;
                while i < 18
                    invariant
                        0 <= i <= 18,
                        buf@ == head + r@.subrange(0, i as int),
                    decreases 18 - i,
                {
                    buf.push(r[i]);
                    proof {
                        assert(buf@ =~= head + r@.subrange(0, i + 1));
                    }
                    i = i + 1;
                }
                assert(r@.subrange(0, 18) =~= r@);
            },
            MachineId::AddressV4(a) => {
                push_u32(&mut buf, a.ip);
                push_u16(&mut buf, a.port);
                let ghost mid = buf@;
                let mut i: usize = 0;
                while i < 12
                    invariant
                        0 <= i <= 12,
                        buf@ == mid + Seq::new(i as nat, |j: int| 0u8),
                    decreases 12 - i,
                {
                    buf.push(0u8);
                    proof {
                        assert(buf@ =~= mid + Seq::new((i + 1) as nat, |j: int| 0u8));
                    }
                    i = i + 1;
                }
                assert(buf@ =~= head + machine_payload(self.machine_id));
            },
            MachineId::AddressV6(a) => {
                push_u128(&mut buf, a.ip);
                push_u16(&mut buf, a.port);
                assert(buf@ =~= head + machine_payload(self.machine_id));
            },
        }
        push_u16(&mut buf, self.incr);
        push_u16(&mut buf, (self.rand << 2u16) | (self.version as u16));
        assert(buf@ =~= self.spec_bytes());
        buf
    }

    /// The identifier that 28 bytes encode; the error where their length is
    /// not 28 or their machine-id tag is unknown.
    pub fn decode(b: &[u8]) -> (r: Result<ConnectionId, Error>)
        ensures
            r is Ok <==> id_of_bytes(b@) is Some,
            r matches Ok(id) ==> id == id_of_bytes(b@)->Some_0 && id.wf(),
    {
        if b.len() != 28 {
            return Err(Error::new("invalid connection id"));
        }
        let head = read_u48(b, 0);
        let machine_id = match decode_machine(b, head & 3) {
            Some(m) => m,
            None => {
                return Err(Error::new("invalid connection id"));
            },
        };
        let incr = read_u16(b, 24);
        let tail = read_u16(b, 26);
        let id = ConnectionId {
            machine_id,
            msec: head >> 2u64,
            incr,
            rand: tail >> 2u16,
            version: (tail & 3) as u8,
        };
        assert(head >> 2u64 < 0x4000_0000_0000u64) by (bit_vector)
            requires
                head < 0x1_0000_0000_0000u64,
        ;
        assert(tail >> 2u16 < 0x4000u16) by (bit_vector);
        assert(tail & 3u16 < 4u16) by (bit_vector);
        Ok(id)
    }

    /// The 45-character Crockford base-32 text of the canonical encoding.
    pub fn to_text(&self) -> (r: String)
        ensures
            r@ == self.spec_text(),
            r@.len() == 45,
            self.wf() ==> id_of_text(r@) == Some(*self),
    {
        let bytes = self.encode();
        let r = crockford_encode(bytes.as_slice());
        proof {
            if self.wf() {
                lemma_bytes_round_trip(*self);
            }
        }
        r
    }

    /// The identifier that a text holds; the error where the text is not 45
    /// characters of Crockford base-32 (either case) or holds an unknown
    /// machine-id tag.
    pub fn from_text(s: &str) -> (r: Result<ConnectionId, Error>)
        ensures
            r is Ok <==> id_of_text(s@) is Some,
            r matches Ok(id) ==> id == id_of_text(s@)->Some_0 && id.wf() && is_ascii(s)
                && s.spec_bytes().len() == 45,
            r is Err <==> s@.len() != 45 || crockford_decoded(s@) is None || u48_of(
                crockford_decoded(s@)->Some_0.subrange(0, 6),
            ) & 3 == 3,
            (exists|i: int| 0 <= i < s@.len() && (#[trigger] crockford_digit(s@[i])) is None)
                ==> r is Err,
    {
        proof {
            lemma_decode_refuses(s@);
        }
        let decoded = crockford_decode(s);
        match decoded {
            None => Err(Error::new("invalid connection id")),
            Some(buf) => {
                proof {
                    broadcast use vstd::string::is_ascii_spec_bytes;
                }
                if s.unicode_len() != 45 {
                    return Err(Error::new("invalid connection id"));
                }
                proof {
                    let b = buf@;
                    assert(s.spec_bytes().len() == 45);
                    assert(b.len() == 45 * 5 / 8);
                    assert(b.len() == 28);
                    let head = u48_of(b.subrange(0, 6));
                    assert(head & 3 < 4) by (bit_vector);
                }
                ConnectionId::decode(buf.as_slice())
            },
        }
    }

    /// The 10-byte short form: the fields but the machine id.
    pub fn to_short(&self) -> (r: ShortConnectionId)
        ensures
            r@ == self.spec_short(),
    {
        let mut buf: Vec<u8> = Vec::new();
        push_u48(&mut buf, self.msec);
        push_u16(&mut buf, self.incr);
        push_u16(&mut buf, (self.rand << 2u16) | (self.version as u16));
        let mut repr = [0u8; 10];
        let mut i: usize = 0;
        while i < 10
            invariant
                0 <= i <= 10,
                buf@ == self.spec_short(),
                forall|j: int| 0 <= j < i ==> repr@[j] == buf@[j],
            decreases 10 - i,
        {
            repr[i] = buf[i];
            i = i + 1;
        }
        assert(repr@ =~= self.spec_short());
        ShortConnectionId::new(repr)
    }

    /// The identifier that a short form stands for, with the machine id given.
    pub fn from_short(short: ShortConnectionId, machine_id: MachineId) -> (r: ConnectionId)
        ensures
            r == id_of_short(short@, machine_id),
    {
        let repr = short.as_bytes();
        let b = repr.as_slice();
        let msec = read_u48(b, 0);
        let incr = read_u16(b, 6);
        let tail = read_u16(b, 8);
        assert(tail & 3u16 < 4u16) by (bit_vector);
        ConnectionId { machine_id, msec, incr, rand: tail >> 2u16, version: (tail & 3) as u8 }
    }
}

/// Decoding the canonical encoding of a valid identifier gives the identifier
/// back.
pub proof fn lemma_bytes_round_trip(id: ConnectionId)
    requires
        id.wf(),
    ensures
        id_of_bytes(id.spec_bytes()) == Some(id),
{
    let b = id.spec_bytes();
    let tag = machine_tag(id.machine_id) as u64;
    let head = (id.msec << 2u64) | tag;
    let msec = id.msec;
    assert(head < 0x1_0000_0000_0000 && head >> 2u64 == msec && head & 3 == tag) by (bit_vector)
        requires
            msec < 0x4000_0000_0000u64,
            tag < 3,
            head == (msec << 2u64) | tag,
    ;
    let tail = (id.rand << 2u16) | (id.version as u16);
    let (rand, version) = (id.rand, id.version);
    assert(tail >> 2u16 == rand && (tail & 3) as u8 == version) by (bit_vector)
        requires
            rand < 0x4000u16,
            version < 4u8,
            tail == (rand << 2u16) | (version as u16),
    ;
    let h = be6(head);
    let p = machine_payload(id.machine_id);
    let i = be2(id.incr);
    let t = be2(tail);
    lemma_payload_len(id.machine_id);
    assert(b == h + p + i + t);
    assert(b.subrange(0, 6) =~= h);
    assert(b.subrange(6, 24) =~= p);
    assert(b.subrange(24, 26) =~= i);
    assert(b.subrange(26, 28) =~= t);
    lemma_u48_round_trip(head);
    lemma_u16_round_trip(id.incr);
    lemma_u16_round_trip(tail);
    lemma_payload_round_trip(id.machine_id);
}

proof fn lemma_payload_len(m: MachineId)
    ensures
        machine_payload(m).len() == 18,
{
}

proof fn lemma_payload_round_trip(m: MachineId)
    ensures
        machine_of(machine_tag(m) as u64, machine_payload(m)) == Some(m),
{
    let p = machine_payload(m);
    match m {
        MachineId::Random(r) => {
            assert(exists|x: [u8; 18]| x@ == p) by {
                assert(r@ == p);
            }
            let c = array_of(p);
            assert(c@ =~= r@);
            assert(c =~= r);
        },
        MachineId::AddressV4(a) => {
            assert(p.subrange(0, 4) =~= be4(a.ip));
            assert(p.subrange(4, 6) =~= be2(a.port));
            lemma_u32_round_trip(a.ip);
            lemma_u16_round_trip(a.port);
        },
        MachineId::AddressV6(a) => {
            assert(p.subrange(0, 16) =~= be16(a.ip));
            assert(p.subrange(16, 18) =~= be2(a.port));
            lemma_u128_round_trip(a.ip);
            lemma_u16_round_trip(a.port);
        },
    }
}

/// Restoring the short form of a valid identifier with its own machine id
/// gives the identifier back.
pub proof fn lemma_short_round_trip(id: ConnectionId)
    requires
        id.wf(),
    ensures
        id_of_short(id.spec_short(), id.machine_id) == id,
{
    let s = id.spec_short();
    let tail = (id.rand << 2u16) | (id.version as u16);
    let (rand, version) = (id.rand, id.version);
    assert(tail >> 2u16 == rand && (tail & 3) as u8 == version) by (bit_vector)
        requires
            rand < 0x4000u16,
            version < 4u8,
            tail == (rand << 2u16) | (version as u16),
    ;
    lemma_u48_round_trip(id.msec);
    lemma_u16_round_trip(id.incr);
    lemma_u16_round_trip(tail);
    assert(s.subrange(0, 6) =~= be6(id.msec));
    assert(s.subrange(6, 8) =~= be2(id.incr));
    assert(s.subrange(8, 10) =~= be2(tail));
}

impl PartialEq for ConnectionId {
    fn eq(&self, o: &ConnectionId) -> (r: bool) {
        self.machine_id == o.machine_id && self.msec == o.msec && self.incr == o.incr && self.rand
            == o.rand && self.version == o.version
    }
}

impl vstd::std_specs::cmp::PartialEqSpecImpl for ConnectionId {
    open spec fn obeys_eq_spec() -> bool {
        true
    }

    open spec fn eq_spec(&self, o: &ConnectionId) -> bool {
        *self == *o
    }
}

impl Eq for ConnectionId {
}

/// The 10-byte form of an identifier, without its machine id.
#[derive(Clone, Copy, Debug, Hash)]
pub struct ShortConnectionId {
    repr: [u8; 10],
}

impl PartialEq for ShortConnectionId {
    fn eq(&self, o: &ShortConnectionId) -> (r: bool) {
        let r = bytes_eq(self.repr.as_slice(), o.repr.as_slice());
        proof {
            if r {
                assert(self.repr =~= o.repr);
            }
        }
        r
    }
}

impl vstd::std_specs::cmp::PartialEqSpecImpl for ShortConnectionId {
    open spec fn obeys_eq_spec() -> bool {
        true
    }

    open spec fn eq_spec(&self, o: &ShortConnectionId) -> bool {
        self@ == o@
    }
}

impl Eq for ShortConnectionId {
}

impl View for ShortConnectionId {
    type V = Seq<u8>;

    closed spec fn view(&self) -> Seq<u8> {
        self.repr@
    }
}

/// The 80-bit big-endian value of a short form, used as a map key.
pub open spec fn key_of(s: Seq<u8>) -> u128 {
    ((s[0] as u128) << 72u128) | ((s[1] as u128) << 64u128) | ((s[2] as u128) << 56u128) | ((s[3] as u128) << 48u128) | ((s[4] as u128) << 40u128) | ((s[5] as u128) << 32u128) | ((s[6] as u128) << 24u128) | ((s[7] as u128) << 16u128) | ((s[8] as u128) << 8u128) | (s[9] as u128)
}

/// The short form whose ten bytes are `s`.
pub open spec fn short_from(s: Seq<u8>) -> ShortConnectionId {
    choose|x: ShortConnectionId| x@ == s
}

/// A short form is the one that its bytes name.
pub proof fn lemma_short_from(x: ShortConnectionId)
    ensures
        short_from(x@) == x,
{
    let y = short_from(x@);
    assert(y@ == x@);
    assert(y.repr =~= x.repr);
}

/// Distinct short forms have distinct keys.
pub proof fn lemma_key_injective(a: ShortConnectionId, b: ShortConnectionId)
    requires
        key_of(a@) == key_of(b@),
    ensures
        a == b,
{
    let x = key_of(a@);
    assert forall|i: int| 0 <= i < 10 implies a@[i] == b@[i] by {
        lemma_key_byte(a@, i);
        lemma_key_byte(b@, i);
    }
    assert(a.repr@ =~= b.repr@);
    assert(a.repr =~= b.repr);
}

/// Each byte of a short form can be read back from its key.
proof fn lemma_key_byte(s: Seq<u8>, i: int)
    requires
        s.len() == 10,
        0 <= i < 10,
    ensures
        (key_of(s) >> (8 * (9 - i)) as u128) as u8 == s[i],
{
    let (b0, b1, b2, b3, b4) = (s[0], s[1], s[2], s[3], s[4]);
    let (b5, b6, b7, b8, b9) = (s[5], s[6], s[7], s[8], s[9]);
    let k = key_of(s);
    assert(k == ((b0 as u128) << 72u128) | ((b1 as u128) << 64u128) | ((b2 as u128) << 56u128) | ((
    b3 as u128) << 48u128) | ((b4 as u128) << 40u128) | ((b5 as u128) << 32u128) | ((b6 as u128)
        << 24u128) | ((b7 as u128) << 16u128) | ((b8 as u128) << 8u128) | (b9 as u128));
    assert((k >> 72u128) as u8 == b0 && (k >> 64u128) as u8 == b1 && (k >> 56u128) as u8 == b2 && (k
        >> 48u128) as u8 == b3 && (k >> 40u128) as u8 == b4 && (k >> 32u128) as u8 == b5 && (k
        >> 24u128) as u8 == b6 && (k >> 16u128) as u8 == b7 && (k >> 8u128) as u8 == b8 && (k
        >> 0u128) as u8 == b9) by (bit_vector)
        requires
            k == ((b0 as u128) << 72u128) | ((b1 as u128) << 64u128) | ((b2 as u128) << 56u128) | ((
            b3 as u128) << 48u128) | ((b4 as u128) << 40u128) | ((b5 as u128) << 32u128) | ((
            b6 as u128) << 24u128) | ((b7 as u128) << 16u128) | ((b8 as u128) << 8u128) | (
            b9 as u128),
    ;
}

impl ShortConnectionId {
    /// The map key of this short form.
    pub fn key(&self) -> (r: u128)
        ensures
            r == key_of(self@),
    {
        let b = self.repr;
        ((b[0] as u128) << 72u128) | ((b[1] as u128) << 64u128) | ((b[2] as u128) << 56u128) | ((b[3] as u128) << 48u128) | ((b[4] as u128) << 40u128) | ((b[5] as u128) << 32u128) | ((b[6] as u128) << 24u128) | ((b[7] as u128) << 16u128) | ((b[8] as u128) << 8u128) | (b[9] as u128)
    }

    /// Wraps ten raw bytes.
    pub fn new(repr: [u8; 10]) -> (r: ShortConnectionId)
        ensures
            r@ == repr@,
    {
        ShortConnectionId { repr }
    }

    /// The ten raw bytes.
    pub fn as_bytes(&self) -> (r: [u8; 10])
        ensures
            r@ == self@,
    {
        self.repr
    }
}

/// `a` comes before `b` in lexicographic byte order.
pub open spec fn lex_lt(a: Seq<u8>, b: Seq<u8>) -> bool {
    exists|k: int|
        0 <= k < a.len() && k < b.len() && a[k] < b[k] && (forall|j: int| 0 <= j < k ==> #[trigger] a[j] == b[j])
}

/// The order of two byte strings of equal length.
pub open spec fn lex_cmp(a: Seq<u8>, b: Seq<u8>) -> core::cmp::Ordering {
    if lex_lt(a, b) {
        core::cmp::Ordering::Less
    } else if a == b {
        core::cmp::Ordering::Equal
    } else {
        core::cmp::Ordering::Greater
    }
}

/// Big-endian bytes order as the values they encode.
proof fn lemma_be6_order(x: u64, y: u64)
    requires
        x < y < 0x1_0000_0000_0000,
    ensures
        lex_lt(be6(x), be6(y)),
{
    let (a, b) = (be6(x), be6(y));
    let (x0, x1, x2, x3, x4, x5) = (a[0], a[1], a[2], a[3], a[4], a[5]);
    let (y0, y1, y2, y3, y4, y5) = (b[0], b[1], b[2], b[3], b[4], b[5]);
    assert(x0 < y0 || (x0 == y0 && (x1 < y1 || (x1 == y1 && (x2 < y2 || (x2 == y2 && (x3 < y3 || (
    x3 == y3 && (x4 < y4 || (x4 == y4 && x5 < y5)))))))))) by (bit_vector)
        requires
            x < y,
            y < 0x1_0000_0000_0000u64,
            x0 == (x >> 40u64) as u8,
            x1 == (x >> 32u64) as u8,
            x2 == (x >> 24u64) as u8,
            x3 == (x >> 16u64) as u8,
            x4 == (x >> 8u64) as u8,
            x5 == x as u8,
            y0 == (y >> 40u64) as u8,
            y1 == (y >> 32u64) as u8,
            y2 == (y >> 24u64) as u8,
            y3 == (y >> 16u64) as u8,
            y4 == (y >> 8u64) as u8,
            y5 == y as u8,
    ;
    let k = if x0 < y0 {
        0
    } else if x1 < y1 {
        1
    } else if x2 < y2 {
        2
    } else if x3 < y3 {
        3
    } else if x4 < y4 {
        4
    } else {
        5int
    };
    assert(forall|j: int| 0 <= j < k ==> #[trigger] a[j] == b[j]);
}

/// A prefix that decides the order decides it for any extension.
proof fn lemma_lex_prefix(a: Seq<u8>, b: Seq<u8>, c: Seq<u8>, d: Seq<u8>)
    requires
        lex_lt(a, b),
        a.len() == b.len(),
    ensures
        lex_lt(a + c, b + d),
{
    let k = choose|k: int|
        0 <= k < a.len() && k < b.len() && a[k] < b[k] && (forall|j: int| 0 <= j < k ==> #[trigger] a[j] == b[j]);
    assert((a + c)[k] == a[k] && (b + d)[k] == b[k]);
    assert(forall|j: int| 0 <= j < k ==> #[trigger] (a + c)[j] == (b + d)[j]) by {
        assert forall|j: int| 0 <= j < k implies #[trigger] (a + c)[j] == (b + d)[j] by {
            assert(a[j] == b[j]);
        }
    }
}

/// Of two identifiers of one machine, the one with the earlier time, or the
/// same time and a smaller counter, comes first in the canonical encoding,
/// and so in the order of `partial_cmp`.
pub proof fn lemma_order(a: ConnectionId, b: ConnectionId)
    requires
        a.wf(),
        b.wf(),
        a.machine_id == b.machine_id,
        a.msec < b.msec || (a.msec == b.msec && a.incr < b.incr),
    ensures
        lex_lt(a.spec_bytes(), b.spec_bytes()),
{
    let tag = machine_tag(a.machine_id) as u64;
    let (ma, mb) = (a.msec, b.msec);
    let ha = (ma << 2u64) | tag;
    let hb = (mb << 2u64) | tag;
    assert(ha < 0x1_0000_0000_0000 && hb < 0x1_0000_0000_0000 && (ma < mb ==> ha < hb) && (ma == mb
        ==> ha == hb)) by (bit_vector)
        requires
            ma < 0x4000_0000_0000u64,
            mb < 0x4000_0000_0000u64,
            tag < 3,
            ha == (ma << 2u64) | tag,
            hb == (mb << 2u64) | tag,
    ;
    let p = machine_payload(a.machine_id);
    let ta = be2((a.rand << 2u16) | (a.version as u16));
    let tb = be2((b.rand << 2u16) | (b.version as u16));
    lemma_payload_len(a.machine_id);
    assert(a.spec_bytes() == be6(ha) + (p + be2(a.incr) + ta)) by {
        assert(a.spec_bytes() =~= be6(ha) + (p + be2(a.incr) + ta));
    }
    assert(b.spec_bytes() == be6(hb) + (p + be2(b.incr) + tb)) by {
        assert(b.spec_bytes() =~= be6(hb) + (p + be2(b.incr) + tb));
    }
    if a.msec < b.msec {
        lemma_be6_order(ha, hb);
        lemma_lex_prefix(be6(ha), be6(hb), p + be2(a.incr) + ta, p + be2(b.incr) + tb);
    } else {
        let (ia, ib) = (a.incr, b.incr);
        let (a0, a1, b0, b1) = (be2(ia)[0], be2(ia)[1], be2(ib)[0], be2(ib)[1]);
        assert(a0 < b0 || (a0 == b0 && a1 < b1)) by (bit_vector)
            requires
                ia < ib,
                a0 == (ia >> 8u16) as u8,
                a1 == ia as u8,
                b0 == (ib >> 8u16) as u8,
                b1 == ib as u8,
        ;
        let pre = be6(ha) + p;
        assert(lex_lt(be2(ia), be2(ib))) by {
            if a0 < b0 {
                assert(forall|j: int| 0 <= j < 0 ==> #[trigger] be2(ia)[j] == be2(ib)[j]);
            } else {
                assert(forall|j: int| 0 <= j < 1 ==> #[trigger] be2(ia)[j] == be2(ib)[j]);
            }
        }
        lemma_lex_prefix(be2(ia), be2(ib), ta, tb);
        let x = be2(ia) + ta;
        let y = be2(ib) + tb;
        let k = choose|k: int|
            0 <= k < x.len() && k < y.len() && x[k] < y[k] && (forall|j: int| 0 <= j < k ==> #[trigger] x[j] == y[j]);
        let sa = a.spec_bytes();
        let sb = b.spec_bytes();
        assert(sa =~= pre + x);
        assert(sb =~= pre + y);
        assert(sa[24 + k] == x[k] && sb[24 + k] == y[k]);
        assert forall|j: int| 0 <= j < 24 + k implies #[trigger] sa[j] == sb[j] by {
            if j >= 24 {
                assert(x[j - 24] == y[j - 24]);
            }
        }
    }
}

/// Of two identifiers of one machine, the one with the earlier time, or the
/// same time and a smaller counter, has the smaller text.
pub proof fn lemma_text_order_of_ids(a: ConnectionId, b: ConnectionId)
    requires
        a.wf(),
        b.wf(),
        a.machine_id == b.machine_id,
        a.msec < b.msec || (a.msec == b.msec && a.incr < b.incr),
    ensures
        text_lt(a.spec_text(), b.spec_text()),
{
    lemma_order(a, b);
    lemma_payload_len(a.machine_id);
    lemma_payload_len(b.machine_id);
    lemma_text_order(a.spec_bytes(), b.spec_bytes());
}

impl PartialOrd for ConnectionId {
    /// Compares the canonical encodings byte by byte.
    fn partial_cmp(&self, other: &ConnectionId) -> (r: Option<core::cmp::Ordering>) {
        let a = self.encode();
        let b = other.encode();
        let mut i: usize = 0;
        while i < 28
            invariant
                0 <= i <= 28,
                a@ == self.spec_bytes(),
                b@ == other.spec_bytes(),
                a@.len() == 28,
                b@.len() == 28,
                forall|j: int| 0 <= j < i ==> #[trigger] a@[j] == b@[j],
            decreases 28 - i,
        {
            if a[i] != b[i] {
                proof {
                    let k = i as int;
                    if a@[k] < b@[k] {
                        assert(lex_lt(a@, b@));
                    } else {
                        assert(lex_lt(b@, a@));
                        assert(!lex_lt(a@, b@)) by {
                            if lex_lt(a@, b@) {
                                let m = choose|m: int|
                                    0 <= m < a@.len() && m < b@.len() && a@[m] < b@[m] && (forall|j: int| 0 <= j < m ==> #[trigger] a@[j] == b@[j]);
                                if m < k {
                                } else if m > k {
                                    assert(a@[k] == b@[k]);
                                }
                            }
                        }
                        assert(a@ != b@) by {
                            assert(a@[k] != b@[k]);
                        }
                    }
                }
                if a[i] < b[i] {
                    return Some(core::cmp::Ordering::Less);
                } else {
                    return Some(core::cmp::Ordering::Greater);
                }
            }
            i = i + 1;
        }
        proof {
            assert(a@ =~= b@);
            assert(!lex_lt(a@, b@));
        }
        Some(core::cmp::Ordering::Equal)
    }
}

impl vstd::std_specs::cmp::PartialOrdSpecImpl for ConnectionId {
    open spec fn obeys_partial_cmp_spec() -> bool {
        true
    }

    open spec fn partial_cmp_spec(&self, other: &ConnectionId) -> Option<core::cmp::Ordering> {
        Some(lex_cmp(self.spec_bytes(), other.spec_bytes()))
    }
}

impl core::str::FromStr for ConnectionId {
    type Err = Error;

    fn from_str(s: &str) -> Result<ConnectionId, Error> {
        ConnectionId::from_text(s)
    }
}

} // verus!
