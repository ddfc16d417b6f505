//! Integers as bytes in either order, and fixed-size records made of them.
use vstd::prelude::*;

verus! {

/// The number whose little-endian bytes are `b[0], b[1]`.
pub open spec fn le_u16(b: Seq<u8>) -> u16 {
    (b[0] + 256 * b[1]) as u16
}

/// The two little-endian bytes of a number.
pub open spec fn u16_bytes(v: u16) -> Seq<u8> {
    seq![(v % 256) as u8, (v / 256) as u8]
}

/// The number whose little-endian bytes are `b[0], b[1], b[2], b[3]`.
pub open spec fn le_u32(b: Seq<u8>) -> u32 {
    (b[0] + 256 * b[1] + 65536 * b[2] + 16777216 * b[3]) as u32
}

/// The four little-endian bytes of a number.
pub open spec fn u32_bytes(v: u32) -> Seq<u8> {
    seq![
        (v % 256) as u8,
        (v / 256 % 256) as u8,
        (v / 65536 % 256) as u8,
        (v / 16777216) as u8,
    ]
}

/// Reading the bytes of a number gives the number back, and the other way round.
pub proof fn u16_round_trip(v: u16, b: Seq<u8>)
    ensures
        u16_bytes(v).len() == 2,
        le_u16(u16_bytes(v)) == v,
        b.len() == 2 ==> u16_bytes(le_u16(b)) == b,
{
    if b.len() == 2 {
        let n: int = b[0] + 256 * b[1];
        assert(0 <= n < 65536);
        assert(n % 256 == b[0]);
        assert(n / 256 == b[1]);
        assert(u16_bytes(le_u16(b)) =~= b);
    }
}

/// Reading the bytes of a number gives the number back, and the other way round.
pub proof fn u32_round_trip(v: u32, b: Seq<u8>)
    ensures
        u32_bytes(v).len() == 4,
        le_u32(u32_bytes(v)) == v,
        b.len() == 4 ==> u32_bytes(le_u32(b)) == b,
{
    if b.len() == 4 {
        let n: int = b[0] + 256 * b[1] + 65536 * b[2] + 16777216 * b[3];
        assert(0 <= n < 4294967296);
        assert(n % 256 == b[0]);
        assert(n / 256 % 256 == b[1]);
        assert(n / 65536 % 256 == b[2]);
        assert(n / 16777216 == b[3]);
        assert(u32_bytes(le_u32(b)) =~= b);
    }
}

/// In which order the bytes of a number stand.
#[derive(Clone, Copy, Debug, PartialEq, Eq, Structural)]
pub enum ByteOrder {
    /// The low byte comes first.
    Little,
    /// The high byte comes first.
    Big,
}

/// The number whose bytes in this order are `b[0], b[1]`.
pub open spec fn u16_in(order: ByteOrder, b: Seq<u8>) -> u16 {
    match order {
        ByteOrder::Little => le_u16(b),
        ByteOrder::Big => le_u16(seq![b[1], b[0]]),
    }
}

/// The two bytes of a number in this order.
pub open spec fn u16_bytes_in(order: ByteOrder, v: u16) -> Seq<u8> {
    match order {
        ByteOrder::Little => u16_bytes(v),
        ByteOrder::Big => u16_bytes(v).reverse(),
    }
}

/// The number whose bytes in this order are `b[0], b[1], b[2], b[3]`.
pub open spec fn u32_in(order: ByteOrder, b: Seq<u8>) -> u32 {
    match order {
        ByteOrder::Little => le_u32(b),
        ByteOrder::Big => le_u32(seq![b[3], b[2], b[1], b[0]]),
    }
}

/// The four bytes of a number in this order.
pub open spec fn u32_bytes_in(order: ByteOrder, v: u32) -> Seq<u8> {
    match order {
        ByteOrder::Little => u32_bytes(v),
        ByteOrder::Big => u32_bytes(v).reverse(),
    }
}

/// Reading the bytes of a number in the order they were written in gives the number back, and
/// the other way round.
pub proof fn u16_round_trip_in(order: ByteOrder, v: u16, b: Seq<u8>)
    ensures
        u16_bytes_in(order, v).len() == 2,
        u16_in(order, u16_bytes_in(order, v)) == v,
        b.len() == 2 ==> u16_bytes_in(order, u16_in(order, b)) == b,
{
    let flipped = u16_bytes_in(order, v);
    u16_round_trip(v, b);
    u16_round_trip(v, seq![b[1], b[0]]);
    assert(order is Big ==> seq![flipped[1], flipped[0]] =~= u16_bytes(v));
    assert(b.len() == 2 ==> seq![b[1], b[0]].reverse() =~= b);
}

/// Reading the bytes of a number in the order they were written in gives the number back, and
/// the other way round.
pub proof fn u32_round_trip_in(order: ByteOrder, v: u32, b: Seq<u8>)
    ensures
        u32_bytes_in(order, v).len() == 4,
        u32_in(order, u32_bytes_in(order, v)) == v,
        b.len() == 4 ==> u32_bytes_in(order, u32_in(order, b)) == b,
{
    let flipped = u32_bytes_in(order, v);
    u32_round_trip(v, b);
    u32_round_trip(v, seq![b[3], b[2], b[1], b[0]]);
    assert(order is Big ==> seq![flipped[3], flipped[2], flipped[1], flipped[0]] =~= u32_bytes(v));
    assert(b.len() == 4 ==> seq![b[3], b[2], b[1], b[0]].reverse() =~= b);
}

/// `u16::to_ne_bytes` gives the bytes of a number as the machine stores it: in one of the two
/// orders. Which one it is rests on the machine and is left unsaid.
#[verifier::external_body]
fn native_bytes_of_u16(v: u16) -> (b: [u8; 2])
    ensures
        b@ == u16_bytes_in(ByteOrder::Little, v) || b@ == u16_bytes_in(ByteOrder::Big, v),
{
    v.to_ne_bytes()
}

/// The order in which these two bytes, one of them 1 and the other 0, are the number 1.
pub fn order_of_one(bytes: [u8; 2]) -> (r: ByteOrder)
    ensures
        r == if bytes@[0] == 1 {
            ByteOrder::Little
        } else {
            ByteOrder::Big
        },
        bytes@ == u16_bytes_in(ByteOrder::Little, 1) ==> r == ByteOrder::Little,
        bytes@ == u16_bytes_in(ByteOrder::Big, 1) ==> r == ByteOrder::Big,
{
    assert(u16_bytes_in(ByteOrder::Little, 1)[0] == 1);
    assert(u16_bytes_in(ByteOrder::Big, 1)[0] == 0);
    if bytes[0] == 1 {
        ByteOrder::Little
    } else {
        ByteOrder::Big
    }
}

/// The order in which the machine stores the bytes of a number. It is the one that
/// `order_of_one` finds in the machine's bytes of 1; no more can be said of it.
pub(crate) fn machine_order() -> (r: ByteOrder) {
    order_of_one(native_bytes_of_u16(1))
}

/// The number that the two bytes at `at` hold, the low byte first.
pub fn read_u16(b: &[u8], at: usize) -> (v: u16)
    requires
        at + 2 <= b@.len(),
    ensures
        v == le_u16(b@.subrange(at as int, at + 2)),
{
    let len = b.len();
    assert(at + 2 <= len);
    b[at] as u16 + 256 * (b[at + 1] as u16)
}

/// The two bytes of a number, the low byte first.
pub fn write_u16(v: u16) -> (b: [u8; 2])
    ensures
        b@ == u16_bytes(v),
{
    let b = [(v % 256) as u8, (v / 256) as u8];
    assert(b@ =~= u16_bytes(v));
    b
}

/// The number that the two bytes at `at` hold in this order.
pub fn read_u16_in(order: ByteOrder, b: &[u8], at: usize) -> (v: u16)
    requires
        at + 2 <= b@.len(),
    ensures
        v == u16_in(order, b@.subrange(at as int, at + 2)),
{
    let len = b.len();
    assert(at + 2 <= len);
    match order {
        ByteOrder::Little => read_u16(b, at),
        ByteOrder::Big => {
            let flipped = [b[at + 1], b[at]];
            let v = read_u16(&flipped, 0);
            assert(flipped@.subrange(0, 2) =~= seq![b[at + 1], b[at as int]]);
            v
        },
    }
}

/// The two bytes of a number in this order.
pub fn write_u16_in(order: ByteOrder, v: u16) -> (b: [u8; 2])
    ensures
        b@ == u16_bytes_in(order, v),
{
    let b = write_u16(v);
    match order {
        ByteOrder::Little => b,
        ByteOrder::Big => {
            let flipped = [b[1], b[0]];
            assert(flipped@ =~= u16_bytes(v).reverse());
            flipped
        },
    }
}

/// `bytemuck::pod_read_unaligned` on four bytes reinterprets them as a `u32` in
/// the machine's byte order; `u32::from_le` turns that into the number whose
/// little-endian bytes they are, on every machine. The call panics on any other
/// number of bytes.
#[verifier::external_body]
fn pod_read_u32(b: &[u8]) -> (v: u32)
    requires
        b@.len() == 4,
    ensures
        v == le_u32(b@),
{
    u32::from_le(bytemuck::pod_read_unaligned(b))
}

/// `bytemuck::bytes_of` gives the bytes of a `u32` as the machine stores it; with
/// the number put into little-endian order first, those are its little-endian
/// bytes on every machine.
#[verifier::external_body]
fn pod_bytes_of_u32(v: u32) -> (b: Vec<u8>)
    ensures
        b@ == u32_bytes(v),
{
    bytemuck::bytes_of(&v.to_le()).to_vec()
}

/// The number that the four bytes at `at` hold in this order.
pub fn read_u32_in(order: ByteOrder, b: &[u8], at: usize) -> (v: u32)
    requires
        at + 4 <= b@.len(),
    ensures
        v == u32_in(order, b@.subrange(at as int, at + 4)),
{
    let len = b.len();
    assert(at + 4 <= len);
    match order {
        ByteOrder::Little => pod_read_u32(&b[at..at + 4]),
        ByteOrder::Big => {
            let flipped = [b[at + 3], b[at + 2], b[at + 1], b[at]];
            assert(flipped@ =~= seq![b[at + 3], b[at + 2], b[at + 1], b[at as int]]);
            pod_read_u32(&flipped)
        },
    }
}

/// The four bytes of a number in this order.
pub fn write_u32_in(order: ByteOrder, v: u32) -> (b: Vec<u8>)
    ensures
        b@ == u32_bytes_in(order, v),
{
    let b = pod_bytes_of_u32(v);
    match order {
        ByteOrder::Little => b,
        ByteOrder::Big => {
            let flipped = vec![b[3], b[2], b[1], b[0]];
            assert(flipped@ =~= u32_bytes(v).reverse());
            flipped
        },
    }
}

/// A record of a fixed number of bytes, made of numbers whose bytes stand in one order.
pub trait Record: Sized {
    /// The number of bytes.
    spec fn spec_len() -> nat;

    /// The bytes of the record.
    spec fn to_bytes(&self, order: ByteOrder) -> Seq<u8>;

    /// The record that the bytes describe.
    spec fn from_bytes(order: ByteOrder, b: Seq<u8>) -> Self;

    /// Every record has the same number of bytes, and is what its bytes describe in the order
    /// they were written in.
    proof fn round_trip(&self, order: ByteOrder)
        ensures
            self.to_bytes(order).len() == Self::spec_len(),
            Self::from_bytes(order, self.to_bytes(order)) == *self,
    ;

    /// The number of bytes.
    fn record_len() -> (n: usize)
        ensures
            n == Self::spec_len(),
    ;

    /// The bytes of the record.
    fn encode(&self, order: ByteOrder) -> (b: Vec<u8>)
        ensures
            b@ == self.to_bytes(order),
    ;

    /// The record that the bytes describe.
    fn decode(order: ByteOrder, b: &[u8]) -> (r: Self)
        requires
            b@.len() == Self::spec_len(),
        ensures
            r == Self::from_bytes(order, b@),
    ;
}

} // verus!
