//! Vertex-id and vertex-data types accepted by the graph, with their byte forms.

use vstd::bytes::{
    lemma_auto_spec_u32_to_from_le_bytes, lemma_auto_spec_u64_to_from_le_bytes,
    spec_u32_from_le_bytes, spec_u32_to_le_bytes, spec_u64_from_le_bytes, spec_u64_to_le_bytes,
};
use vstd::endian::{endianness, Endian};
use vstd::prelude::*;

use byteorder::ByteOrder;

verus! {

/// `b` is the host-endian byte form of `x`: little-endian on a
/// little-endian machine, big-endian on a big-endian one.
pub open spec fn is_native_u32(x: u32, b: Seq<u8>) -> bool {
    if endianness() is Little {
        b == spec_u32_to_le_bytes(x)
    } else {
        b == spec_u32_to_le_bytes(x).reverse()
    }
}

/// `b` is the host-endian byte form of `x`.
pub open spec fn is_native_u64(x: u64, b: Seq<u8>) -> bool {
    if endianness() is Little {
        b == spec_u64_to_le_bytes(x)
    } else {
        b == spec_u64_to_le_bytes(x).reverse()
    }
}

/// A byte string is the host-endian form of at most one `u32`.
pub proof fn lemma_native_u32_injective(x: u32, y: u32, b: Seq<u8>)
    requires
        is_native_u32(x, b),
        is_native_u32(y, b),
    ensures
        x == y,
{
    lemma_auto_spec_u32_to_from_le_bytes();
    if !(endianness() is Little) {
        assert(spec_u32_to_le_bytes(x) =~= b.reverse());
        assert(spec_u32_to_le_bytes(y) =~= b.reverse());
    }
    assert(spec_u32_to_le_bytes(x) == spec_u32_to_le_bytes(y));
    assert(spec_u32_to_le_bytes(x).len() == 4);
    assert(spec_u32_to_le_bytes(y).len() == 4);
    assert(spec_u32_from_le_bytes(spec_u32_to_le_bytes(x)) == x);
    assert(spec_u32_from_le_bytes(spec_u32_to_le_bytes(y)) == y);
}

/// A byte string is the host-endian form of at most one `u64`.
pub proof fn lemma_native_u64_injective(x: u64, y: u64, b: Seq<u8>)
    requires
        is_native_u64(x, b),
        is_native_u64(y, b),
    ensures
        x == y,
{
    lemma_auto_spec_u64_to_from_le_bytes();
    if !(endianness() is Little) {
        assert(spec_u64_to_le_bytes(x) =~= b.reverse());
        assert(spec_u64_to_le_bytes(y) =~= b.reverse());
    }
    assert(spec_u64_to_le_bytes(x) == spec_u64_to_le_bytes(y));
    assert(spec_u64_from_le_bytes(spec_u64_to_le_bytes(x)) == x);
    assert(spec_u64_from_le_bytes(spec_u64_to_le_bytes(y)) == y);
}

/// An unsigned integer type usable as a vertex id.
pub trait ValidGraphType: Copy + Sized {
    /// The id as a number.
    spec fn id(self) -> nat;

    /// The largest id the type can hold.
    spec fn max_id() -> nat;

    /// Number of bytes in the fixed-width byte form.
    spec fn byte_len() -> nat;

    /// `b` is a byte form of `x`.
    spec fn is_bytes_of(x: Self, b: Seq<u8>) -> bool;

    proof fn lemma_widths()
        ensures
            Self::max_id() <= u64::MAX,
            Self::byte_len() == 4 || Self::byte_len() == 8,
    ;

    proof fn lemma_id_in_range(x: Self)
        ensures
            x.id() <= Self::max_id(),
    ;

    /// Equal byte forms are forms of the same value: decoding what was
    /// encoded gives the value back.
    proof fn lemma_bytes_injective(x: Self, y: Self, b: Seq<u8>)
        requires
            Self::is_bytes_of(x, b),
            Self::is_bytes_of(y, b),
        ensures
            x == y,
    ;

    /// Width of the byte form.
    fn size() -> (r: usize)
        ensures
            r == Self::byte_len(),
    ;

    /// The id as an index, when it fits in `usize`.
    fn to_index(&self) -> (r: Option<usize>)
        ensures
            r matches Some(i) ==> i == self.id(),
            r is None <==> self.id() > usize::MAX,
    ;

    /// The id as an index.
    fn as_index(&self) -> (r: usize)
        requires
            self.id() <= usize::MAX,
        ensures
            r == self.id(),
    ;

    /// The value with id `x`, when the type can hold it.
    fn from_u64(x: u64) -> (r: Option<Self>)
        ensures
            r matches Some(v) ==> v.id() == x,
            r is None <==> x > Self::max_id(),
    ;

    /// Host-endian byte form.
    fn serialize(&self) -> (r: Vec<u8>)
        ensures
            r@.len() == Self::byte_len(),
            Self::is_bytes_of(*self, r@),
    ;

    /// Reads a value from the first `size()` bytes.
    fn from_bytes(bytes: &[u8]) -> (r: Self)
        requires
            bytes@.len() >= Self::byte_len(),
        ensures
            Self::is_bytes_of(r, bytes@.take(Self::byte_len() as int)),
    ;
}

/// Relies on `u32::to_ne_bytes`: the four bytes of `x` in host order.
#[verifier::external_body]
fn u32_ne_bytes(x: u32) -> (r: Vec<u8>)
    ensures
        r@.len() == 4,
        is_native_u32(x, r@),
{
    Vec::from(x.to_ne_bytes())
}

/// Relies on `u64::to_ne_bytes`: the eight bytes of `x` in host order.
#[verifier::external_body]
fn u64_ne_bytes(x: u64) -> (r: Vec<u8>)
    ensures
        r@.len() == 8,
        is_native_u64(x, r@),
{
    Vec::from(x.to_ne_bytes())
}

/// Relies on `u32::from_ne_bytes`: reads the first four bytes in host order.
#[verifier::external_body]
fn u32_from_ne(b: &[u8]) -> (r: u32)
    requires
        b@.len() >= 4,
    ensures
        is_native_u32(r, b@.take(4)),
{
    u32::from_ne_bytes([b[0], b[1], b[2], b[3]])
}

/// Relies on `u64::from_ne_bytes`: reads the first eight bytes in host order.
#[verifier::external_body]
fn u64_from_ne(b: &[u8]) -> (r: u64)
    requires
        b@.len() >= 8,
    ensures
        is_native_u64(r, b@.take(8)),
{
    u64::from_ne_bytes([b[0], b[1], b[2], b[3], b[4], b[5], b[6], b[7]])
}

impl ValidGraphType for u32 {
    open spec fn id(self) -> nat {
        self as nat
    }

    open spec fn max_id() -> nat {
        u32::MAX as nat
    }

    open spec fn byte_len() -> nat {
        4
    }

    open spec fn is_bytes_of(x: u32, b: Seq<u8>) -> bool {
        is_native_u32(x, b)
    }

    proof fn lemma_widths() {
    }

    proof fn lemma_id_in_range(x: u32) {
    }

    proof fn lemma_bytes_injective(x: u32, y: u32, b: Seq<u8>) {
        lemma_native_u32_injective(x, y, b);
    }

    fn size() -> (r: usize) {
        4
    }

    fn to_index(&self) -> (r: Option<usize>) {
        Some(*self as usize)
    }

    fn as_index(&self) -> (r: usize) {
        *self as usize
    }

    fn from_u64(x: u64) -> (r: Option<u32>) {
        if x <= u32::MAX as u64 {
            Some(x as u32)
        } else {
            None
        }
    }

    fn serialize(&self) -> (r: Vec<u8>) {
        u32_ne_bytes(*self)
    }

    fn from_bytes(bytes: &[u8]) -> (r: u32) {
        u32_from_ne(bytes)
    }
}

impl ValidGraphType for u64 {
    open spec fn id(self) -> nat {
        self as nat
    }

    open spec fn max_id() -> nat {
        u64::MAX as nat
    }

    open spec fn byte_len() -> nat {
        8
    }

    open spec fn is_bytes_of(x: u64, b: Seq<u8>) -> bool {
        is_native_u64(x, b)
    }

    proof fn lemma_widths() {
    }

    proof fn lemma_id_in_range(x: u64) {
    }

    proof fn lemma_bytes_injective(x: u64, y: u64, b: Seq<u8>) {
        lemma_native_u64_injective(x, y, b);
    }

    fn size() -> (r: usize) {
        8
    }

    fn to_index(&self) -> (r: Option<usize>) {
        if *self <= usize::MAX as u64 {
            Some(*self as usize)
        } else {
            None
        }
    }

    fn as_index(&self) -> (r: usize) {
        *self as usize
    }

    fn from_u64(x: u64) -> (r: Option<u64>) {
        Some(x)
    }

    fn serialize(&self) -> (r: Vec<u8>) {
        u64_ne_bytes(*self)
    }

    fn from_bytes(bytes: &[u8]) -> (r: u64) {
        u64_from_ne(bytes)
    }
}

/// The value stored at each vertex: copyable, with a default, a total order
/// and a fixed-width byte form.
pub trait GraphData: Copy + Sized {
    /// The order on values.
    spec fn le(self, other: Self) -> bool;

    /// Number of bytes in the fixed-width byte form.
    spec fn byte_len() -> nat;

    /// `b` is a byte form of `x`.
    spec fn is_bytes_of(x: Self, b: Seq<u8>) -> bool;

    /// The value that fresh vertices start with.
    spec fn spec_default() -> Self;

    proof fn lemma_reflexive(x: Self)
        ensures
            x.le(x),
    ;

    proof fn lemma_transitive(x: Self, y: Self, z: Self)
        requires
            x.le(y),
            y.le(z),
        ensures
            x.le(z),
    ;

    proof fn lemma_antisymmetric(x: Self, y: Self)
        requires
            x.le(y),
            y.le(x),
        ensures
            x == y,
    ;

    proof fn lemma_total(x: Self, y: Self)
        ensures
            x.le(y) || y.le(x),
    ;

    proof fn lemma_byte_len()
        ensures
            Self::byte_len() == 4 || Self::byte_len() == 8,
    ;

    /// Equal byte forms are forms of the same value.
    proof fn lemma_bytes_injective(x: Self, y: Self, b: Seq<u8>)
        requires
            Self::is_bytes_of(x, b),
            Self::is_bytes_of(y, b),
        ensures
            x == y,
    ;

    fn default_value() -> (r: Self)
        ensures
            r == Self::spec_default(),
    ;

    /// Strict comparison.
    fn less_than(&self, other: &Self) -> (r: bool)
        ensures
            r == (self.le(*other) && *self != *other),
    ;

    /// Appends the host-endian byte form of the value to `out`.
    fn write_self(&self, out: &mut Vec<u8>)
        ensures
            final(out)@.len() == old(out)@.len() + Self::byte_len(),
            final(out)@.take(old(out)@.len() as int) == old(out)@,
            Self::is_bytes_of(*self, final(out)@.skip(old(out)@.len() as int)),
    ;
}

/// Relies on `byteorder::NativeEndian::write_u32`: fills four bytes with `x`
/// in host order.
#[verifier::external_body]
fn u32_native_bytes(x: u32) -> (r: Vec<u8>)
    ensures
        r@.len() == 4,
        is_native_u32(x, r@),
{
    let mut buf = vec![0u8; 4];
    byteorder::NativeEndian::write_u32(&mut buf, x);
    buf
}

/// Relies on `byteorder::NativeEndian::write_u64`: fills eight bytes with `x`
/// in host order.
#[verifier::external_body]
fn u64_native_bytes(x: u64) -> (r: Vec<u8>)
    ensures
        r@.len() == 8,
        is_native_u64(x, r@),
{
    let mut buf = vec![0u8; 8];
    byteorder::NativeEndian::write_u64(&mut buf, x);
    buf
}

/// Appends `b` to `out`.
fn append_bytes(out: &mut Vec<u8>, b: &Vec<u8>)
    ensures
        final(out)@ == old(out)@ + b@,
{
    let mut i: usize = 0;
    while i < b.len()
        invariant
            0 <= i <= b@.len(),
            out@ == old(out)@ + b@.take(i as int),
        decreases b@.len() - i,
    {
        out.push(b[i]);
        i = i + 1;
        assert(b@.take(i as int) == b@.take(i - 1 as int).push(b@[i - 1 as int]));
    }
    assert(b@.take(b@.len() as int) == b@);
}

impl GraphData for u32 {
    open spec fn le(self, other: u32) -> bool {
        self <= other
    }

    open spec fn byte_len() -> nat {
        4
    }

    open spec fn is_bytes_of(x: u32, b: Seq<u8>) -> bool {
        is_native_u32(x, b)
    }

    open spec fn spec_default() -> u32 {
        0
    }

    proof fn lemma_reflexive(x: u32) {
    }

    proof fn lemma_transitive(x: u32, y: u32, z: u32) {
    }

    proof fn lemma_antisymmetric(x: u32, y: u32) {
    }

    proof fn lemma_total(x: u32, y: u32) {
    }

    proof fn lemma_byte_len() {
    }

    proof fn lemma_bytes_injective(x: u32, y: u32, b: Seq<u8>) {
        lemma_native_u32_injective(x, y, b);
    }

    fn default_value() -> (r: u32) {
        0
    }

    fn less_than(&self, other: &u32) -> (r: bool) {
        *self < *other
    }

    fn write_self(&self, out: &mut Vec<u8>) {
        let b = u32_native_bytes(*self);
        let ghost n = out@.len();
        append_bytes(out, &b);
        assert(out@.take(n as int) =~= old(out)@);
        assert(out@.skip(n as int) =~= b@);
    }
}

impl GraphData for u64 {
    open spec fn le(self, other: u64) -> bool {
        self <= other
    }

    open spec fn byte_len() -> nat {
        8
    }

    open spec fn is_bytes_of(x: u64, b: Seq<u8>) -> bool {
        is_native_u64(x, b)
    }

    open spec fn spec_default() -> u64 {
        0
    }

    proof fn lemma_reflexive(x: u64) {
    }

    proof fn lemma_transitive(x: u64, y: u64, z: u64) {
    }

    proof fn lemma_antisymmetric(x: u64, y: u64) {
    }

    proof fn lemma_total(x: u64, y: u64) {
    }

    proof fn lemma_byte_len() {
    }

    proof fn lemma_bytes_injective(x: u64, y: u64, b: Seq<u8>) {
        lemma_native_u64_injective(x, y, b);
    }

    fn default_value() -> (r: u64) {
        0
    }

    fn less_than(&self, other: &u64) -> (r: bool) {
        *self < *other
    }

    fn write_self(&self, out: &mut Vec<u8>) {
        let b = u64_native_bytes(*self);
        let ghost n = out@.len();
        append_bytes(out, &b);
        assert(out@.take(n as int) =~= old(out)@);
        assert(out@.skip(n as int) =~= b@);
    }
}

} // verus!
