//! The binary encoding: integers of variable and of fixed length, text, and
//! objects made of numbered fields.
//!
//! What is written is a function from values to bytes. What is read is a
//! function from the bytes that are left to a value and the bytes after it, or
//! to an error.

use vstd::prelude::*;
use vstd::slice::slice_subrange;
use vstd::utf8::decode_utf8;
use vstd::utf8::encode_utf8;
use vstd::utf8::valid_utf8;

use crate::errors::QuackError;
use crate::errors::QuackErrorView;
use crate::text::decimal;
use crate::text::decimal_text;
use crate::text::joined;

verus! {

/// A signed integer of 128 bits in two parts.
#[derive(Clone, Copy, Debug, PartialEq, Eq, Structural)]
pub struct HugeIntParts {
    pub upper: i64,
    pub lower: u64,
}

/// The field number that ends an object.
pub const END_OF_OBJECT: u16 = 0xffff;

/// The most bytes of an integer of variable length.
pub const MAX_VARINT_BYTES: usize = 10;

/// What reading comes to: a value and the bytes after it, or an error.
pub type ReadResult<T> = Result<(T, Seq<u8>), QuackErrorView>;

/// Whether reading did what it should: it gave the value and left the bytes
/// after it, or it failed with the error.
pub open spec fn reads<T>(
    outcome: Result<T, QuackError>,
    after: Seq<u8>,
    expected: ReadResult<T>,
) -> bool {
    match outcome {
        Ok(value) => expected == Ok::<(T, Seq<u8>), QuackErrorView>((value, after)),
        Err(error) => expected == Err::<(T, Seq<u8>), QuackErrorView>(error@),
    }
}

/// As `reads`, for a value that is seen by its view.
pub open spec fn reads_view<T: View>(
    outcome: Result<T, QuackError>,
    after: Seq<u8>,
    expected: ReadResult<T::V>,
) -> bool {
    match outcome {
        Ok(value) => expected == Ok::<(T::V, Seq<u8>), QuackErrorView>((value@, after)),
        Err(error) => expected == Err::<(T::V, Seq<u8>), QuackErrorView>(error@),
    }
}

/// The error of bytes that end too early.
pub open spec fn end_of_input() -> QuackErrorView {
    QuackErrorView::Protocol("unexpected end of input"@)
}

/// The error of an integer that takes more bytes than any does.
pub open spec fn varint_too_long() -> QuackErrorView {
    QuackErrorView::Protocol("variable-length integer is too long"@)
}

/// The error of an integer that its type does not hold.
pub open spec fn out_of_range() -> QuackErrorView {
    QuackErrorView::Protocol("integer is out of range"@)
}

// ---------------------------------------------------------------------------
// What is written
// ---------------------------------------------------------------------------
/// A natural number in groups of seven bits, the lowest first; each byte but
/// the last has its high bit set.
pub open spec fn uleb(n: nat) -> Seq<u8>
    decreases n,
{
    if n < 128 {
        seq![n as u8]
    } else {
        seq![(n % 128 + 128) as u8] + uleb(n / 128)
    }
}

/// A whole number in groups of seven bits, the lowest first; the second highest
/// bit of the last byte is the sign.
pub open spec fn sleb(n: int) -> Seq<u8>
    decreases (if n < 0 {
        -n
    } else {
        n
    }),
{
    if -64 <= n < 64 {
        seq![(n % 128) as u8]
    } else {
        seq![(n % 128 + 128) as u8] + sleb(n / 128)
    }
}

/// A whole number in a fixed number of bytes, the lowest first, in two's
/// complement.
pub open spec fn fixed(n: int, width: nat) -> Seq<u8>
    decreases width,
{
    if width == 0 {
        seq![]
    } else {
        seq![(n % 256) as u8] + fixed(n / 256, (width - 1) as nat)
    }
}

/// A truth value.
pub open spec fn flag(b: bool) -> Seq<u8> {
    seq![if b { 1u8 } else { 0u8 }]
}

/// Bytes, after their number.
pub open spec fn blob(bytes: Seq<u8>) -> Seq<u8> {
    uleb(bytes.len()) + bytes
}

/// Text, as bytes of UTF-8.
pub open spec fn text_blob(text: Seq<char>) -> Seq<u8> {
    blob(encode_utf8(text))
}

/// The number of a field.
pub open spec fn field_id(id: u16) -> Seq<u8> {
    fixed(id as int, 2)
}

/// What ends an object.
pub open spec fn object_end() -> Seq<u8> {
    field_id(END_OF_OBJECT)
}

/// Both parts of a huge integer.
pub open spec fn huge_int_bytes(parts: HugeIntParts) -> Seq<u8> {
    sleb(parts.upper as int) + uleb(parts.lower as nat)
}

// ---------------------------------------------------------------------------
// What is read
// ---------------------------------------------------------------------------
/// A natural number at the front of some bytes, of so many bytes at most.
pub open spec fn uleb_at(b: Seq<u8>, most: nat) -> ReadResult<nat>
    decreases most,
{
    if b.len() == 0 {
        Err(end_of_input())
    } else if most == 0 {
        Err(varint_too_long())
    } else if b[0] < 128 {
        Ok((b[0] as nat, b.skip(1)))
    } else {
        match uleb_at(b.skip(1), (most - 1) as nat) {
            Ok((high, rest)) => Ok(((b[0] - 128 + 128 * high) as nat, rest)),
            Err(error) => Err(error),
        }
    }
}

/// A whole number at the front of some bytes, of so many bytes at most.
pub open spec fn sleb_at(b: Seq<u8>, most: nat) -> ReadResult<int>
    decreases most,
{
    if b.len() == 0 {
        Err(end_of_input())
    } else if most == 0 {
        Err(varint_too_long())
    } else if b[0] < 128 {
        Ok((if b[0] < 64 { b[0] as int } else { b[0] - 128 }, b.skip(1)))
    } else {
        match sleb_at(b.skip(1), (most - 1) as nat) {
            Ok((high, rest)) => Ok((b[0] - 128 + 128 * high, rest)),
            Err(error) => Err(error),
        }
    }
}

/// An unsigned integer of variable length.
pub open spec fn read_uleb(b: Seq<u8>) -> ReadResult<u64> {
    match uleb_at(b, MAX_VARINT_BYTES as nat) {
        Ok((n, rest)) => if n <= u64::MAX {
            Ok((n as u64, rest))
        } else {
            Err(out_of_range())
        },
        Err(error) => Err(error),
    }
}

/// A signed integer of variable length.
pub open spec fn read_sleb(b: Seq<u8>) -> ReadResult<i64> {
    match sleb_at(b, MAX_VARINT_BYTES as nat) {
        Ok((n, rest)) => if i64::MIN <= n <= i64::MAX {
            Ok((n as i64, rest))
        } else {
            Err(out_of_range())
        },
        Err(error) => Err(error),
    }
}

/// Bytes read as an unsigned number, the lowest first.
pub open spec fn unsigned_value(s: Seq<u8>) -> nat
    decreases s.len(),
{
    if s.len() == 0 {
        0
    } else {
        s[0] as nat + 256 * unsigned_value(s.skip(1))
    }
}

/// Bytes read as a signed number in two's complement, the lowest first.
pub open spec fn signed_value(s: Seq<u8>) -> int
    decreases s.len(),
{
    if s.len() == 0 {
        0
    } else if s.len() == 1 {
        if s[0] < 128 {
            s[0] as int
        } else {
            s[0] - 256
        }
    } else {
        s[0] + 256 * signed_value(s.skip(1))
    }
}

/// The next bytes.
pub open spec fn read_bytes(b: Seq<u8>, count: nat) -> ReadResult<Seq<u8>> {
    if b.len() < count {
        Err(end_of_input())
    } else {
        Ok((b.take(count as int), b.skip(count as int)))
    }
}

/// A truth value: any byte but zero is true.
pub open spec fn read_flag(b: Seq<u8>) -> ReadResult<bool> {
    if b.len() == 0 {
        Err(end_of_input())
    } else {
        Ok((b[0] != 0, b.skip(1)))
    }
}

/// Bytes, after their number.
pub open spec fn read_blob(b: Seq<u8>) -> ReadResult<Seq<u8>> {
    match read_uleb(b) {
        Ok((count, rest)) => read_bytes(rest, count as nat),
        Err(error) => Err(error),
    }
}

/// What is said of bytes that are not UTF-8. The text is that of
/// `std::string::FromUtf8Error`.
pub uninterp spec fn utf8_error_text(bytes: Seq<u8>) -> Seq<char>;

/// Text.
pub open spec fn read_text(b: Seq<u8>) -> ReadResult<Seq<char>> {
    match read_blob(b) {
        Ok((bytes, rest)) => if valid_utf8(bytes) {
            Ok((decode_utf8(bytes), rest))
        } else {
            Err(QuackErrorView::Utf8(utf8_error_text(bytes)))
        },
        Err(error) => Err(error),
    }
}

/// The number of a field.
pub open spec fn read_field_id(b: Seq<u8>) -> ReadResult<u16> {
    match read_bytes(b, 2) {
        Ok((bytes, rest)) => Ok((unsigned_value(bytes) as u16, rest)),
        Err(error) => Err(error),
    }
}

/// The number of one certain field.
pub open spec fn expect_field(b: Seq<u8>, id: u16) -> ReadResult<()> {
    match read_field_id(b) {
        Ok((found, rest)) => if found == id {
            Ok(((), rest))
        } else {
            Err(
                QuackErrorView::Protocol(
                    "expected field "@ + decimal(id as nat) + ", got "@ + decimal(found as nat),
                ),
            )
        },
        Err(error) => Err(error),
    }
}

/// Whether one certain field comes next.
pub open spec fn has_field(b: Seq<u8>, id: u16) -> bool {
    b.len() >= 2 && unsigned_value(b.take(2)) == id
}

/// The end of an object.
pub open spec fn expect_end(b: Seq<u8>) -> ReadResult<()> {
    match read_field_id(b) {
        Ok((found, rest)) => if found == END_OF_OBJECT {
            Ok(((), rest))
        } else {
            Err(
                QuackErrorView::Protocol(
                    "expected end of object, got field "@ + decimal(found as nat),
                ),
            )
        },
        Err(error) => Err(error),
    }
}

/// Both parts of a huge integer.
pub open spec fn read_huge_int(b: Seq<u8>) -> ReadResult<HugeIntParts> {
    match read_sleb(b) {
        Ok((upper, rest)) => match read_uleb(rest) {
            Ok((lower, rest)) => Ok((HugeIntParts { upper, lower }, rest)),
            Err(error) => Err(error),
        },
        Err(error) => Err(error),
    }
}

// ---------------------------------------------------------------------------
// Writing
// ---------------------------------------------------------------------------
/// A growing sequence of bytes.
#[derive(Debug)]
pub struct BinaryWriter {
    bytes: Vec<u8>,
}

impl View for BinaryWriter {
    type V = Seq<u8>;

    closed spec fn view(&self) -> Seq<u8> {
        self.bytes@
    }
}

/// What a number leaves when its lowest group of bits is taken off, and that
/// group.
fn split_low(n: i128, base: i128) -> (parts: (i128, u8))
    requires
        base == 128 || base == 256,
    ensures
        parts.0 == n as int / base as int,
        parts.1 == n as int % base as int,
{
    if n >= 0 {
        (n / base, (n % base) as u8)
    } else {
        let m: i128 = -(n + 1);
        let high: i128 = -(m / base) - 1;
        let low: i128 = base - 1 - m % base;
        proof {
            assert(n == base * high + low) by (nonlinear_arith)
                requires
                    m == -(n + 1),
                    high == -(m / base) - 1,
                    low == base - 1 - m % base,
                    base > 0,
            ;
            vstd::arithmetic::div_mod::lemma_fundamental_div_mod_converse(
                n as int,
                base as int,
                high as int,
                low as int,
            );
        }
        (high, low as u8)
    }
}

impl BinaryWriter {
    pub fn new() -> (writer: Self)
        ensures
            writer@ == Seq::<u8>::empty(),
    {
        BinaryWriter { bytes: Vec::new() }
    }

    /// The bytes that were written.
    pub fn into_bytes(self) -> (bytes: Vec<u8>)
        ensures
            bytes@ == self@,
    {
        self.bytes
    }

    /// Writes bytes as they are.
    pub fn write_raw(&mut self, bytes: &[u8])
        ensures
            final(self)@ == old(self)@ + bytes@,
    {
        let count: usize = bytes.len();
        for i in 0..count
            invariant
                count == bytes@.len(),
                self@ == old(self)@ + bytes@.take(i as int),
        {
            self.bytes.push(bytes[i]);
            assert(bytes@.take(i + 1) =~= bytes@.take(i as int).push(bytes@[i as int]));
        }
        assert(bytes@.take(count as int) =~= bytes@);
    }

    pub fn write_bool(&mut self, b: bool)
        ensures
            final(self)@ == old(self)@ + flag(b),
    {
        self.bytes.push(
            if b {
                1
            } else {
                0
            },
        );
    }

    /// Writes an unsigned integer of variable length.
    pub fn write_uleb(&mut self, n: u64)
        ensures
            final(self)@ == old(self)@ + uleb(n as nat),
        decreases n,
    {
        if n < 128 {
            self.bytes.push(n as u8);
        } else {
            self.bytes.push((n % 128 + 128) as u8);
            self.write_uleb(n / 128);
        }
    }

    fn write_sleb_wide(&mut self, n: i128)
        ensures
            final(self)@ == old(self)@ + sleb(n as int),
        decreases (if n < 0 {
            -(n as int)
        } else {
            n as int
        }),
    {
        let (high, low) = split_low(n, 128);
        if -64 <= n && n < 64 {
            self.bytes.push(low);
        } else {
            self.bytes.push(low + 128);
            self.write_sleb_wide(high);
        }
    }

    /// Writes a signed integer of variable length.
    pub fn write_sleb(&mut self, n: i64)
        ensures
            final(self)@ == old(self)@ + sleb(n as int),
    {
        self.write_sleb_wide(n as i128);
    }

    /// Writes a signed integer of fixed length.
    pub fn write_fixed(&mut self, n: i128, width: usize)
        ensures
            final(self)@ == old(self)@ + fixed(n as int, width as nat),
        decreases width,
    {
        if width > 0 {
            let (high, low) = split_low(n, 256);
            self.bytes.push(low);
            self.write_fixed(high, width - 1);
        }
    }

    /// Writes bytes after their number.
    pub fn write_blob(&mut self, bytes: &[u8])
        ensures
            final(self)@ == old(self)@ + blob(bytes@),
    {
        self.write_uleb(bytes.len() as u64);
        self.write_raw(bytes);
    }

    /// Writes text.
    pub fn write_string(&mut self, text: &str)
        ensures
            final(self)@ == old(self)@ + text_blob(text@),
    {
        self.write_blob(text.as_bytes());
    }

    pub fn write_huge_int_parts(&mut self, parts: HugeIntParts)
        ensures
            final(self)@ == old(self)@ + huge_int_bytes(parts),
    {
        self.write_sleb(parts.upper);
        self.write_uleb(parts.lower);
    }

    /// Begins a field of an object.
    pub fn write_field(&mut self, id: u16)
        ensures
            final(self)@ == old(self)@ + field_id(id),
    {
        self.write_fixed(id as i128, 2);
    }

    /// Ends an object.
    pub fn end_object(&mut self)
        ensures
            final(self)@ == old(self)@ + object_end(),
    {
        self.write_field(END_OF_OBJECT);
    }
}

// ---------------------------------------------------------------------------
// Reading
// ---------------------------------------------------------------------------
/// The bytes that are left to read.
#[derive(Debug)]
pub struct BinaryReader<'a> {
    rest: &'a [u8],
}

impl<'a> View for BinaryReader<'a> {
    type V = Seq<u8>;

    closed spec fn view(&self) -> Seq<u8> {
        self.rest@
    }
}

/// Bytes as text.
///
/// Calls `std::string::String::from_utf8`, which gives the text if the bytes
/// are UTF-8, and otherwise an error whose text depends on the bytes alone.
#[verifier::external_body]
fn text_from_utf8(bytes: Vec<u8>) -> (text: Result<String, String>)
    ensures
        match text {
            Ok(text) => valid_utf8(bytes@) && text@ == decode_utf8(bytes@),
            Err(error) => !valid_utf8(bytes@) && error@ == utf8_error_text(bytes@),
        },
{
    String::from_utf8(bytes).map_err(|error| error.to_string())
}

/// A power of 256.
pub open spec fn pow256(n: nat) -> nat
    decreases n,
{
    if n == 0 {
        1
    } else {
        256 * pow256((n - 1) as nat)
    }
}

/// A power of 128.
pub open spec fn pow128(n: nat) -> nat
    decreases n,
{
    if n == 0 {
        1
    } else {
        128 * pow128((n - 1) as nat)
    }
}

proof fn lemma_pow128_bound(n: nat)
    requires
        n <= 10,
    ensures
        1 <= pow128(n) <= 0x40_0000_0000_0000_0000,
    decreases n,
{
    reveal_with_fuel(pow128, 11);
}

proof fn lemma_pow256_bound(n: nat)
    requires
        n <= 16,
    ensures
        1 <= pow256(n) <= 0x1_0000_0000_0000_0000_0000_0000_0000_0000,
        n <= 15 ==> pow256(n) <= 0x1_0000_0000_0000_0000_0000_0000_0000_00,
        n > 0 ==> pow256(n) % 256 == 0,
    decreases n,
{
    if n > 0 {
        lemma_pow256_bound((n - 1) as nat);
    }
    reveal_with_fuel(pow256, 17);
}

proof fn lemma_uleb_at_bound(b: Seq<u8>, most: nat)
    ensures
        uleb_at(b, most) matches Ok((n, rest)) ==> n < pow128(most),
    decreases most,
{
    if b.len() > 0 && most > 0 && b[0] >= 128 {
        lemma_uleb_at_bound(b.skip(1), (most - 1) as nat);
    }
    if most > 0 {
        lemma_pow128_positive((most - 1) as nat);
    }
}

proof fn lemma_pow128_positive(n: nat)
    ensures
        pow128(n) >= 1,
    decreases n,
{
    if n > 0 {
        lemma_pow128_positive((n - 1) as nat);
    }
}

proof fn lemma_sleb_at_bound(b: Seq<u8>, most: nat)
    ensures
        sleb_at(b, most) matches Ok((n, rest)) ==> -pow128(most) <= n < pow128(most),
    decreases most,
{
    if b.len() > 0 && most > 0 && b[0] >= 128 {
        lemma_sleb_at_bound(b.skip(1), (most - 1) as nat);
    }
    if most > 0 {
        lemma_pow128_positive((most - 1) as nat);
    }
}

proof fn lemma_signed_value_bound(s: Seq<u8>)
    ensures
        s.len() > 0 ==> -pow256(s.len()) <= 2 * signed_value(s) < pow256(s.len()),
    decreases s.len(),
{
    if s.len() == 1 {
        assert(pow256(0) == 1);
        assert(pow256(1) == 256 * pow256(0));
    } else if s.len() > 1 {
        let rest = s.skip(1);
        lemma_signed_value_bound(rest);
        let high = signed_value(rest);
        let limit = pow256(rest.len());
        assert(limit == 256 * pow256((rest.len() - 1) as nat));
        assert(pow256(s.len()) == 256 * limit);
        assert(signed_value(s) == s[0] + 256 * high);
    }
}

impl<'a> BinaryReader<'a> {
    pub fn new(bytes: &'a [u8]) -> (reader: Self)
        ensures
            reader@ == bytes@,
    {
        BinaryReader { rest: bytes }
    }

    /// Whether nothing is left to read.
    pub fn is_at_end(&self) -> (end: bool)
        ensures
            end == (self@.len() == 0),
    {
        self.rest.len() == 0
    }

    /// How many bytes are left to read.
    pub fn remaining(&self) -> (count: usize)
        ensures
            count == self@.len(),
    {
        self.rest.len()
    }

    /// Accepts that nothing is left to read.
    pub fn assert_eof(&self) -> (result: Result<(), QuackError>)
        ensures
            match result {
                Ok(_) => self@.len() == 0,
                Err(error) => self@.len() > 0 && error@ == trailing_bytes(self@.len()),
            },
    {
        if self.rest.len() == 0 {
            Ok(())
        } else {
            Err(
                QuackError::Protocol(
                    joined(
                        decimal_text(self.rest.len() as u128).as_str(),
                        " bytes are left after the end",
                    ),
                ),
            )
        }
    }

    fn advance(&mut self, count: usize)
        requires
            count <= old(self)@.len(),
        ensures
            final(self)@ == old(self)@.skip(count as int),
    {
        self.rest = slice_subrange(self.rest, count, self.rest.len());
    }

    fn at_end_error() -> (error: QuackError)
        ensures
            error@ == end_of_input(),
    {
        QuackError::protocol("unexpected end of input")
    }

    /// Reads some bytes as they are.
    pub fn read_raw(&mut self, count: u64) -> (bytes: Result<Vec<u8>, QuackError>)
        ensures
            reads_view(bytes, final(self)@, read_bytes(old(self)@, count as nat)),
    {
        if (self.rest.len() as u64) < count {
            return Err(Self::at_end_error());
        }
        let mut bytes: Vec<u8> = Vec::new();
        for i in 0..count as usize
            invariant
                count <= self.rest@.len(),
                bytes@ == self.rest@.take(i as int),
        {
            bytes.push(self.rest[i]);
            assert(self.rest@.take(i + 1) =~= self.rest@.take(i as int).push(
                self.rest@[i as int],
            ));
        }
        self.advance(count as usize);
        Ok(bytes)
    }

    pub fn read_bool(&mut self) -> (b: Result<bool, QuackError>)
        ensures
            reads(b, final(self)@, read_flag(old(self)@)),
    {
        if self.rest.len() == 0 {
            return Err(Self::at_end_error());
        }
        let b = self.rest[0] != 0;
        self.advance(1);
        Ok(b)
    }

    fn read_uleb_wide(&mut self, most: usize) -> (n: Result<u128, QuackError>)
        requires
            most <= MAX_VARINT_BYTES,
        ensures
            match n {
                Ok(n) => uleb_at(old(self)@, most as nat) == Ok::<(nat, Seq<u8>), QuackErrorView>(
                    (n as nat, final(self)@),
                ),
                Err(error) => uleb_at(old(self)@, most as nat) == Err::<
                    (nat, Seq<u8>),
                    QuackErrorView,
                >(error@),
            },
        decreases most,
    {
        if self.rest.len() == 0 {
            return Err(Self::at_end_error());
        }
        if most == 0 {
            return Err(QuackError::protocol("variable-length integer is too long"));
        }
        let low: u8 = self.rest[0];
        self.advance(1);
        if low < 128 {
            return Ok(low as u128);
        }
        proof {
            lemma_uleb_at_bound(self@, (most - 1) as nat);
            lemma_pow128_bound((most - 1) as nat);
        }
        match self.read_uleb_wide(most - 1) {
            Ok(high) => Ok((low - 128) as u128 + 128 * high),
            Err(error) => Err(error),
        }
    }

    fn read_sleb_wide(&mut self, most: usize) -> (n: Result<i128, QuackError>)
        requires
            most <= MAX_VARINT_BYTES,
        ensures
            match n {
                Ok(n) => sleb_at(old(self)@, most as nat) == Ok::<(int, Seq<u8>), QuackErrorView>(
                    (n as int, final(self)@),
                ),
                Err(error) => sleb_at(old(self)@, most as nat) == Err::<
                    (int, Seq<u8>),
                    QuackErrorView,
                >(error@),
            },
        decreases most,
    {
        if self.rest.len() == 0 {
            return Err(Self::at_end_error());
        }
        if most == 0 {
            return Err(QuackError::protocol("variable-length integer is too long"));
        }
        let low: u8 = self.rest[0];
        self.advance(1);
        if low < 64 {
            return Ok(low as i128);
        }
        if low < 128 {
            return Ok(low as i128 - 128);
        }
        proof {
            lemma_sleb_at_bound(self@, (most - 1) as nat);
            lemma_pow128_bound((most - 1) as nat);
        }
        match self.read_sleb_wide(most - 1) {
            Ok(high) => Ok((low - 128) as i128 + 128 * high),
            Err(error) => Err(error),
        }
    }

    /// Reads an unsigned integer of variable length.
    pub fn read_uleb_u64(&mut self) -> (n: Result<u64, QuackError>)
        ensures
            reads(n, final(self)@, read_uleb(old(self)@)),
    {
        match self.read_uleb_wide(MAX_VARINT_BYTES) {
            Ok(n) => if n <= u64::MAX as u128 {
                Ok(n as u64)
            } else {
                Err(QuackError::protocol("integer is out of range"))
            },
            Err(error) => Err(error),
        }
    }

    /// Reads a signed integer of variable length.
    pub fn read_sleb_i64(&mut self) -> (n: Result<i64, QuackError>)
        ensures
            reads(n, final(self)@, read_sleb(old(self)@)),
    {
        match self.read_sleb_wide(MAX_VARINT_BYTES) {
            Ok(n) => if i64::MIN as i128 <= n && n <= i64::MAX as i128 {
                Ok(n as i64)
            } else {
                Err(QuackError::protocol("integer is out of range"))
            },
            Err(error) => Err(error),
        }
    }

    /// Reads bytes after their number.
    pub fn read_blob(&mut self) -> (bytes: Result<Vec<u8>, QuackError>)
        ensures
            reads_view(bytes, final(self)@, read_blob(old(self)@)),
    {
        match self.read_uleb_u64() {
            Ok(count) => self.read_raw(count),
            Err(error) => Err(error),
        }
    }

    /// Reads text.
    pub fn read_string(&mut self) -> (text: Result<String, QuackError>)
        ensures
            reads_view(text, final(self)@, read_text(old(self)@)),
    {
        match self.read_blob() {
            Ok(bytes) => match text_from_utf8(bytes) {
                Ok(text) => Ok(text),
                Err(error) => Err(QuackError::Utf8(error)),
            },
            Err(error) => Err(error),
        }
    }

    pub fn read_huge_int_parts(&mut self) -> (parts: Result<HugeIntParts, QuackError>)
        ensures
            reads(parts, final(self)@, read_huge_int(old(self)@)),
    {
        match self.read_sleb_i64() {
            Ok(upper) => match self.read_uleb_u64() {
                Ok(lower) => Ok(HugeIntParts { upper, lower }),
                Err(error) => Err(error),
            },
            Err(error) => Err(error),
        }
    }

    fn read_field_number(&mut self) -> (id: Result<u16, QuackError>)
        ensures
            reads(id, final(self)@, read_field_id(old(self)@)),
    {
        if self.rest.len() < 2 {
            return Err(Self::at_end_error());
        }
        let id: u16 = self.rest[0] as u16 + 256 * self.rest[1] as u16;
        proof {
            lemma_unsigned_pair(self@);
        }
        self.advance(2);
        Ok(id)
    }

    /// Reads the number of a field that must come next.
    pub fn read_required_field(&mut self, id: u16) -> (result: Result<(), QuackError>)
        ensures
            reads(result, final(self)@, expect_field(old(self)@, id)),
    {
        match self.read_field_number() {
            Ok(found) => if found == id {
                Ok(())
            } else {
                Err(
                    QuackError::Protocol(
                        joined(
                            joined(
                                joined("expected field ", decimal_text(id as u128).as_str()).as_str(),
                                ", got ",
                            ).as_str(),
                            decimal_text(found as u128).as_str(),
                        ),
                    ),
                )
            },
            Err(error) => Err(error),
        }
    }

    /// Reads the number of a field if it comes next.
    pub fn read_optional_field(&mut self, id: u16) -> (found: bool)
        ensures
            found == has_field(old(self)@, id),
            final(self)@ == if found {
                old(self)@.skip(2)
            } else {
                old(self)@
            },
    {
        if self.rest.len() < 2 {
            return false;
        }
        let next: u16 = self.rest[0] as u16 + 256 * self.rest[1] as u16;
        proof {
            lemma_unsigned_pair(self@);
        }
        if next != id {
            return false;
        }
        self.advance(2);
        true
    }

    /// Reads the end of an object.
    pub fn read_object_end(&mut self) -> (result: Result<(), QuackError>)
        ensures
            reads(result, final(self)@, expect_end(old(self)@)),
    {
        match self.read_field_number() {
            Ok(found) => if found == END_OF_OBJECT {
                Ok(())
            } else {
                Err(
                    QuackError::Protocol(
                        joined(
                            "expected end of object, got field ",
                            decimal_text(found as u128).as_str(),
                        ),
                    ),
                )
            },
            Err(error) => Err(error),
        }
    }
}

/// The error of bytes that go on after what they should hold.
pub open spec fn trailing_bytes(count: nat) -> QuackErrorView {
    QuackErrorView::Protocol(decimal(count) + " bytes are left after the end"@)
}

proof fn lemma_unsigned_pair(b: Seq<u8>)
    requires
        b.len() >= 2,
    ensures
        unsigned_value(b.take(2)) == b[0] + 256 * b[1],
{
    let pair = b.take(2);
    reveal_with_fuel(unsigned_value, 3);
    assert(pair.skip(1)[0] == b[1]);
    assert(pair.skip(1).skip(1).len() == 0);
}

/// An unsigned number of fixed length, of no more than eight bytes.
pub(crate) fn unsigned_number(bytes: &[u8]) -> (n: u64)
    requires
        bytes@.len() <= 8,
    ensures
        n == unsigned_value(bytes@),
        n < pow256(bytes@.len()),
    decreases bytes@.len(),
{
    if bytes.len() == 0 {
        return 0;
    }
    let high: u64 = unsigned_number(slice_subrange(bytes, 1, bytes.len()));
    assert(bytes@.subrange(1, bytes@.len() as int) =~= bytes@.skip(1));
    assert(pow256((bytes@.len() - 1) as nat) <= 0x100_0000_0000_0000) by {
        reveal_with_fuel(pow256, 9);
    }
    bytes[0] as u64 + 256 * high
}

/// A signed number of fixed length, of no more than sixteen bytes.
pub(crate) fn signed_number(bytes: &[u8]) -> (n: i128)
    requires
        bytes@.len() <= 16,
    ensures
        n == signed_value(bytes@),
    decreases bytes@.len(),
{
    if bytes.len() == 0 {
        return 0;
    }
    if bytes.len() == 1 {
        return if bytes[0] < 128 {
            bytes[0] as i128
        } else {
            bytes[0] as i128 - 256
        };
    }
    let high: i128 = signed_number(slice_subrange(bytes, 1, bytes.len()));
    proof {
        assert(bytes@.subrange(1, bytes@.len() as int) =~= bytes@.skip(1));
        lemma_signed_value_bound(bytes@.skip(1));
        lemma_pow256_bound((bytes@.len() - 1) as nat);
    }
    bytes[0] as i128 + 256 * high
}

// ---------------------------------------------------------------------------
// What is written is read back
// ---------------------------------------------------------------------------
/// A natural number is read back, and what follows it is left.
pub proof fn lemma_uleb_at(n: nat, rest: Seq<u8>, most: nat)
    requires
        most > 0,
        n < pow128(most),
    ensures
        uleb_at(uleb(n) + rest, most) == Ok::<(nat, Seq<u8>), QuackErrorView>((n, rest)),
        uleb(n).len() >= 1,
    decreases n,
{
    let b = uleb(n) + rest;
    if n < 128 {
        assert(b.skip(1) =~= rest);
    } else {
        assert(pow128(1) == 128 * pow128(0));
        lemma_uleb_at(n / 128, rest, (most - 1) as nat);
        assert(b.skip(1) =~= uleb(n / 128) + rest);
        assert(b[0] == (n % 128 + 128) as u8);
    }
}

/// A whole number is read back, and what follows it is left.
pub proof fn lemma_sleb_at(n: int, rest: Seq<u8>, most: nat)
    requires
        most > 0,
        -pow128(most) <= 2 * n < pow128(most),
    ensures
        sleb_at(sleb(n) + rest, most) == Ok::<(int, Seq<u8>), QuackErrorView>((n, rest)),
    decreases (if n < 0 {
        -n
    } else {
        n
    }),
{
    let b = sleb(n) + rest;
    if -64 <= n < 64 {
        assert(b.skip(1) =~= rest);
        assert(b[0] == (n % 128) as u8);
    } else {
        assert(pow128(most) == 128 * pow128((most - 1) as nat));
        assert(pow128(1) == 128 * pow128(0));
        lemma_sleb_at(n / 128, rest, (most - 1) as nat);
        assert(b.skip(1) =~= sleb(n / 128) + rest);
        assert(b[0] == (n % 128 + 128) as u8);
    }
}

/// Every unsigned integer is read back.
pub proof fn lemma_read_uleb(n: u64, rest: Seq<u8>)
    ensures
        read_uleb(uleb(n as nat) + rest) == Ok::<(u64, Seq<u8>), QuackErrorView>((n, rest)),
        uleb(n as nat).len() >= 1,
{
    assert(pow128(10) == 0x40_0000_0000_0000_0000) by {
        reveal_with_fuel(pow128, 11);
    }
    lemma_uleb_at(n as nat, rest, 10);
}

/// Every signed integer is read back.
pub proof fn lemma_read_sleb(n: i64, rest: Seq<u8>)
    ensures
        read_sleb(sleb(n as int) + rest) == Ok::<(i64, Seq<u8>), QuackErrorView>((n, rest)),
{
    assert(pow128(10) == 0x40_0000_0000_0000_0000) by {
        reveal_with_fuel(pow128, 11);
    }
    lemma_sleb_at(n as int, rest, 10);
}

/// A number of fixed length takes that length, and is read back in its range.
pub proof fn lemma_fixed(n: int, width: nat)
    ensures
        fixed(n, width).len() == width,
        0 <= n < pow256(width) ==> unsigned_value(fixed(n, width)) == n,
        width > 0 && -pow256(width) <= 2 * n < pow256(width) ==> signed_value(fixed(n, width)) == n,
    decreases width,
{
    if width > 0 {
        let less = (width - 1) as nat;
        lemma_fixed(n / 256, less);
        assert(fixed(n, width).skip(1) =~= fixed(n / 256, less));
        assert(fixed(n, width)[0] == (n % 256) as u8);
        assert(pow256(width) == 256 * pow256(less));
        if width == 1 {
            assert(pow256(0) == 1);
        }
        if width > 1 {
            let half = pow256((less - 1) as nat);
            assert(pow256(less) == 256 * half);
            if -pow256(width) <= 2 * n < pow256(width) {
                assert(-pow256(less) <= 2 * (n / 256) < pow256(less));
            }
        }
    }
}

/// Some bytes are read back.
pub proof fn lemma_read_bytes(bytes: Seq<u8>, rest: Seq<u8>)
    ensures
        read_bytes(bytes + rest, bytes.len()) == Ok::<(Seq<u8>, Seq<u8>), QuackErrorView>(
            (bytes, rest),
        ),
{
    assert((bytes + rest).take(bytes.len() as int) =~= bytes);
    assert((bytes + rest).skip(bytes.len() as int) =~= rest);
}

/// A truth value is read back.
pub proof fn lemma_read_flag(b: bool, rest: Seq<u8>)
    ensures
        read_flag(flag(b) + rest) == Ok::<(bool, Seq<u8>), QuackErrorView>((b, rest)),
{
    assert((flag(b) + rest).skip(1) =~= rest);
}

/// Bytes after their number are read back.
pub proof fn lemma_read_blob(bytes: Seq<u8>, rest: Seq<u8>)
    requires
        bytes.len() <= u64::MAX,
    ensures
        read_blob(blob(bytes) + rest) == Ok::<(Seq<u8>, Seq<u8>), QuackErrorView>((bytes, rest)),
{
    assert(blob(bytes) + rest =~= uleb(bytes.len()) + (bytes + rest));
    lemma_read_uleb(bytes.len() as u64, bytes + rest);
    lemma_read_bytes(bytes, rest);
}

/// Text is read back.
pub proof fn lemma_read_text(text: Seq<char>, rest: Seq<u8>)
    requires
        encode_utf8(text).len() <= u64::MAX,
    ensures
        read_text(text_blob(text) + rest) == Ok::<(Seq<char>, Seq<u8>), QuackErrorView>(
            (text, rest),
        ),
{
    lemma_read_blob(encode_utf8(text), rest);
    vstd::utf8::encode_utf8_valid_utf8(text);
    vstd::utf8::encode_utf8_decode_utf8(text);
}

/// The number of a field is read back, and told from every other number.
pub proof fn lemma_read_field(id: u16, rest: Seq<u8>)
    ensures
        read_field_id(field_id(id) + rest) == Ok::<(u16, Seq<u8>), QuackErrorView>((id, rest)),
        expect_field(field_id(id) + rest, id) == Ok::<((), Seq<u8>), QuackErrorView>(((), rest)),
        id == END_OF_OBJECT ==> expect_end(field_id(id) + rest) == Ok::<
            ((), Seq<u8>),
            QuackErrorView,
        >(((), rest)),
        forall|other: u16| #[trigger] has_field(field_id(id) + rest, other) == (id == other),
        (field_id(id) + rest).skip(2) == rest,
        field_id(id).len() == 2,
{
    reveal_with_fuel(pow256, 3);
    lemma_fixed(id as int, 2);
    lemma_read_bytes(field_id(id), rest);
    assert((field_id(id) + rest).skip(2) =~= rest);
    assert((field_id(id) + rest).take(2) =~= field_id(id));
}

/// A huge integer is read back.
pub proof fn lemma_read_huge_int(parts: HugeIntParts, rest: Seq<u8>)
    ensures
        read_huge_int(huge_int_bytes(parts) + rest) == Ok::<
            (HugeIntParts, Seq<u8>),
            QuackErrorView,
        >((parts, rest)),
{
    assert(huge_int_bytes(parts) + rest =~= sleb(parts.upper as int) + (uleb(parts.lower as nat)
        + rest));
    lemma_read_sleb(parts.upper, uleb(parts.lower as nat) + rest);
    lemma_read_uleb(parts.lower, rest);
}

// ---------------------------------------------------------------------------
// Huge integers in two parts
// ---------------------------------------------------------------------------
/// Two to the power of 64.
pub const TWO_TO_THE_64: i128 = 0x1_0000_0000_0000_0000;

/// The integer that two parts stand for.
pub open spec fn huge_int_value(parts: HugeIntParts) -> int {
    parts.upper * TWO_TO_THE_64 + parts.lower
}

/// The two parts of an integer.
pub fn split_signed_huge_int(value: i128) -> (parts: HugeIntParts)
    ensures
        huge_int_value(parts) == value,
{
    if value >= 0 {
        HugeIntParts {
            upper: (value / TWO_TO_THE_64) as i64,
            lower: (value % TWO_TO_THE_64) as u64,
        }
    } else {
        let below: i128 = -(value + 1);
        let upper: i128 = -(below / TWO_TO_THE_64) - 1;
        let lower: i128 = TWO_TO_THE_64 - 1 - below % TWO_TO_THE_64;
        HugeIntParts { upper: upper as i64, lower: lower as u64 }
    }
}

/// The integer that two parts stand for.
pub fn combine_signed_huge_int(parts: HugeIntParts) -> (value: i128)
    ensures
        value == huge_int_value(parts),
{
    parts.upper as i128 * TWO_TO_THE_64 + parts.lower as i128
}

/// Different parts stand for different integers: what is split is combined
/// again to the same integer, and the other way about.
pub proof fn law_huge_int_parts_are_unique(a: HugeIntParts, b: HugeIntParts)
    requires
        huge_int_value(a) == huge_int_value(b),
    ensures
        a == b,
{
}

// ---------------------------------------------------------------------------
// Sequences of items
// ---------------------------------------------------------------------------
/// The bytes of items, one after the other.
pub open spec fn items_bytes<T>(items: Seq<T>, bytes: spec_fn(T) -> Seq<u8>) -> Seq<u8>
    decreases items.len(),
{
    if items.len() == 0 {
        seq![]
    } else {
        bytes(items[0]) + items_bytes(items.skip(1), bytes)
    }
}

/// So many items, one after the other.
pub open spec fn read_items<T>(
    b: Seq<u8>,
    count: nat,
    read: spec_fn(Seq<u8>) -> ReadResult<T>,
) -> ReadResult<Seq<T>>
    decreases count,
{
    if count == 0 {
        Ok((seq![], b))
    } else {
        match read(b) {
            Ok((item, rest)) => match read_items(rest, (count - 1) as nat, read) {
                Ok((items, rest)) => Ok((seq![item] + items, rest)),
                Err(error) => Err(error),
            },
            Err(error) => Err(error),
        }
    }
}

/// What reading the rest of some items comes to, after the first ones.
pub open spec fn prepended<T>(first: Seq<T>, rest: ReadResult<Seq<T>>) -> ReadResult<Seq<T>> {
    match rest {
        Ok((items, rest)) => Ok((first + items, rest)),
        Err(error) => Err(error),
    }
}

/// Prepending twice is prepending once.
pub proof fn lemma_prepended<T>(first: Seq<T>, item: T, rest: ReadResult<Seq<T>>)
    ensures
        prepended(first, prepended(seq![item], rest)) == prepended(first.push(item), rest),
        prepended(Seq::<T>::empty(), rest) == rest,
{
    if let Ok((items, _)) = rest {
        assert(first + (seq![item] + items) =~= first.push(item) + items);
        assert(Seq::<T>::empty() + items =~= items);
    }
}

/// Bytes one after the other, in whatever order they are put together.
pub proof fn lemma_joined_bytes(a: Seq<u8>, b: Seq<u8>, c: Seq<u8>)
    ensures
        (a + b) + c == a + (b + c),
{
    assert((a + b) + c =~= a + (b + c));
}

/// Bytes written in two steps.
pub proof fn lemma_written2(w: Seq<u8>, a: Seq<u8>, b: Seq<u8>)
    ensures
        w + a + b == w + (a + b),
{
    lemma_joined_bytes(w, a, b);
}

/// Bytes written in three steps.
pub proof fn lemma_written3(w: Seq<u8>, a: Seq<u8>, b: Seq<u8>, c: Seq<u8>)
    ensures
        w + a + b + c == w + (a + (b + c)),
{
    lemma_joined_bytes(w + a, b, c);
    lemma_joined_bytes(w, a, b + c);
}

/// Bytes written in four steps.
pub proof fn lemma_written4(w: Seq<u8>, a: Seq<u8>, b: Seq<u8>, c: Seq<u8>, d: Seq<u8>)
    ensures
        w + a + b + c + d == w + (a + (b + (c + d))),
{
    lemma_joined_bytes(w + a + b, c, d);
    lemma_written3(w, a, b, c + d);
}

/// Bytes written in five steps.
pub proof fn lemma_written5(
    w: Seq<u8>,
    a: Seq<u8>,
    b: Seq<u8>,
    c: Seq<u8>,
    d: Seq<u8>,
    e: Seq<u8>,
)
    ensures
        w + a + b + c + d + e == w + (a + (b + (c + (d + e)))),
{
    lemma_joined_bytes(w + a + b + c, d, e);
    lemma_written4(w, a, b, c, d + e);
}

/// Bytes written in six steps.
pub proof fn lemma_written6(
    w: Seq<u8>,
    a: Seq<u8>,
    b: Seq<u8>,
    c: Seq<u8>,
    d: Seq<u8>,
    e: Seq<u8>,
    f: Seq<u8>,
)
    ensures
        w + a + b + c + d + e + f == w + (a + (b + (c + (d + (e + f))))),
{
    lemma_joined_bytes(w + a + b + c + d, e, f);
    lemma_written5(w, a, b, c, d, e + f);
}

/// What follows a part of four pieces.
pub proof fn lemma_followed4(a: Seq<u8>, b: Seq<u8>, c: Seq<u8>, d: Seq<u8>, rest: Seq<u8>)
    ensures
        (a + (b + (c + d))) + rest == a + (b + (c + (d + rest))),
{
    lemma_joined_bytes(c, d, rest);
    lemma_joined_bytes(b, c + d, rest);
    lemma_joined_bytes(a, b + (c + d), rest);
}

/// What follows a part of three pieces.
pub proof fn lemma_followed3(a: Seq<u8>, b: Seq<u8>, c: Seq<u8>, rest: Seq<u8>)
    ensures
        (a + (b + c)) + rest == a + (b + (c + rest)),
{
    lemma_joined_bytes(b, c, rest);
    lemma_joined_bytes(a, b + c, rest);
}

/// What follows a part of five pieces.
pub proof fn lemma_followed5(
    a: Seq<u8>,
    b: Seq<u8>,
    c: Seq<u8>,
    d: Seq<u8>,
    e: Seq<u8>,
    rest: Seq<u8>,
)
    ensures
        (a + (b + (c + (d + e)))) + rest == a + (b + (c + (d + (e + rest)))),
{
    lemma_followed4(b, c, d, e, rest);
    lemma_joined_bytes(a, b + (c + (d + e)), rest);
}

/// What follows a part of six pieces.
pub proof fn lemma_followed6(
    a: Seq<u8>,
    b: Seq<u8>,
    c: Seq<u8>,
    d: Seq<u8>,
    e: Seq<u8>,
    f: Seq<u8>,
    rest: Seq<u8>,
)
    ensures
        (a + (b + (c + (d + (e + f))))) + rest == a + (b + (c + (d + (e + (f + rest))))),
{
    lemma_followed5(b, c, d, e, f, rest);
    lemma_joined_bytes(a, b + (c + (d + (e + f))), rest);
}

/// One more item at the end adds its bytes at the end.
pub proof fn lemma_items_bytes_push<T>(items: Seq<T>, item: T, bytes: spec_fn(T) -> Seq<u8>)
    ensures
        items_bytes(items.push(item), bytes) == items_bytes(items, bytes) + bytes(item),
    decreases items.len(),
{
    let more = items.push(item);
    if items.len() == 0 {
        assert(more.skip(1) =~= seq![]);
        assert(items_bytes(more.skip(1), bytes) =~= seq![]);
        assert(items_bytes(more, bytes) =~= bytes(item));
    } else {
        lemma_items_bytes_push(items.skip(1), item, bytes);
        assert(more.skip(1) =~= items.skip(1).push(item));
        assert(more[0] == items[0]);
        assert(items_bytes(more, bytes) =~= items_bytes(items, bytes) + bytes(item));
    }
}

/// Reading one more item after the first ones.
pub proof fn lemma_read_items_step<T>(
    first: Seq<T>,
    b: Seq<u8>,
    count: nat,
    read: spec_fn(Seq<u8>) -> ReadResult<T>,
)
    requires
        count > 0,
    ensures
        prepended(first, read_items(b, count, read)) == match read(b) {
            Ok((item, rest)) => prepended(
                first.push(item),
                read_items(rest, (count - 1) as nat, read),
            ),
            Err(error) => Err(error),
        },
{
    if let Ok((item, rest)) = read(b) {
        if let Ok((items, _)) = read_items(rest, (count - 1) as nat, read) {
            assert(first + (seq![item] + items) =~= first.push(item) + items);
        }
    }
}

/// Items that are each read back are read back together.
pub proof fn lemma_read_items<T>(
    items: Seq<T>,
    rest: Seq<u8>,
    bytes: spec_fn(T) -> Seq<u8>,
    read: spec_fn(Seq<u8>) -> ReadResult<T>,
)
    requires
        forall|i: int, after: Seq<u8>|
            0 <= i < items.len() ==> #[trigger] read(bytes(items[i]) + after) == Ok::<
                (T, Seq<u8>),
                QuackErrorView,
            >((items[i], after)),
    ensures
        read_items(items_bytes(items, bytes) + rest, items.len(), read) == Ok::<
            (Seq<T>, Seq<u8>),
            QuackErrorView,
        >((items, rest)),
    decreases items.len(),
{
    if items.len() == 0 {
        assert(items_bytes(items, bytes) + rest =~= rest);
        assert(items =~= seq![]);
    } else {
        let tail = items.skip(1);
        let after = items_bytes(tail, bytes) + rest;
        assert forall|i: int, after: Seq<u8>| 0 <= i < tail.len() implies #[trigger] read(
            bytes(tail[i]) + after,
        ) == Ok::<(T, Seq<u8>), QuackErrorView>((tail[i], after)) by {
            assert(tail[i] == items[i + 1]);
        }
        lemma_read_items(tail, rest, bytes, read);
        assert(items_bytes(items, bytes) + rest =~= bytes(items[0]) + after);
        assert(read(bytes(items[0]) + after) == Ok::<(T, Seq<u8>), QuackErrorView>(
            (items[0], after),
        ));
        assert(seq![items[0]] + tail =~= items);
    }
}

// ---------------------------------------------------------------------------
// Reading makes progress
// ---------------------------------------------------------------------------
proof fn lemma_uleb_at_consumes(b: Seq<u8>, most: nat)
    ensures
        uleb_at(b, most) matches Ok((n, rest)) ==> rest.len() < b.len(),
    decreases most,
{
    if b.len() > 0 && most > 0 && b[0] >= 128 {
        lemma_uleb_at_consumes(b.skip(1), (most - 1) as nat);
    }
}

/// An integer, text and the number of a field each take some bytes.
pub proof fn lemma_reading_consumes(b: Seq<u8>)
    ensures
        read_uleb(b) matches Ok((n, rest)) ==> rest.len() < b.len(),
        read_blob(b) matches Ok((n, rest)) ==> rest.len() < b.len(),
        read_text(b) matches Ok((n, rest)) ==> rest.len() < b.len(),
        read_flag(b) matches Ok((n, rest)) ==> rest.len() < b.len(),
        read_field_id(b) matches Ok((n, rest)) ==> rest.len() < b.len(),
        forall|id: u16|
            #[trigger] expect_field(b, id) matches Ok((n, rest)) ==> rest.len() < b.len(),
        expect_end(b) matches Ok((n, rest)) ==> rest.len() < b.len(),
{
    lemma_uleb_at_consumes(b, MAX_VARINT_BYTES as nat);
}

// ---------------------------------------------------------------------------
// What the bytes say
// ---------------------------------------------------------------------------
/// The number that groups of seven bits stand for, the lowest first.
pub open spec fn grouped(b: Seq<u8>) -> int
    decreases b.len(),
{
    if b.len() == 0 {
        0
    } else {
        b[0] as int % 128 + 128 * grouped(b.skip(1))
    }
}

/// Whether bytes are one number of variable length: the last is the only one
/// whose high bit is not set.
pub open spec fn is_varint(b: Seq<u8>) -> bool {
    &&& b.len() > 0
    &&& b.last() < 128
    &&& forall|k: int| 0 <= k < b.len() - 1 ==> #[trigger] b[k] >= 128
}

proof fn lemma_varint_longer(first: u8, rest: Seq<u8>)
    requires
        first >= 128,
        is_varint(rest),
    ensures
        is_varint(seq![first] + rest),
        grouped(seq![first] + rest) == first as int % 128 + 128 * grouped(rest),
{
    let all = seq![first] + rest;
    assert(all.skip(1) =~= rest);
    assert forall|k: int| 0 <= k < all.len() - 1 implies #[trigger] all[k] >= 128 by {
        if k > 0 {
            assert(all[k] == rest[k - 1]);
        }
    }
}

proof fn lemma_varint_byte(b: u8)
    requires
        b < 128,
    ensures
        is_varint(seq![b]),
        grouped(seq![b]) == b,
{
    assert(seq![b].skip(1) =~= seq![]);
    assert(grouped(seq![]) == 0);
    assert(grouped(seq![b].skip(1)) == 0);
}

/// An unsigned number of variable length is its groups of seven bits, the lowest
/// first, with none to spare.
pub proof fn law_uleb_is_its_groups(n: nat)
    ensures
        is_varint(uleb(n)),
        grouped(uleb(n)) == n,
        uleb(n).len() > 1 ==> uleb(n).last() != 0,
    decreases n,
{
    if n < 128 {
        lemma_varint_byte(n as u8);
    } else {
        law_uleb_is_its_groups(n / 128);
        lemma_varint_longer((n % 128 + 128) as u8, uleb(n / 128));
        assert(uleb(n).last() == uleb(n / 128).last());
        if n / 128 < 128 {
            assert(uleb(n / 128).last() == n / 128);
        }
    }
}

/// A signed number of variable length is its groups of seven bits, the lowest
/// first, in two's complement: the second highest bit of the last byte is the
/// sign.
pub proof fn law_sleb_is_its_groups(n: int)
    ensures
        is_varint(sleb(n)),
        n >= 0 ==> grouped(sleb(n)) == n && sleb(n).last() < 64,
        n < 0 ==> grouped(sleb(n)) == n + pow128(sleb(n).len()) && sleb(n).last() >= 64,
    decreases (if n < 0 {
        -n
    } else {
        n
    }),
{
    if -64 <= n < 64 {
        let b = (n % 128) as u8;
        lemma_varint_byte(b);
        reveal_with_fuel(pow128, 2);
    } else {
        let high = sleb(n / 128);
        law_sleb_is_its_groups(n / 128);
        lemma_varint_longer((n % 128 + 128) as u8, high);
        assert(sleb(n).last() == high.last());
        assert(sleb(n).len() == high.len() + 1);
        assert(pow128(sleb(n).len()) == 128 * pow128(high.len()));
    }
}

/// A number of fixed length has its lowest byte first, and each byte counts 256
/// times as much as the one before.
pub proof fn law_fixed_is_little_endian(n: int, width: nat)
    ensures
        fixed(n, width).len() == width,
        width > 0 ==> fixed(n, width)[0] == n % 256 && fixed(n, width).skip(1) == fixed(
            n / 256,
            (width - 1) as nat,
        ),
        0 <= n < pow256(width) ==> unsigned_value(fixed(n, width)) == n,
        width > 0 && -pow256(width) <= 2 * n < pow256(width) ==> signed_value(fixed(n, width)) == n,
{
    lemma_fixed(n, width);
    if width > 0 {
        assert(fixed(n, width).skip(1) =~= fixed(n / 256, (width - 1) as nat));
    }
}

/// A truth value is one byte, zero or one; bytes and text have their number in
/// front of them; a field has its number in two bytes, the lower first; an
/// object ends with both of them full; a huge integer is its signed upper half
/// and its unsigned lower one.
pub proof fn law_plain_encodings(
    b: bool,
    bytes: Seq<u8>,
    text: Seq<char>,
    id: u16,
    parts: HugeIntParts,
)
    ensures
        flag(b).len() == 1,
        flag(b)[0] == 1 <==> b,
        flag(b)[0] == 0 <==> !b,
        blob(bytes) == uleb(bytes.len()) + bytes,
        text_blob(text) == uleb(encode_utf8(text).len()) + encode_utf8(text),
        field_id(id).len() == 2,
        field_id(id)[0] + 256 * field_id(id)[1] == id,
        object_end() == seq![255u8, 255u8],
        huge_int_bytes(parts) == sleb(parts.upper as int) + uleb(parts.lower as nat),
{
    reveal_with_fuel(fixed, 3);
    assert(field_id(id).len() == 2);
    assert(field_id(id)[0] == id as int % 256);
    assert(field_id(id)[1] == id as int / 256 % 256);
    assert(object_end() =~= seq![255u8, 255u8]);
}

/// Bytes at the front are taken off one after the other: what is read and what
/// is left make up what was there.
pub proof fn law_reading_takes_from_the_front(b: Seq<u8>, count: nat)
    ensures
        read_bytes(b, count) is Ok <==> count <= b.len(),
        read_bytes(b, count) matches Ok((bytes, rest)) ==> bytes.len() == count && bytes + rest
            == b,
        read_flag(b) is Ok <==> b.len() > 0,
        read_flag(b) matches Ok((value, rest)) ==> (value <==> b[0] != 0) && rest == b.skip(1),
{
    if count <= b.len() {
        assert(b.take(count as int) + b.skip(count as int) =~= b);
    }
}

proof fn lemma_varint_rest(v: Seq<u8>, rest: Seq<u8>)
    requires
        is_varint(v),
        v.len() > 1,
    ensures
        is_varint(v.skip(1)),
        (v + rest).skip(1) == v.skip(1) + rest,
        v[0] >= 128,
        grouped(v) == v[0] - 128 + 128 * grouped(v.skip(1)),
        v.skip(1).last() == v.last(),
{
    assert((v + rest).skip(1) =~= v.skip(1) + rest);
    assert forall|k: int| 0 <= k < v.skip(1).len() - 1 implies #[trigger] v.skip(1)[k] >= 128 by {
        assert(v.skip(1)[k] == v[k + 1]);
    }
}

proof fn lemma_any_uleb(v: Seq<u8>, rest: Seq<u8>, most: nat)
    requires
        is_varint(v),
        v.len() <= most,
    ensures
        grouped(v) >= 0,
        uleb_at(v + rest, most) == Ok::<(nat, Seq<u8>), QuackErrorView>((grouped(v) as nat, rest)),
    decreases v.len(),
{
    let b = v + rest;
    assert(b[0] == v[0]);
    if v.len() == 1 {
        assert(b.skip(1) =~= rest);
        assert(v =~= seq![v[0]]);
        lemma_varint_byte(v[0]);
    } else {
        lemma_varint_rest(v, rest);
        lemma_any_uleb(v.skip(1), rest, (most - 1) as nat);
    }
}

proof fn lemma_any_sleb(v: Seq<u8>, rest: Seq<u8>, most: nat)
    requires
        is_varint(v),
        v.len() <= most,
    ensures
        sleb_at(v + rest, most) == Ok::<(int, Seq<u8>), QuackErrorView>(
            (
                if v.last() < 64 {
                    grouped(v)
                } else {
                    grouped(v) - pow128(v.len())
                },
                rest,
            ),
        ),
    decreases v.len(),
{
    let b = v + rest;
    assert(b[0] == v[0]);
    if v.len() == 1 {
        assert(b.skip(1) =~= rest);
        assert(v =~= seq![v[0]]);
        lemma_varint_byte(v[0]);
        reveal_with_fuel(pow128, 2);
    } else {
        lemma_varint_rest(v, rest);
        lemma_any_sleb(v.skip(1), rest, (most - 1) as nat);
        assert(pow128(v.len()) == 128 * pow128(v.skip(1).len()));
    }
}

/// A number of variable length is read as what its groups stand for, however
/// many there are up to ten, if it is one of 64 bits; what follows it is left.
pub proof fn law_any_varint_is_read(v: Seq<u8>, rest: Seq<u8>)
    requires
        is_varint(v),
        v.len() <= 10,
    ensures
        ({
            let signed = if v.last() < 64 {
                grouped(v)
            } else {
                grouped(v) - pow128(v.len())
            };
            &&& read_uleb(v + rest) is Ok <==> grouped(v) <= u64::MAX
            &&& read_uleb(v + rest) matches Ok((n, left)) ==> n == grouped(v) && left == rest
            &&& read_sleb(v + rest) is Ok <==> i64::MIN <= signed <= i64::MAX
            &&& read_sleb(v + rest) matches Ok((n, left)) ==> n == signed && left == rest
        }),
{
    lemma_any_uleb(v, rest, 10);
    lemma_any_sleb(v, rest, 10);
}

} // verus!
