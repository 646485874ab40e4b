//! Fixed-width little-endian byte images for the values the arena stores.
//!
//! The allocator never reinterprets arena storage in place: a value moves
//! in and out of the arena as an explicit byte image of `width()` bytes.
//! [`ArenaValue`] fixes that image for each storable type and carries the
//! proof that decoding a value's own image gives the value back.

use vstd::arithmetic::div_mod::lemma_fundamental_div_mod;
use vstd::arithmetic::div_mod::lemma_multiply_divide_lt;
use vstd::prelude::*;

verus! {

/// 256 raised to `n`: the number of distinct byte images of length `n`.
pub open spec fn pow256(n: nat) -> nat
    decreases n,
{
    if n == 0 {
        1
    } else {
        256 * pow256((n - 1) as nat)
    }
}

/// The `n`-byte little-endian image of `v`.
pub open spec fn le_bytes(v: nat, n: nat) -> Seq<u8>
    decreases n,
{
    if n == 0 {
        Seq::empty()
    } else {
        seq![(v % 256) as u8] + le_bytes(v / 256, (n - 1) as nat)
    }
}

/// The value a little-endian byte image stands for.
pub open spec fn le_value(bytes: Seq<u8>) -> nat
    decreases bytes.len(),
{
    if bytes.len() == 0 {
        0
    } else {
        bytes[0] as nat + 256 * le_value(bytes.drop_first())
    }
}

/// `pow256` never vanishes.
pub proof fn lemma_pow256_pos(n: nat)
    ensures
        pow256(n) >= 1,
    decreases n,
{
    if n > 0 {
        lemma_pow256_pos((n - 1) as nat);
    }
}

/// `pow256` grows with its argument.
pub proof fn lemma_pow256_monotone(m: nat, n: nat)
    requires
        m <= n,
    ensures
        pow256(m) <= pow256(n),
    decreases n,
{
    if m < n {
        lemma_pow256_monotone(m, (n - 1) as nat);
        lemma_pow256_pos((n - 1) as nat);
    }
}

/// The number of eight-byte images, written out.
pub proof fn lemma_pow256_values()
    ensures
        pow256(1) == 0x100,
        pow256(2) == 0x1_0000,
        pow256(4) == 0x1_0000_0000,
        pow256(8) == 0x1_0000_0000_0000_0000,
{
    assert(pow256(0) == 1);
    assert(pow256(1) == 0x100);
    assert(pow256(2) == 0x1_0000);
    assert(pow256(3) == 0x100_0000);
    assert(pow256(4) == 0x1_0000_0000);
    assert(pow256(5) == 0x100_0000_0000);
    assert(pow256(6) == 0x1_0000_0000_0000);
    assert(pow256(7) == 0x100_0000_0000_0000);
    assert(pow256(8) == 0x1_0000_0000_0000_0000);
}

/// A little-endian image has exactly the requested length.
pub proof fn lemma_le_bytes_len(v: nat, n: nat)
    ensures
        le_bytes(v, n).len() == n,
    decreases n,
{
    if n > 0 {
        lemma_le_bytes_len(v / 256, (n - 1) as nat);
    }
}

/// The value of an image is bounded by the number of images of its
/// length.
pub proof fn lemma_le_value_bound(bytes: Seq<u8>)
    ensures
        le_value(bytes) < pow256(bytes.len()),
    decreases bytes.len(),
{
    if bytes.len() > 0 {
        lemma_le_value_bound(bytes.drop_first());
    }
}

/// Reading back the `n`-byte image of a value below `pow256(n)` gives
/// the value.
pub proof fn lemma_le_round_trip(v: nat, n: nat)
    requires
        v < pow256(n),
    ensures
        le_value(le_bytes(v, n)) == v,
    decreases n,
{
    if n == 0 {
        lemma_pow256_pos(n);
    } else {
        let b0 = (v % 256) as u8;
        let rest = le_bytes(v / 256, (n - 1) as nat);
        assert((seq![b0] + rest)[0] == b0);
        assert((seq![b0] + rest).drop_first() =~= rest);
        assert(v / 256 < pow256((n - 1) as nat)) by {
            lemma_multiply_divide_lt(v as int, 256, pow256((n - 1) as nat) as int);
        };
        lemma_le_round_trip(v / 256, (n - 1) as nat);
        lemma_fundamental_div_mod(v as int, 256);
    }
}

/// The little-endian image of `v`, `n` bytes long, as a vector.
fn le_encode(v: u64, n: usize) -> (r: Vec<u8>)
    ensures
        r@ == le_bytes(v as nat, n as nat),
{
    let mut r: Vec<u8> = Vec::new();
    let mut x: u64 = v;
    let mut i: usize = 0;
    proof {
        assert(Seq::<u8>::empty() + le_bytes(v as nat, n as nat) =~= le_bytes(v as nat, n as nat));
    }
    while i < n
        invariant
            i <= n,
            r@.len() == i,
            le_bytes(v as nat, n as nat) == r@ + le_bytes(x as nat, (n - i) as nat),
        decreases n - i,
    {
        let b: u8 = (x % 256) as u8;
        proof {
            assert(le_bytes(x as nat, (n - i) as nat) == seq![b] + le_bytes(
                x as nat / 256,
                (n - i - 1) as nat,
            ));
            assert(r@ + le_bytes(x as nat, (n - i) as nat) =~= (r@ + seq![b]) + le_bytes(
                x as nat / 256,
                (n - i - 1) as nat,
            ));
            assert(x as nat / 256 == (x / 256) as nat);
        }
        r.push(b);
        x = x / 256;
        i = i + 1;
    }
    proof {
        assert(r@ + le_bytes(x as nat, 0) =~= r@);
    }
    r
}

/// The value of a little-endian image of at most eight bytes.
fn le_decode(bytes: &Vec<u8>) -> (r: u64)
    requires
        bytes@.len() <= 8,
    ensures
        r as nat == le_value(bytes@),
{
    let n = bytes.len();
    let mut x: u64 = 0;
    let mut i: usize = n;
    proof {
        assert(bytes@.subrange(n as int, n as int) =~= Seq::<u8>::empty());
        lemma_pow256_pos(0);
    }
    while i > 0
        invariant
            i <= n,
            n == bytes@.len(),
            n <= 8,
            x as nat == le_value(bytes@.subrange(i as int, n as int)),
            (x as nat) < pow256((n - i) as nat),
        decreases i,
    {
        i = i - 1;
        let b = bytes[i];
        proof {
            let s = bytes@.subrange(i as int, n as int);
            assert(s[0] == bytes@[i as int]);
            assert(s.drop_first() =~= bytes@.subrange(i as int + 1, n as int));
            assert(pow256(((n - i) as nat)) == 256 * pow256((n - i - 1) as nat));
            lemma_pow256_monotone((n - i) as nat, 8);
            lemma_pow256_values();
        }
        x = x * 256 + (b as u64);
    }
    proof {
        assert(bytes@.subrange(0, n as int) =~= bytes@);
    }
    x
}

/// A value the arena can store: a `Copy` type with a fixed-width
/// little-endian byte image and a proved image/value round trip.
pub trait ArenaValue: Sized + Copy {
    /// The number of arena bytes a value of this type occupies.
    spec fn spec_width() -> nat;

    /// The byte image of this value.
    spec fn encode_spec(self) -> Seq<u8>;

    /// The value a byte image stands for.
    spec fn decode_spec(bytes: Seq<u8>) -> Self;

    /// The byte image is exactly `spec_width()` bytes, and the width is
    /// positive and at most eight.
    proof fn lemma_encode_len(self)
        ensures
            self.encode_spec().len() == Self::spec_width(),
            0 < Self::spec_width() <= 8,
    ;

    /// Decoding a value's own byte image gives the value back.
    proof fn lemma_decode_encode(self)
        ensures
            Self::decode_spec(self.encode_spec()) == self,
    ;

    /// The width of the byte image, in bytes.
    fn width() -> (r: usize)
        ensures
            r == Self::spec_width(),
            0 < r <= 8,
    ;

    /// Produce the byte image of this value.
    fn encode(self) -> (r: Vec<u8>)
        ensures
            r@ == self.encode_spec(),
    ;

    /// Read a value back from a byte image.
    fn decode(bytes: &Vec<u8>) -> (r: Self)
        requires
            bytes@.len() == Self::spec_width(),
        ensures
            r == Self::decode_spec(bytes@),
    ;
}

impl ArenaValue for u8 {
    open spec fn spec_width() -> nat {
        1
    }

    open spec fn encode_spec(self) -> Seq<u8> {
        le_bytes(self as nat, 1)
    }

    open spec fn decode_spec(bytes: Seq<u8>) -> u8 {
        (le_value(bytes) % 0x100) as u8
    }

    proof fn lemma_encode_len(self) {
        lemma_le_bytes_len(self as nat, 1);
    }

    proof fn lemma_decode_encode(self) {
        lemma_pow256_values();
        lemma_le_round_trip(self as nat, 1);
    }

    fn width() -> (r: usize) {
        1
    }

    fn encode(self) -> (r: Vec<u8>) {
        le_encode(self as u64, 1)
    }

    fn decode(bytes: &Vec<u8>) -> (r: u8) {
        proof {
            lemma_le_value_bound(bytes@);
            lemma_pow256_values();
        }
        le_decode(bytes) as u8
    }
}

impl ArenaValue for u16 {
    open spec fn spec_width() -> nat {
        2
    }

    open spec fn encode_spec(self) -> Seq<u8> {
        le_bytes(self as nat, 2)
    }

    open spec fn decode_spec(bytes: Seq<u8>) -> u16 {
        (le_value(bytes) % 0x1_0000) as u16
    }

    proof fn lemma_encode_len(self) {
        lemma_le_bytes_len(self as nat, 2);
    }

    proof fn lemma_decode_encode(self) {
        lemma_pow256_values();
        lemma_le_round_trip(self as nat, 2);
    }

    fn width() -> (r: usize) {
        2
    }

    fn encode(self) -> (r: Vec<u8>) {
        le_encode(self as u64, 2)
    }

    fn decode(bytes: &Vec<u8>) -> (r: u16) {
        proof {
            lemma_le_value_bound(bytes@);
            lemma_pow256_values();
        }
        le_decode(bytes) as u16
    }
}

impl ArenaValue for u32 {
    open spec fn spec_width() -> nat {
        4
    }

    open spec fn encode_spec(self) -> Seq<u8> {
        le_bytes(self as nat, 4)
    }

    open spec fn decode_spec(bytes: Seq<u8>) -> u32 {
        (le_value(bytes) % 0x1_0000_0000) as u32
    }

    proof fn lemma_encode_len(self) {
        lemma_le_bytes_len(self as nat, 4);
    }

    proof fn lemma_decode_encode(self) {
        lemma_pow256_values();
        lemma_le_round_trip(self as nat, 4);
    }

    fn width() -> (r: usize) {
        4
    }

    fn encode(self) -> (r: Vec<u8>) {
        le_encode(self as u64, 4)
    }

    fn decode(bytes: &Vec<u8>) -> (r: u32) {
        proof {
            lemma_le_value_bound(bytes@);
            lemma_pow256_values();
        }
        le_decode(bytes) as u32
    }
}

impl ArenaValue for u64 {
    open spec fn spec_width() -> nat {
        8
    }

    open spec fn encode_spec(self) -> Seq<u8> {
        le_bytes(self as nat, 8)
    }

    open spec fn decode_spec(bytes: Seq<u8>) -> u64 {
        (le_value(bytes) % 0x1_0000_0000_0000_0000) as u64
    }

    proof fn lemma_encode_len(self) {
        lemma_le_bytes_len(self as nat, 8);
    }

    proof fn lemma_decode_encode(self) {
        lemma_pow256_values();
        lemma_le_round_trip(self as nat, 8);
    }

    fn width() -> (r: usize) {
        8
    }

    fn encode(self) -> (r: Vec<u8>) {
        le_encode(self, 8)
    }

    fn decode(bytes: &Vec<u8>) -> (r: u64) {
        proof {
            lemma_le_value_bound(bytes@);
            lemma_pow256_values();
        }
        le_decode(bytes)
    }
}

/// The two's-complement unsigned reading of a signed 32-bit value.
pub open spec fn i32_to_unsigned(v: i32) -> nat {
    if v >= 0 {
        v as nat
    } else {
        (v + 0x1_0000_0000) as nat
    }
}

/// The signed 32-bit value a two's-complement reading stands for.
pub open spec fn i32_from_unsigned(w: nat) -> i32 {
    if w % 0x1_0000_0000 < 0x8000_0000 {
        (w % 0x1_0000_0000) as i32
    } else {
        (w % 0x1_0000_0000 - 0x1_0000_0000) as i32
    }
}

impl ArenaValue for i32 {
    open spec fn spec_width() -> nat {
        4
    }

    open spec fn encode_spec(self) -> Seq<u8> {
        le_bytes(i32_to_unsigned(self), 4)
    }

    open spec fn decode_spec(bytes: Seq<u8>) -> i32 {
        i32_from_unsigned(le_value(bytes))
    }

    proof fn lemma_encode_len(self) {
        lemma_le_bytes_len(i32_to_unsigned(self), 4);
    }

    proof fn lemma_decode_encode(self) {
        lemma_pow256_values();
        lemma_le_round_trip(i32_to_unsigned(self), 4);
    }

    fn width() -> (r: usize) {
        4
    }

    fn encode(self) -> (r: Vec<u8>) {
        if self >= 0 {
            le_encode(self as u64, 4)
        } else {
            le_encode((self as i64 + 0x1_0000_0000) as u64, 4)
        }
    }

    fn decode(bytes: &Vec<u8>) -> (r: i32) {
        proof {
            lemma_le_value_bound(bytes@);
            lemma_pow256_values();
        }
        let w = le_decode(bytes);
        if w < 0x8000_0000 {
            w as i32
        } else {
            (w as i64 - 0x1_0000_0000) as i32
        }
    }
}

/// Relies on `char::from_u32`: per its documentation it returns `Some`
/// exactly for Unicode scalar values (everything up to 0x10FFFF except
/// the surrogate range), and the returned character has the given code.
pub assume_specification[ char::from_u32 ](i: u32) -> (r: Option<char>)
    ensures
        (i < 0xD800 || (0xE000 <= i && i <= 0x10FFFF)) <==> (r is Some),
        r matches Some(c) ==> c as u32 == i,
;

/// Whether a code is a Unicode scalar value, i.e. the code of a `char`.
pub open spec fn is_char_code(w: nat) -> bool {
    w < 0xD800 || (0xE000 <= w && w <= 0x10FFFF)
}

impl ArenaValue for char {
    open spec fn spec_width() -> nat {
        4
    }

    open spec fn encode_spec(self) -> Seq<u8> {
        le_bytes(self as u32 as nat, 4)
    }

    open spec fn decode_spec(bytes: Seq<u8>) -> char {
        if le_value(bytes) < 0x1_0000_0000 && is_char_code(le_value(bytes)) {
            (le_value(bytes) as u32) as char
        } else {
            '\0'
        }
    }

    proof fn lemma_encode_len(self) {
        lemma_le_bytes_len(self as u32 as nat, 4);
    }

    proof fn lemma_decode_encode(self) {
        lemma_pow256_values();
        lemma_le_round_trip(self as u32 as nat, 4);
        vstd::utf8::char_is_scalar(self);
        vstd::utf8::char_u32_cast(self, self as u32);
    }

    fn width() -> (r: usize) {
        4
    }

    fn encode(self) -> (r: Vec<u8>) {
        le_encode(self as u32 as u64, 4)
    }

    fn decode(bytes: &Vec<u8>) -> (r: char) {
        proof {
            lemma_le_value_bound(bytes@);
            lemma_pow256_values();
        }
        let w = le_decode(bytes) as u32;
        match char::from_u32(w) {
            Some(c) => {
                proof {
                    vstd::utf8::char_u32_cast(c, w);
                }
                c
            },
            None => '\0',
        }
    }
}

} // verus!
