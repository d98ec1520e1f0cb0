//! 160-bit node identifiers, their XOR distance and their hexadecimal form.

use rand::Rng;
use vstd::prelude::*;
use vstd::std_specs::cmp::PartialEqSpecImpl;
use vstd::string::StrSliceExecFns;
use vstd::string::StringExecFns;

verus! {

/// Number of bytes in an `Id`
pub const ID_SIZE: usize = 20;

/// Number of bits in an `Id`; also the distance between an `Id` and itself
pub const ID_BITS: usize = 160;

/// Node identification
#[derive(Clone, Copy, Eq, Hash)]
pub struct Id(pub [u8; 20]);

impl PartialEq for Id {
    fn eq(&self, other: &Id) -> (r: bool) {
        let mut i: usize = 0;
        while i < 20
            invariant
                i <= 20,
                forall|j: int| 0 <= j < i ==> self.0[j] == other.0[j],
            decreases 20 - i,
        {
            if self.0[i] != other.0[i] {
                return false;
            }
            i = i + 1;
        }
        assert(self.0@ =~= other.0@);
        true
    }
}

impl PartialEqSpecImpl for Id {
    open spec fn obeys_eq_spec() -> bool {
        true
    }

    open spec fn eq_spec(&self, other: &Id) -> bool {
        self@ == other@
    }
}

impl View for Id {
    type V = Seq<u8>;

    open spec fn view(&self) -> Seq<u8> {
        self.0@
    }
}

/// Number of zero bits in front of the highest set bit of a byte; 8 for zero.
pub open spec fn byte_zeros(b: u8) -> u8 {
    if b >= 128 {
        0
    } else if b >= 64 {
        1
    } else if b >= 32 {
        2
    } else if b >= 16 {
        3
    } else if b >= 8 {
        4
    } else if b >= 4 {
        5
    } else if b >= 2 {
        6
    } else if b >= 1 {
        7
    } else {
        8
    }
}

/// Number of zero bits in front of the first set bit of `s[i..]`, the bytes
/// taken most significant first; `8 * (s.len() - i)` when none is set.
pub open spec fn zeros_from(s: Seq<u8>, i: int) -> nat
    decreases s.len() - i,
{
    if i < 0 || i >= s.len() {
        0
    } else if s[i] == 0 {
        8 + zeros_from(s, i + 1)
    } else {
        byte_zeros(s[i]) as nat
    }
}

/// Number of leading zero bits of a byte string.
pub open spec fn leading_zeros_of(s: Seq<u8>) -> nat {
    zeros_from(s, 0)
}

/// Bytewise exclusive or of two byte strings of one length.
pub open spec fn xor_of(a: Seq<u8>, b: Seq<u8>) -> Seq<u8> {
    Seq::new(a.len(), |i: int| a[i] ^ b[i])
}

/// The XOR distance of two identifiers as a bucket index: the position,
/// counted from the most significant end, of the first bit in which they
/// differ.
pub open spec fn distance_of(a: Seq<u8>, b: Seq<u8>) -> nat {
    leading_zeros_of(xor_of(a, b))
}

/// `zeros_from` never counts more bits than `s[i..]` has.
pub proof fn lemma_zeros_from_bound(s: Seq<u8>, i: int)
    requires
        0 <= i <= s.len(),
    ensures
        zeros_from(s, i) <= 8 * (s.len() - i),
    decreases s.len() - i,
{
    if i < s.len() && s[i] == 0 {
        lemma_zeros_from_bound(s, i + 1);
    }
}

/// A run of zero bytes counts eight bits a byte.
pub proof fn lemma_zeros_from_all_zero(s: Seq<u8>, i: int)
    requires
        0 <= i <= s.len(),
        forall|j: int| i <= j < s.len() ==> s[j] == 0,
    ensures
        zeros_from(s, i) == 8 * (s.len() - i),
    decreases s.len() - i,
{
    if i < s.len() {
        lemma_zeros_from_all_zero(s, i + 1);
    }
}

proof fn lemma_byte_zeros_bit(b: u8, j: u8)
    by (bit_vector)
    requires
        j < 8,
        (b >> j) & 1 != 0,
        (b as u16) >> ((j + 1) as u16) == 0,
    ensures
        b != 0,
        byte_zeros(b) == 7 - j,
{
}

/// The lowercase hexadecimal digit for a value below 16.
pub open spec fn hex_char(n: u8) -> char {
    if n == 0 {
        '0'
    } else if n == 1 {
        '1'
    } else if n == 2 {
        '2'
    } else if n == 3 {
        '3'
    } else if n == 4 {
        '4'
    } else if n == 5 {
        '5'
    } else if n == 6 {
        '6'
    } else if n == 7 {
        '7'
    } else if n == 8 {
        '8'
    } else if n == 9 {
        '9'
    } else if n == 10 {
        'a'
    } else if n == 11 {
        'b'
    } else if n == 12 {
        'c'
    } else if n == 13 {
        'd'
    } else if n == 14 {
        'e'
    } else {
        'f'
    }
}

/// The value of a lowercase hexadecimal digit; `None` for any other character.
pub open spec fn hex_value_of(c: char) -> Option<u8> {
    if c == '0' {
        Some(0u8)
    } else if c == '1' {
        Some(1u8)
    } else if c == '2' {
        Some(2u8)
    } else if c == '3' {
        Some(3u8)
    } else if c == '4' {
        Some(4u8)
    } else if c == '5' {
        Some(5u8)
    } else if c == '6' {
        Some(6u8)
    } else if c == '7' {
        Some(7u8)
    } else if c == '8' {
        Some(8u8)
    } else if c == '9' {
        Some(9u8)
    } else if c == 'a' {
        Some(10u8)
    } else if c == 'b' {
        Some(11u8)
    } else if c == 'c' {
        Some(12u8)
    } else if c == 'd' {
        Some(13u8)
    } else if c == 'e' {
        Some(14u8)
    } else if c == 'f' {
        Some(15u8)
    } else {
        None
    }
}

/// The `j`-th half byte of `b`, the high half of each byte first.
pub open spec fn nibble_of(b: Seq<u8>, j: int) -> u8 {
    if j % 2 == 0 {
        b[j / 2] / 16
    } else {
        b[j / 2] % 16
    }
}

/// The digits of the hexadecimal form, without the prefix.
pub open spec fn hex_digits_of(b: Seq<u8>) -> Seq<char> {
    Seq::new(2 * b.len(), |j: int| hex_char(nibble_of(b, j)))
}

/// The hexadecimal form of a byte string: `0x`, then two lowercase digits
/// for each byte, the first byte first.
pub open spec fn hex_of(b: Seq<u8>) -> Seq<char> {
    seq!['0', 'x'] + hex_digits_of(b)
}

/// Whether `s` is the hexadecimal form of some identifier: 42 characters,
/// the prefix `0x`, then lowercase hexadecimal digits only.
pub open spec fn is_hex_form(s: Seq<char>) -> bool {
    &&& s.len() == 42
    &&& s[0] == '0'
    &&& s[1] == 'x'
    &&& forall|j: int| 2 <= j < 42 ==> (#[trigger] hex_value_of(s[j])).is_some()
}

/// The byte that the two digits `hi` and `lo` spell.
pub open spec fn byte_of_digits(hi: char, lo: char) -> u8 {
    (hex_value_of(hi).unwrap() * 16 + hex_value_of(lo).unwrap()) as u8
}

/// The bytes that a hexadecimal form spells; `None` where `s` is no such form.
pub open spec fn parse_of(s: Seq<char>) -> Option<Seq<u8>> {
    if is_hex_form(s) {
        Some(Seq::new(20, |i: int| byte_of_digits(s[2 + 2 * i], s[3 + 2 * i])))
    } else {
        None
    }
}

/// Reading a written digit gives the value back.
pub proof fn lemma_hex_char_value(n: u8)
    requires
        n < 16,
    ensures
        hex_value_of(hex_char(n)) == Some(n),
{
}

/// Writing the value of a digit gives the digit back.
pub proof fn lemma_hex_value_char(c: char)
    requires
        hex_value_of(c).is_some(),
    ensures
        hex_value_of(c).unwrap() < 16,
        hex_char(hex_value_of(c).unwrap()) == c,
{
}

/// One lowercase hexadecimal digit as a string.
fn hex_digit(n: u8) -> (d: &'static str)
    requires
        n < 16,
    ensures
        d@ == seq![hex_char(n)],
{
    proof {
        reveal_strlit("0");
        reveal_strlit("1");
        reveal_strlit("2");
        reveal_strlit("3");
        reveal_strlit("4");
        reveal_strlit("5");
        reveal_strlit("6");
        reveal_strlit("7");
        reveal_strlit("8");
        reveal_strlit("9");
        reveal_strlit("a");
        reveal_strlit("b");
        reveal_strlit("c");
        reveal_strlit("d");
        reveal_strlit("e");
        reveal_strlit("f");
    }
    let d: &'static str = if n == 0 {
        "0"
    } else if n == 1 {
        "1"
    } else if n == 2 {
        "2"
    } else if n == 3 {
        "3"
    } else if n == 4 {
        "4"
    } else if n == 5 {
        "5"
    } else if n == 6 {
        "6"
    } else if n == 7 {
        "7"
    } else if n == 8 {
        "8"
    } else if n == 9 {
        "9"
    } else if n == 10 {
        "a"
    } else if n == 11 {
        "b"
    } else if n == 12 {
        "c"
    } else if n == 13 {
        "d"
    } else if n == 14 {
        "e"
    } else {
        "f"
    };
    assert(d@ =~= seq![hex_char(n)]);
    d
}

/// The value of a lowercase hexadecimal digit, if `c` is one.
fn hex_value(c: char) -> (v: Option<u8>)
    ensures
        v == hex_value_of(c),
{
    if c == '0' {
        Some(0u8)
    } else if c == '1' {
        Some(1u8)
    } else if c == '2' {
        Some(2u8)
    } else if c == '3' {
        Some(3u8)
    } else if c == '4' {
        Some(4u8)
    } else if c == '5' {
        Some(5u8)
    } else if c == '6' {
        Some(6u8)
    } else if c == '7' {
        Some(7u8)
    } else if c == '8' {
        Some(8u8)
    } else if c == '9' {
        Some(9u8)
    } else if c == 'a' {
        Some(10u8)
    } else if c == 'b' {
        Some(11u8)
    } else if c == 'c' {
        Some(12u8)
    } else if c == 'd' {
        Some(13u8)
    } else if c == 'e' {
        Some(14u8)
    } else if c == 'f' {
        Some(15u8)
    } else {
        None
    }
}

/// The sink that `std::fmt` hands to an implementation of `Debug`.
#[verifier::external_type_specification]
#[verifier::external_body]
pub struct ExFormatter<'a>(std::fmt::Formatter<'a>);

/// The error of `std::fmt`.
#[verifier::external_type_specification]
#[verifier::external_body]
pub struct ExFmtError(std::fmt::Error);

/// `Formatter::write_str`: hands `s` to the sink. Nothing is claimed of
/// what the sink answers.
#[verifier::external_body]
fn write_out(f: &mut std::fmt::Formatter<'_>, s: &str) -> (r: Result<(), std::fmt::Error>) {
    f.write_str(s)
}

impl std::fmt::Debug for Id {
    /// An `Id` is shown in its hexadecimal representation.
    fn fmt(&self, f: &mut std::fmt::Formatter<'_>) -> (r: Result<(), std::fmt::Error>) {
        let s = self.hex();
        write_out(f, s.as_str())
    }
}

/// Twenty bytes from `rand::thread_rng().gen()`. The generator is seeded by
/// the system, so nothing is claimed of the bytes that come back.
#[verifier::external_body]
fn random_bytes() -> (xs: [u8; 20]) {
    rand::thread_rng().gen::<[u8; 20]>()
}

impl Id {
    /// Create a new `Id`
    pub fn new(xs: [u8; 20]) -> (id: Id)
        ensures
            id@ == xs@,
            id == Id(xs),
    {
        Id(xs)
    }

    /// Number of prefix zero bits of the `Id`
    pub fn leading_zeros(&self) -> (n: usize)
        ensures
            n == leading_zeros_of(self@),
            n <= ID_BITS,
    {
        proof {
            lemma_zeros_from_bound(self@, 0);
        }
        let mut i: usize = 0;
        while i < 20
            invariant
                i <= 20,
                self@.len() == 20,
                zeros_from(self@, 0) == 8 * i + zeros_from(self@, i as int),
            decreases 20 - i,
        {
            let b: u8 = self.0[i];
            let mut j: u8 = 8;
            assert((b as u16) >> 8 == 0) by (bit_vector);
            while j > 0
                invariant
                    j <= 8,
                    i < 20,
                    b == self@[i as int],
                    self@.len() == 20,
                    zeros_from(self@, 0) == 8 * i + zeros_from(self@, i as int),
                    (b as u16) >> (j as u16) == 0,
                decreases j,
            {
                j = j - 1;
                if (b >> j) & 1 != 0 {
                    proof {
                        lemma_byte_zeros_bit(b, j);
                    }
                    return i * 8 + (7 - j) as usize;
                }
                assert((b as u16) >> (j as u16) == 0) by (bit_vector)
                    requires
                        j < 8,
                        (b >> j) & 1 == 0,
                        (b as u16) >> ((j + 1) as u16) == 0,
                ;
            }
            assert(b == 0) by (bit_vector)
                requires
                    j == 0,
                    (b as u16) >> (j as u16) == 0,
            ;
            i = i + 1;
        }
        ID_SIZE * 8
    }

    /// Create a new `Id` from the thread's random number generator
    pub fn random() -> (id: Id)
        ensures
            id@.len() == ID_SIZE,
    {
        Id(random_bytes())
    }

    /// Find the XOR distance between two `Id`s via the number of prefix zero
    /// bits of their exclusive or
    pub fn distance(&self, x: &Id) -> (d: usize)
        ensures
            d == distance_of(self@, x@),
            d <= ID_BITS,
    {
        let mut out: [u8; 20] = [0u8; 20];
        let mut i: usize = 0;
        while i < 20
            invariant
                i <= 20,
                forall|j: int| 0 <= j < i ==> out@[j] == self@[j] ^ x@[j],
            decreases 20 - i,
        {
            out[i] = self.0[i] ^ x.0[i];
            i = i + 1;
        }
        assert(out@ =~= xor_of(self@, x@));
        Id(out).leading_zeros()
    }

    /// Hexadecimal representation of an `Id`
    pub fn hex(&self) -> (s: String)
        ensures
            s@ == hex_of(self@),
    {
        proof {
            reveal_strlit("0x");
        }
        let mut s = String::from_str("0x");
        let mut i: usize = 0;
        assert(s@ =~= seq!['0', 'x'] + Seq::new(0, |j: int| hex_char(nibble_of(self@, j))));
        while i < 20
            invariant
                i <= 20,
                s@ == seq!['0', 'x'] + Seq::new(
                    2 * i as nat,
                    |j: int| hex_char(nibble_of(self@, j)),
                ),
            decreases 20 - i,
        {
            let b: u8 = self.0[i];
            let ghost before = s@;
            s.append(hex_digit(b / 16));
            s.append(hex_digit(b % 16));
            i = i + 1;
            assert(s@ =~= seq!['0', 'x'] + Seq::new(
                2 * i as nat,
                |j: int| hex_char(nibble_of(self@, j)),
            ));
        }
        s
    }

    /// Read an `Id` back from its hexadecimal representation. Anything but
    /// `0x` followed by 40 lowercase hexadecimal digits is refused.
    pub fn parse(s: &str) -> (r: Option<Id>)
        ensures
            match r {
                Some(id) => parse_of(s@) == Some(id@),
                None => parse_of(s@).is_none(),
            },
    {
        if s.unicode_len() != 42 {
            return None;
        }
        if s.get_char(0) != '0' || s.get_char(1) != 'x' {
            return None;
        }
        let mut out: [u8; 20] = [0u8; 20];
        let mut i: usize = 0;
        while i < 20
            invariant
                i <= 20,
                s@.len() == 42,
                forall|j: int| 2 <= j < 2 + 2 * i ==> (#[trigger] hex_value_of(s@[j])).is_some(),
                forall|k: int|
                    0 <= k < i ==> out@[k] == byte_of_digits(s@[2 + 2 * k], s@[3 + 2 * k]),
            decreases 20 - i,
        {
            let hi = hex_value(s.get_char(2 + 2 * i));
            let lo = hex_value(s.get_char(3 + 2 * i));
            match (hi, lo) {
                (Some(h), Some(l)) => {
                    out[i] = h * 16 + l;
                },
                _ => {
                    return None;
                },
            }
            i = i + 1;
        }
        assert(out@ =~= parse_of(s@).unwrap());
        Some(Id(out))
    }
}

proof fn lemma_xor_self(a: u8)
    by (bit_vector)
    ensures
        a ^ a == 0,
{
}

proof fn lemma_xor_commutes(a: u8, b: u8)
    by (bit_vector)
    ensures
        a ^ b == b ^ a,
{
}

/// Of three bytes: the first bit in which the outer two differ comes no
/// earlier than both first bits in which the middle one differs from them,
/// and where those two places are not the same, it is the earlier of them.
proof fn lemma_byte_ultrametric(a: u8, b: u8, c: u8)
    by (bit_vector)
    ensures
        byte_zeros(a ^ c) >= byte_zeros(a ^ b) || byte_zeros(a ^ c) >= byte_zeros(b ^ c),
        byte_zeros(a ^ b) < byte_zeros(b ^ c) ==> byte_zeros(a ^ c) == byte_zeros(a ^ b),
        byte_zeros(b ^ c) < byte_zeros(a ^ b) ==> byte_zeros(a ^ c) == byte_zeros(b ^ c),
        (a ^ b == 0) == (a == b),
        (a ^ b == 0 && b ^ c == 0) ==> a ^ c == 0,
        a ^ b == 0 ==> a ^ c == b ^ c,
        b ^ c == 0 ==> a ^ c == a ^ b,
        (a != 0) == (byte_zeros(a) < 8),
{
}

proof fn lemma_ultrametric_from(x: Seq<u8>, y: Seq<u8>, z: Seq<u8>, i: int)
    requires
        x.len() == y.len(),
        y.len() == z.len(),
        0 <= i <= x.len(),
    ensures
        zeros_from(xor_of(x, z), i) >= zeros_from(xor_of(x, y), i) || zeros_from(xor_of(x, z), i)
            >= zeros_from(xor_of(y, z), i),
        zeros_from(xor_of(x, y), i) < zeros_from(xor_of(y, z), i) ==> zeros_from(xor_of(x, z), i)
            == zeros_from(xor_of(x, y), i),
        zeros_from(xor_of(y, z), i) < zeros_from(xor_of(x, y), i) ==> zeros_from(xor_of(x, z), i)
            == zeros_from(xor_of(y, z), i),
    decreases x.len() - i,
{
    if i < x.len() {
        lemma_byte_ultrametric(x[i], y[i], z[i]);
        lemma_byte_ultrametric(x[i] ^ y[i], 0, 0);
        lemma_byte_ultrametric(y[i] ^ z[i], 0, 0);
        lemma_byte_ultrametric(x[i] ^ z[i], 0, 0);
        lemma_xor_self(0);
        lemma_ultrametric_from(x, y, z, i + 1);
        lemma_zeros_from_bound(xor_of(x, y), i + 1);
        lemma_zeros_from_bound(xor_of(y, z), i + 1);
        lemma_zeros_from_bound(xor_of(x, z), i + 1);
    }
}

/// The `j`-th bit of a byte string, the most significant bit of the first
/// byte being bit 0.
pub open spec fn bit_of(s: Seq<u8>, j: int) -> bool {
    (s[j / 8] >> ((7 - j % 8) as u8)) & 1 == 1
}

proof fn lemma_byte_zeros_bits(b: u8, k: u8)
    by (bit_vector)
    requires
        k < 8,
    ensures
        k < byte_zeros(b) ==> (b >> ((7 - k) as u8)) & 1 != 1,
        k == byte_zeros(b) ==> (b >> ((7 - k) as u8)) & 1 == 1,
{
}

proof fn lemma_xor_bit(a: u8, b: u8, k: u8)
    by (bit_vector)
    requires
        k < 8,
    ensures
        (((a ^ b) >> k) & 1 == 1) == (((a >> k) & 1 == 1) != ((b >> k) & 1 == 1)),
{
}

proof fn lemma_zeros_from_bits(s: Seq<u8>, i: int, j: int)
    requires
        0 <= i <= s.len(),
        8 * i <= j < 8 * s.len(),
    ensures
        j - 8 * i < zeros_from(s, i) ==> !bit_of(s, j),
        j - 8 * i == zeros_from(s, i) ==> bit_of(s, j),
    decreases s.len() - i,
{
    if j < 8 * i + 8 {
        assert(j / 8 == i);
        let k = (j - 8 * i) as u8;
        assert(j % 8 == k);
        lemma_byte_zeros_bits(s[i], k);
    } else {
        if s[i] == 0 {
            lemma_zeros_from_bits(s, i + 1, j);
        }
    }
}

/// The number of leading zero bits is the place of the first bit that is
/// set: every bit before that place is clear, and the bit at it, if the
/// string is that long, is set.
pub proof fn lemma_leading_zeros_bits(s: Seq<u8>, j: int)
    requires
        0 <= j < 8 * s.len(),
    ensures
        j < leading_zeros_of(s) ==> !bit_of(s, j),
        j == leading_zeros_of(s) ==> bit_of(s, j),
{
    lemma_zeros_from_bits(s, 0, j);
}

/// The distance of two identifiers is the place of the first bit in which
/// they differ: they agree in every bit before that place, and differ at it
/// unless they are the same.
pub proof fn lemma_distance_first_differing_bit(x: Id, y: Id, j: int)
    requires
        0 <= j < ID_BITS,
    ensures
        j < distance_of(x@, y@) ==> bit_of(x@, j) == bit_of(y@, j),
        j == distance_of(x@, y@) ==> bit_of(x@, j) != bit_of(y@, j),
{
    lemma_leading_zeros_bits(xor_of(x@, y@), j);
    lemma_xor_bit(x@[j / 8], y@[j / 8], (7 - j % 8) as u8);
}

/// An identifier is at distance 160 from itself.
pub proof fn lemma_distance_reflexive(x: Id)
    ensures
        distance_of(x@, x@) == ID_BITS,
{
    let d = xor_of(x@, x@);
    assert forall|j: int| 0 <= j < d.len() implies d[j] == 0 by {
        lemma_xor_self(x@[j]);
    }
    lemma_zeros_from_all_zero(d, 0);
}

/// Distance does not depend on the order of its two arguments.
pub proof fn lemma_distance_symmetric(x: Id, y: Id)
    ensures
        distance_of(x@, y@) == distance_of(y@, x@),
{
    assert forall|j: int| 0 <= j < 20 implies xor_of(x@, y@)[j] == xor_of(y@, x@)[j] by {
        lemma_xor_commutes(x@[j], y@[j]);
    }
    assert(xor_of(x@, y@) =~= xor_of(y@, x@));
}

/// Two identifiers share at least the prefix that both share with a third,
/// and exactly the shorter of the two where those differ in length.
pub proof fn lemma_distance_ultrametric(x: Id, y: Id, z: Id)
    ensures
        distance_of(x@, z@) >= distance_of(x@, y@) || distance_of(x@, z@) >= distance_of(y@, z@),
        distance_of(x@, y@) < distance_of(y@, z@) ==> distance_of(x@, z@) == distance_of(x@, y@),
        distance_of(y@, z@) < distance_of(x@, y@) ==> distance_of(x@, z@) == distance_of(y@, z@),
{
    lemma_ultrametric_from(x@, y@, z@, 0);
}

/// The distances from `x` to `y` and from `y` to `z` add up to at least the
/// distance from `x` to `z`, unless `y` leaves both at one and the same
/// distance `d` and `x` and `z` agree in more than `2 * d` leading bits.
pub proof fn lemma_distance_triangle(x: Id, y: Id, z: Id)
    requires
        distance_of(x@, y@) != distance_of(y@, z@) || distance_of(x@, z@) <= 2 * distance_of(
            x@,
            y@,
        ),
    ensures
        distance_of(x@, y@) + distance_of(y@, z@) >= distance_of(x@, z@),
{
    lemma_distance_ultrametric(x, y, z);
}

/// Identifiers with the same bytes are the same identifier.
pub proof fn lemma_id_by_view(a: Id, b: Id)
    ensures
        (a@ == b@) == (a == b),
{
    if a@ == b@ {
        assert(a.0 =~= b.0);
    }
}

/// Parsing the hexadecimal form of a byte string gives the bytes back.
pub proof fn lemma_hex_round_trip_bytes(b: Seq<u8>)
    requires
        b.len() == 20,
    ensures
        is_hex_form(hex_of(b)),
        parse_of(hex_of(b)) == Some(b),
{
    let s = hex_of(b);
    assert forall|j: int| 2 <= j < 42 implies (#[trigger] hex_value_of(s[j])).is_some() by {
        assert(s[j] == hex_char(nibble_of(b, j - 2)));
        lemma_hex_char_value(nibble_of(b, j - 2));
    }
    assert forall|i: int| 0 <= i < 20 implies byte_of_digits(s[2 + 2 * i], s[3 + 2 * i])
        == b[i] by {
        assert(s[2 + 2 * i] == hex_char(nibble_of(b, 2 * i)));
        assert(s[3 + 2 * i] == hex_char(nibble_of(b, 2 * i + 1)));
        lemma_hex_char_value(nibble_of(b, 2 * i));
        lemma_hex_char_value(nibble_of(b, 2 * i + 1));
    }
    assert(parse_of(s).unwrap() =~= b);
}

/// What parses to a byte string is the hexadecimal form of that string.
pub proof fn lemma_parse_inverts_hex(s: Seq<char>)
    requires
        parse_of(s).is_some(),
    ensures
        hex_of(parse_of(s).unwrap()) == s,
{
    let b = parse_of(s).unwrap();
    let t = hex_of(b);
    assert forall|j: int| 0 <= j < 42 implies t[j] == s[j] by {
        if j >= 2 {
            let i = (j - 2) / 2;
            assert(hex_value_of(s[2 + 2 * i]).is_some());
            assert(hex_value_of(s[3 + 2 * i]).is_some());
            lemma_hex_value_char(s[2 + 2 * i]);
            lemma_hex_value_char(s[3 + 2 * i]);
            assert(b[i] == byte_of_digits(s[2 + 2 * i], s[3 + 2 * i]));
            assert(t[j] == hex_char(nibble_of(b, j - 2)));
        }
    }
    assert(t =~= s);
}

/// `parse` undoes `hex`: for every identifier `x`, parsing `x.hex()` gives `x`.
pub proof fn lemma_hex_round_trip(x: Id)
    ensures
        parse_of(hex_of(x@)) == Some(x@),
{
    lemma_hex_round_trip_bytes(x@);
}

} // verus!
