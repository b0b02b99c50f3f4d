//! Errors, and small helpers shared by the other modules.

use vstd::prelude::*;
use vstd::string::StringExecFns;
use vstd::string::StringSliceAdditionalSpecFns;
use vstd::utf8::{decode_utf8, encode_utf8, encode_utf8_decode_utf8, valid_utf8};
use vstd::utf8::{encode_utf8_valid_utf8, is_ascii_chars, is_ascii_chars_encode_utf8};
use vstd::arithmetic::div_mod::{lemma_fundamental_div_mod, lemma_mod_pos_bound};
use crate::bencode::{
    bytes_equal, decimal, digit_byte, lemma_decimal, push_decimal, BencodeError, ZERO,
};

verus! {

/// What went wrong, with a message for the user.
#[derive(Debug, Clone, PartialEq, Eq)]
pub enum TrError {
    /// A filesystem or read failure; the message is the underlying cause.
    IO(String),
    /// The target has no usable name, or is neither a file nor a directory.
    InvalidPath(String),
    /// The metainfo is bencode, but not of the shape of a torrent.
    InvalidTorrent(String),
    /// A field is absent where it is needed.
    MissingField(String),
    /// The bytes are not bencode.
    ParseError(String),
    /// Bytes that must be text are not UTF-8.
    EncodingError(String),
    /// The file to write exists already.
    AlreadyExists(String),
}

/// An error as mathematics sees it: the kind, and the characters of the message.
pub enum ErrorView {
    IO(Seq<char>),
    InvalidPath(Seq<char>),
    InvalidTorrent(Seq<char>),
    MissingField(Seq<char>),
    ParseError(Seq<char>),
    EncodingError(Seq<char>),
    AlreadyExists(Seq<char>),
}

impl View for TrError {
    type V = ErrorView;

    open spec fn view(&self) -> ErrorView {
        match self {
            TrError::IO(m) => ErrorView::IO(m@),
            TrError::InvalidPath(m) => ErrorView::InvalidPath(m@),
            TrError::InvalidTorrent(m) => ErrorView::InvalidTorrent(m@),
            TrError::MissingField(m) => ErrorView::MissingField(m@),
            TrError::ParseError(m) => ErrorView::ParseError(m@),
            TrError::EncodingError(m) => ErrorView::EncodingError(m@),
            TrError::AlreadyExists(m) => ErrorView::AlreadyExists(m@),
        }
    }
}

/// What a function of this library gives: its result, or what went wrong.
pub type TrResult<T> = Result<T, TrError>;

/// The message that goes with a decoding error.
pub open spec fn parse_message(e: BencodeError) -> Seq<char> {
    match e {
        BencodeError::Truncated => "unexpected end of input"@,
        BencodeError::BadInteger => "invalid integer"@,
        BencodeError::BadLength => "invalid string length"@,
        BencodeError::UnknownToken => "unknown token"@,
        BencodeError::UnorderedKeys => "dictionary keys are not in order"@,
    }
}

/// `String::from_utf8` of std: the text that `bytes` write in UTF-8, or
/// nothing where they are not UTF-8.
#[verifier::external_body]
fn string_from_utf8(bytes: Vec<u8>) -> (r: Option<String>)
    ensures
        r is Some <==> valid_utf8(bytes@),
        r is Some ==> r->Some_0@ == decode_utf8(bytes@),
{
    String::from_utf8(bytes).ok()
}

/// Appends the bytes of `src` to `out`.
pub fn push_all(out: &mut Vec<u8>, src: &[u8])
    ensures
        final(out)@ == old(out)@ + src@,
{
    let mut k: usize = 0;
    assert(src@.take(0) =~= Seq::<u8>::empty());
    while k < src.len()
        invariant
            k <= src.len(),
            out@ == old(out)@ + src@.take(k as int),
        decreases src.len() - k,
    {
        out.push(src[k]);
        assert(src@.take(k + 1) =~= src@.take(k as int).push(src@[k as int]));
        k += 1;
    }
    assert(src@.take(k as int) =~= src@);
}

/// Tells whether two texts are the same.
pub fn text_equal(a: &str, b: &str) -> (r: bool)
    ensures
        r == (a@ == b@),
{
    proof {
        encode_utf8_decode_utf8(a@);
        encode_utf8_decode_utf8(b@);
    }
    bytes_equal(a.as_bytes(), b.as_bytes())
}

/// The text that `bytes` write in UTF-8.
pub open spec fn text_of(bytes: Seq<u8>) -> Result<Seq<char>, ErrorView> {
    if valid_utf8(bytes) {
        Ok(decode_utf8(bytes))
    } else {
        Err(ErrorView::EncodingError("invalid UTF-8"@))
    }
}

/// Reads `bytes` as UTF-8 text.
pub fn read_text(bytes: &Vec<u8>) -> (r: TrResult<String>)
    ensures
        match text_of(bytes@) {
            Ok(text) => r is Ok && r->Ok_0@ == text,
            Err(e) => r is Err && r->Err_0@ == e,
        },
{
    match string_from_utf8(bytes.clone()) {
        Some(text) => Ok(text),
        None => Err(TrError::EncodingError("invalid UTF-8".to_owned())),
    }
}

/// The exponent of the piece length where none is asked for: pieces of `2^20` bytes.
pub const DEF_PIECE_SIZE: u8 = 20;

/// The least exponent of a piece length.
pub const MIN_PIECE_SIZE: u8 = 14;

/// The greatest exponent of a piece length.
pub const MAX_PIECE_SIZE: u8 = 27;

/// The exponent of the piece length where none is asked for.
pub fn def_piece_size() -> (r: u8)
    ensures
        r == DEF_PIECE_SIZE,
{
    DEF_PIECE_SIZE
}

/// Two to the power of `n`.
pub open spec fn power_of_two(n: nat) -> nat
    decreases n,
{
    if n == 0 {
        1
    } else {
        2 * power_of_two((n - 1) as nat)
    }
}

/// The piece length of the exponent `piece_size`, which must be one of 14 to
/// 27: two to that power.
pub fn piece_length_of(piece_size: u8) -> (r: Option<u64>)
    ensures
        MIN_PIECE_SIZE <= piece_size <= MAX_PIECE_SIZE ==> r == Some(
            power_of_two(piece_size as nat) as u64,
        ),
        !(MIN_PIECE_SIZE <= piece_size <= MAX_PIECE_SIZE) ==> r is None,
        r is Some ==> 16384 <= r->Some_0 <= 134217728,
{
    if piece_size < MIN_PIECE_SIZE || piece_size > MAX_PIECE_SIZE {
        return None;
    }
    let mut length: u64 = 1;
    let mut k: u8 = 0;
    while k < piece_size
        invariant
            k <= piece_size <= MAX_PIECE_SIZE,
            length == power_of_two(k as nat),
            length <= 134217728,
            k < MAX_PIECE_SIZE ==> length <= 67108864,
            k >= MIN_PIECE_SIZE ==> length >= 16384,
        decreases piece_size - k,
    {
        proof {
            lemma_power_bounds(k as nat);
            lemma_power_bounds((k + 1) as nat);
        }
        length = length * 2;
        k += 1;
    }
    Some(length)
}

/// The powers of two of the exponents of piece lengths.
proof fn lemma_power_bounds(n: nat)
    ensures
        n < 27 ==> power_of_two(n) <= 67108864,
        n <= 27 ==> power_of_two(n) <= 134217728,
        n >= 14 ==> power_of_two(n) >= 16384,
        power_of_two(n) >= 1,
{
    lemma_power_exact();
    assert(power_of_two(14) == 16384) by {
        reveal_with_fuel(power_of_two, 15);
    }
    if n < 27 {
        lemma_power_grows(n, 26);
    }
    if n <= 27 {
        lemma_power_grows(n, 27);
    }
    if n >= 14 {
        lemma_power_grows(14, n);
    }
    lemma_power_grows(0, n);
}

/// A greater exponent gives no lesser power of two.
proof fn lemma_power_grows(n: nat, m: nat)
    requires
        n <= m,
    ensures
        1 <= power_of_two(n) <= power_of_two(m),
    decreases m,
{
    if n < m {
        lemma_power_grows(n, (m - 1) as nat);
    } else if n > 0 {
        lemma_power_grows((n - 1) as nat, (m - 1) as nat);
    }
}

/// The powers of two of 26 and 27.
proof fn lemma_power_exact()
    ensures
        power_of_two(26) == 67108864,
        power_of_two(27) == 134217728,
{
    assert(power_of_two(13) == 8192) by {
        reveal_with_fuel(power_of_two, 14);
    }
    assert(power_of_two(26) == 8192 * power_of_two(13)) by {
        lemma_power_sum(13, 13);
    }
}

/// The power of two of a sum is the product of the powers.
proof fn lemma_power_sum(a: nat, b: nat)
    ensures
        power_of_two(a + b) == power_of_two(a) * power_of_two(b),
    decreases a,
{
    if a > 0 {
        lemma_power_sum((a - 1) as nat, b);
        assert(power_of_two(a + b) == 2 * power_of_two((a - 1 + b) as nat));
        assert(2 * (power_of_two((a - 1) as nat) * power_of_two(b)) == (2 * power_of_two(
            (a - 1) as nat,
        )) * power_of_two(b)) by (nonlinear_arith);
    } else {
        assert(power_of_two(0) * power_of_two(b) == power_of_two(b)) by (nonlinear_arith)
            requires
                power_of_two(0) == 1,
        ;
    }
}

/// An error as it is shown to the user.
pub open spec fn error_text(e: ErrorView) -> Seq<char> {
    match e {
        ErrorView::IO(m) => "IO error: "@ + m,
        ErrorView::InvalidPath(m) => "Invalid path: "@ + m,
        ErrorView::InvalidTorrent(m) => "Invalid torrent: "@ + m,
        ErrorView::MissingField(m) => "Missing field: "@ + m,
        ErrorView::ParseError(m) => "Parse error: "@ + m,
        ErrorView::EncodingError(m) => "Encoding error: "@ + m,
        ErrorView::AlreadyExists(m) => m,
    }
}

impl TrError {
    /// The error as it is shown to the user.
    pub fn to_text(&self) -> (text: String)
        ensures
            text@ == error_text(self@),
    {
        match self {
            TrError::IO(m) => "IO error: ".to_owned().concat(m.as_str()),
            TrError::InvalidPath(m) => "Invalid path: ".to_owned().concat(m.as_str()),
            TrError::InvalidTorrent(m) => "Invalid torrent: ".to_owned().concat(m.as_str()),
            TrError::MissingField(m) => "Missing field: ".to_owned().concat(m.as_str()),
            TrError::ParseError(m) => "Parse error: ".to_owned().concat(m.as_str()),
            TrError::EncodingError(m) => "Encoding error: ".to_owned().concat(m.as_str()),
            TrError::AlreadyExists(m) => m.clone(),
        }
    }

    /// The error that reports a torrent of the wrong shape.
    pub fn invalid(message: &str) -> (r: TrError)
        ensures
            r@ == ErrorView::InvalidTorrent(message@),
    {
        TrError::InvalidTorrent(message.to_owned())
    }

    /// The error that reports a failure of the bencode codec.
    pub fn parse(e: BencodeError) -> (r: TrError)
        ensures
            r@ == ErrorView::ParseError(parse_message(e)),
    {
        match e {
            BencodeError::Truncated => TrError::ParseError("unexpected end of input".to_owned()),
            BencodeError::BadInteger => TrError::ParseError("invalid integer".to_owned()),
            BencodeError::BadLength => TrError::ParseError("invalid string length".to_owned()),
            BencodeError::UnknownToken => TrError::ParseError("unknown token".to_owned()),
            BencodeError::UnorderedKeys => TrError::ParseError(
                "dictionary keys are not in order".to_owned(),
            ),
        }
    }
}

/// The text whose characters are the given ASCII bytes.
pub open spec fn ascii_text(bytes: Seq<u8>) -> Seq<char> {
    Seq::new(bytes.len(), |k: int| bytes[k] as char)
}

/// Every byte is an ASCII character.
pub open spec fn all_ascii(bytes: Seq<u8>) -> bool {
    forall|k: int| 0 <= k < bytes.len() ==> (#[trigger] bytes[k]) < 128
}

/// ASCII bytes are UTF-8, and write the text of their characters.
pub proof fn lemma_ascii_text(bytes: Seq<u8>)
    requires
        all_ascii(bytes),
    ensures
        valid_utf8(bytes),
        decode_utf8(bytes) == ascii_text(bytes),
        encode_utf8(ascii_text(bytes)) == bytes,
{
    let text = ascii_text(bytes);
    assert(is_ascii_chars(text)) by {
        assert forall|i: int| 0 <= i < text.len() implies '\0' <= #[trigger] text[i] <= '\u{7f}' by {
            assert(bytes[i] < 128);
        }
    }
    is_ascii_chars_encode_utf8(text);
    assert(encode_utf8(text) =~= bytes) by {
        assert forall|i: int| 0 <= i < bytes.len() implies encode_utf8(text)[i] == bytes[i] by {
            assert(text[i] as u8 == bytes[i]);
        }
    }
    encode_utf8_valid_utf8(text);
    encode_utf8_decode_utf8(text);
}

/// The text of ASCII bytes.
pub fn text_of_ascii(bytes: Vec<u8>) -> (text: String)
    requires
        all_ascii(bytes@),
    ensures
        text@ == ascii_text(bytes@),
{
    proof {
        lemma_ascii_text(bytes@);
    }
    match string_from_utf8(bytes) {
        Some(text) => text,
        None => String::new(),
    }
}

/// The decimal numeral of `n` as text.
pub open spec fn decimal_text(n: nat) -> Seq<char> {
    ascii_text(decimal(n))
}

/// The decimal numeral of `n` as text.
pub fn number_text(n: u64) -> (text: String)
    ensures
        text@ == decimal_text(n as nat),
{
    let mut digits: Vec<u8> = Vec::new();
    push_decimal(&mut digits, n as u128);
    proof {
        lemma_decimal(n as nat);
        assert(digits@ =~= decimal(n as nat));
    }
    text_of_ascii(digits)
}

/// The number of bytes in a KiB.
pub const KIB: u64 = 1024;

/// The number of bytes in a MiB.
pub const MIB: u64 = 1048576;

/// The number of bytes in a GiB.
pub const GIB: u64 = 1073741824;

/// `.`, which parts the whole of a number from its hundredths.
pub const DOT: u8 = 0x2e;

/// The least number that needs more than 53 bits, `2^53`.
pub const EXACT_LIMIT: u64 = 0x20_0000_0000_0000;

/// `x / d`, rounded to the nearest whole number, and to the even one where
/// two are equally near.
pub open spec fn round_half_even(x: nat, d: nat) -> nat {
    let q = x / d;
    let r = x % d;
    if 2 * r > d || (2 * r == d && q % 2 == 1) {
        q + 1
    } else {
        q
    }
}

/// For `n` of more than 53 bits, the power of two that the bits beyond the
/// first 53 count: 2 for 54 bits, 4 for 55 bits, and so on.
pub open spec fn spare_bits_unit(n: nat) -> nat
    decreases n,
{
    if n < 2 * EXACT_LIMIT {
        2
    } else {
        2 * spare_bits_unit(n / 2)
    }
}

/// `n` rounded to 53 significant bits, to the even neighbour where two are
/// equally near: the number that a size is shown by, as sizes are shown with
/// the precision of a double.
pub open spec fn rounded_to_53_bits(n: nat) -> nat {
    if n < EXACT_LIMIT {
        n
    } else {
        round_half_even(n, spare_bits_unit(n)) * spare_bits_unit(n)
    }
}

/// The hundredths of `unit` in `bytes`, rounded to the nearest, and to the
/// even one where two are equally near.
pub open spec fn hundredths(bytes: nat, unit: nat) -> nat {
    round_half_even(rounded_to_53_bits(bytes) * 100, unit)
}

/// `bytes` in units of `unit`: a whole number where it is one, otherwise a
/// number with two decimals.
pub open spec fn scaled_size(bytes: nat, unit: nat) -> Seq<u8> {
    if bytes % unit == 0 {
        decimal(bytes / unit)
    } else {
        let h = hundredths(bytes, unit);
        decimal(h / 100) + seq![DOT, digit_byte(((h % 100) / 10) as int), digit_byte((h % 10) as int)]
    }
}

/// A size for the reader, in ASCII: in the largest of GiB, MiB and KiB that
/// it reaches, otherwise in bytes.
pub open spec fn size_bytes(bytes: nat) -> Seq<u8> {
    if bytes >= GIB {
        scaled_size(bytes, GIB as nat) + " GiB".spec_bytes()
    } else if bytes >= MIB {
        scaled_size(bytes, MIB as nat) + " MiB".spec_bytes()
    } else if bytes >= KIB {
        scaled_size(bytes, KIB as nat) + " KiB".spec_bytes()
    } else {
        decimal(bytes) + " B".spec_bytes()
    }
}

/// A size for the reader: `1536` is `1.50 KiB`, `2048` is `2 KiB`, `100` is `100 B`.
pub open spec fn size_text(bytes: nat) -> Seq<char> {
    ascii_text(size_bytes(bytes))
}

/// Computes `x / d` rounded to the nearest, to the even one on a tie.
fn rounded_quotient(x: u128, d: u128) -> (q: u128)
    requires
        d > 0,
        x < 0x1_0000_0000_0000_0000_0000u128,
        d < 0x1_0000_0000_0000_0000_0000u128,
    ensures
        q == round_half_even(x as nat, d as nat),
        q * d <= x + d,
{
    let q: u128 = x / d;
    let r: u128 = x % d;
    proof {
        lemma_fundamental_div_mod(x as int, d as int);
        lemma_mod_pos_bound(x as int, d as int);
        assert(q * d == d * q) by (nonlinear_arith);
        assert((q + 1) * d == d * q + d) by (nonlinear_arith);
        assert(q <= x) by (nonlinear_arith)
            requires
                x == d * q + r,
                d >= 1,
                q >= 0,
                r >= 0,
        ;
    }
    if 2 * r > d || (2 * r == d && q % 2 == 1) {
        q + 1
    } else {
        q
    }
}

/// Computes the power of two that the bits beyond the first 53 count.
fn spare_unit(n: u64) -> (s: u64)
    requires
        n >= EXACT_LIMIT,
    ensures
        s == spare_bits_unit(n as nat),
        2 <= s,
        s * EXACT_LIMIT <= 2 * n,
    decreases n,
{
    if n < 2 * EXACT_LIMIT {
        2
    } else {
        let half: u64 = spare_unit(n / 2);
        assert(half * EXACT_LIMIT <= n);
        assert(half <= 2048) by (nonlinear_arith)
            requires
                half * 0x20_0000_0000_0000 <= n,
                n <= 0xffff_ffff_ffff_ffff,
        ;
        assert((2 * half) * EXACT_LIMIT == 2 * (half * EXACT_LIMIT)) by (nonlinear_arith);
        2 * half
    }
}

/// Computes `n` rounded to 53 significant bits.
fn rounded_size(n: u64) -> (r: u128)
    ensures
        r == rounded_to_53_bits(n as nat),
        r <= 0x1_0000_0000_0000_1000u128,
{
    if n < EXACT_LIMIT {
        n as u128
    } else {
        let s: u64 = spare_unit(n);
        assert(s <= 4096) by (nonlinear_arith)
            requires
                s * 0x20_0000_0000_0000 <= 2 * n,
                n <= 0xffff_ffff_ffff_ffff,
        ;
        let q: u128 = rounded_quotient(n as u128, s as u128);
        assert(q * s <= n + s);
        q * (s as u128)
    }
}

/// Appends `bytes` in units of `unit`.
fn push_scaled(out: &mut Vec<u8>, bytes: u64, unit: u64)
    requires
        unit > 0,
        all_ascii(old(out)@),
    ensures
        final(out)@ == old(out)@ + scaled_size(bytes as nat, unit as nat),
        all_ascii(final(out)@),
{
    let ghost before = out@;
    if bytes % unit == 0 {
        proof {
            lemma_decimal((bytes / unit) as nat);
        }
        push_decimal(out, (bytes / unit) as u128);
    } else {
        let shown: u128 = rounded_size(bytes);
        assert(shown * 100 <= 0x64_0000_0000_0006_4000u128);
        let h: u128 = rounded_quotient(shown * 100, unit as u128);
        proof {
            lemma_decimal((h / 100) as nat);
        }
        push_decimal(out, h / 100);
        let tens: u8 = ((h % 100) / 10) as u8;
        let ones: u8 = (h % 10) as u8;
        out.push(DOT);
        out.push(ZERO + tens);
        out.push(ZERO + ones);
        assert(out@ =~= before + scaled_size(bytes as nat, unit as nat));
    }
}

/// A size for the reader: `1536` is `1.50 KiB`, `2048` is `2 KiB`, `100` is `100 B`.
pub fn human_size(bytes: u64) -> (text: String)
    ensures
        text@ == size_text(bytes as nat),
{
    let mut out: Vec<u8> = Vec::new();
    proof {
        reveal_strlit(" GiB");
        reveal_strlit(" MiB");
        reveal_strlit(" KiB");
        reveal_strlit(" B");
        assert(vstd::string::is_ascii(" GiB"));
        assert(vstd::string::is_ascii(" MiB"));
        assert(vstd::string::is_ascii(" KiB"));
        assert(vstd::string::is_ascii(" B"));
        assert(all_ascii(" GiB".spec_bytes()));
        assert(all_ascii(" MiB".spec_bytes()));
        assert(all_ascii(" KiB".spec_bytes()));
        assert(all_ascii(" B".spec_bytes()));
    }
    if bytes >= GIB {
        push_scaled(&mut out, bytes, GIB);
        push_all(&mut out, " GiB".as_bytes());
    } else if bytes >= MIB {
        push_scaled(&mut out, bytes, MIB);
        push_all(&mut out, " MiB".as_bytes());
    } else if bytes >= KIB {
        push_scaled(&mut out, bytes, KIB);
        push_all(&mut out, " KiB".as_bytes());
    } else {
        proof {
            lemma_decimal(bytes as nat);
        }
        push_decimal(&mut out, bytes as u128);
        push_all(&mut out, " B".as_bytes());
    }
    assert(out@ =~= size_bytes(bytes as nat));
    text_of_ascii(out)
}

} // verus!
