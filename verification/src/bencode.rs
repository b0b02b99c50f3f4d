//! The bencode codec: a value tree, its byte encoding, and the decoder.

use vstd::prelude::*;
use vstd::slice::{slice_subrange, slice_to_vec};
use vstd::string::StringSliceAdditionalSpecFns;
use vstd::utf8::encode_utf8;

verus! {

/// `i`, which opens an integer.
pub const INT_START: u8 = 0x69;

/// `l`, which opens a list.
pub const LIST_START: u8 = 0x6c;

/// `d`, which opens a dictionary.
pub const DICT_START: u8 = 0x64;

/// `e`, which closes an integer, a list or a dictionary.
pub const END: u8 = 0x65;

/// `:`, which parts a byte string's length from its bytes.
pub const COLON: u8 = 0x3a;

/// `-`, the sign of a negative integer.
pub const MINUS: u8 = 0x2d;

/// `0`, the first of the ten ASCII digits.
pub const ZERO: u8 = 0x30;

/// `9`, the last of the ten ASCII digits.
pub const NINE: u8 = 0x39;

/// The ASCII digit for `d`, for `0 <= d <= 9`.
pub open spec fn digit_byte(d: int) -> u8 {
    (ZERO + d) as u8
}

/// The decimal numeral of `n`, most significant digit first, without leading
/// zeros (`0` is written `"0"`).
pub open spec fn decimal(n: nat) -> Seq<u8>
    decreases n,
{
    if n < 10 {
        seq![digit_byte(n as int)]
    } else {
        decimal(n / 10).push(digit_byte((n % 10) as int))
    }
}

/// The signed decimal numeral of `i`: a `-` before the digits of a negative number.
pub open spec fn signed_decimal(i: int) -> Seq<u8> {
    if i < 0 {
        seq![MINUS] + decimal((-i) as nat)
    } else {
        decimal(i as nat)
    }
}

/// The encoding of the integer `i`: `i<decimal>e`.
pub open spec fn encode_int(i: int) -> Seq<u8> {
    seq![INT_START] + signed_decimal(i) + seq![END]
}

/// The encoding of the byte string `b`: `<len>:<bytes>`.
pub open spec fn encode_bytes(b: Seq<u8>) -> Seq<u8> {
    decimal(b.len()) + seq![COLON] + b
}

/// Appends the decimal numeral of `n` to `out`.
pub fn push_decimal(out: &mut Vec<u8>, n: u128)
    ensures
        final(out)@ == old(out)@ + decimal(n as nat),
    decreases n,
{
    if n >= 10 {
        push_decimal(out, n / 10);
    }
    let d: u8 = (n % 10) as u8;
    out.push(ZERO + d);
}

/// Encodes a nonnegative integer as `i<decimal>e`.
pub fn bencode_uint(n: u64) -> (out: Vec<u8>)
    ensures
        out@ == encode_int(n as int),
{
    let mut out: Vec<u8> = Vec::new();
    out.push(INT_START);
    push_decimal(&mut out, n as u128);
    out.push(END);
    out
}

/// Encodes a signed integer as `i<decimal>e`, with a leading `-` when negative.
pub fn bencode_int(i: i64) -> (out: Vec<u8>)
    ensures
        out@ == encode_int(i as int),
{
    bencode_i128(i as i128)
}

/// Encodes any 128-bit signed integer as `i<decimal>e`.
pub fn bencode_i128(i: i128) -> (out: Vec<u8>)
    ensures
        out@ == encode_int(i as int),
{
    let mut out: Vec<u8> = Vec::new();
    out.push(INT_START);
    if i < 0 {
        out.push(MINUS);
        let m: u128 = if i == i128::MIN {
            0x8000_0000_0000_0000_0000_0000_0000_0000u128
        } else {
            (-i) as u128
        };
        push_decimal(&mut out, m);
    } else {
        push_decimal(&mut out, i as u128);
    }
    out.push(END);
    out
}

/// Encodes a byte string as `<len>:<bytes>`.
pub fn bencode_bytes(b: &[u8]) -> (out: Vec<u8>)
    ensures
        out@ == encode_bytes(b@),
{
    let mut out: Vec<u8> = Vec::new();
    push_decimal(&mut out, b.len() as u128);
    out.push(COLON);
    let mut k: usize = 0;
    while k < b.len()
        invariant
            k <= b.len(),
            out@ == decimal(b@.len()) + seq![COLON] + b@.subrange(0, k as int),
        decreases b.len() - k,
    {
        out.push(b[k]);
        k += 1;
    }
    assert(b@.subrange(0, k as int) == b@);
    out
}

/// A bencoded value as a mathematical tree. A dictionary is the sequence of
/// its entries in the order in which they are written.
pub enum Value {
    Int(int),
    Bytes(Seq<u8>),
    List(Seq<Value>),
    Dict(Seq<(Seq<u8>, Value)>),
}

/// A bencoded value. A dictionary keeps its entries in source order, keys as raw bytes.
#[derive(Debug, PartialEq, Eq)]
pub enum Bencode {
    Int(i128),
    Bytes(Vec<u8>),
    List(Vec<Bencode>),
    Dict(Vec<(Vec<u8>, Bencode)>),
}

/// Why a byte stream is not a bencoded value, or why a value is refused by
/// the strict encoder.
#[derive(Debug, Clone, Copy, PartialEq, Eq, Structural)]
pub enum BencodeError {
    /// The input ends inside a value.
    Truncated,
    /// An integer is empty, has a leading zero, is `-0`, holds a byte that is
    /// no digit, or does not fit in 128 bits.
    BadInteger,
    /// The digits of a byte string's length are not followed by `:`.
    BadLength,
    /// A value starts with a byte that opens none of the four kinds, or a
    /// dictionary key does not start with a digit.
    UnknownToken,
    /// A dictionary's keys are not strictly ascending.
    UnorderedKeys,
}

/// The tree that `b` stands for.
pub open spec fn value_of(b: Bencode) -> Value
    decreases b,
{
    match b {
        Bencode::Int(i) => Value::Int(i as int),
        Bencode::Bytes(bytes) => Value::Bytes(bytes@),
        Bencode::List(items) => Value::List(
            Seq::new(
                items.len() as nat,
                |k: int|
                    if 0 <= k < items.len() {
                        value_of(items[k])
                    } else {
                        Value::Int(0)
                    },
            ),
        ),
        Bencode::Dict(entries) => Value::Dict(
            Seq::new(
                entries.len() as nat,
                |k: int|
                    if 0 <= k < entries.len() {
                        (entries[k].0@, value_of(entries[k].1))
                    } else {
                        (Seq::empty(), Value::Int(0))
                    },
            ),
        ),
    }
}

impl View for Bencode {
    type V = Value;

    open spec fn view(&self) -> Value {
        value_of(*self)
    }
}

/// The encoding of a value.
pub open spec fn encode(v: Value) -> Seq<u8>
    decreases v,
{
    match v {
        Value::Int(i) => encode_int(i),
        Value::Bytes(b) => encode_bytes(b),
        Value::List(items) => seq![LIST_START] + encode_items(items) + seq![END],
        Value::Dict(entries) => seq![DICT_START] + encode_entries(entries) + seq![END],
    }
}

/// The encodings of `items`, one after the other.
pub open spec fn encode_items(items: Seq<Value>) -> Seq<u8>
    decreases items,
{
    if items.len() == 0 {
        Seq::empty()
    } else {
        encode_items(items.drop_last()) + encode(items.last())
    }
}

/// The encodings of `entries`, one after the other: each key as a byte string,
/// then its value.
pub open spec fn encode_entries(entries: Seq<(Seq<u8>, Value)>) -> Seq<u8>
    decreases entries,
{
    if entries.len() == 0 {
        Seq::empty()
    } else {
        encode_entries(entries.drop_last()) + encode_bytes(entries.last().0) + encode(
            entries.last().1,
        )
    }
}

/// `a` comes strictly before `b` in lexicographic order of bytes.
pub open spec fn bytes_lt(a: Seq<u8>, b: Seq<u8>) -> bool
    decreases a.len(),
{
    if b.len() == 0 {
        false
    } else if a.len() == 0 {
        true
    } else if a[0] != b[0] {
        a[0] < b[0]
    } else {
        bytes_lt(a.drop_first(), b.drop_first())
    }
}

/// Every dictionary in `v` has strictly ascending keys.
pub open spec fn canonical(v: Value) -> bool
    decreases v,
{
    match v {
        Value::Int(_) => true,
        Value::Bytes(_) => true,
        Value::List(items) => forall|k: int| 0 <= k < items.len() ==> canonical(#[trigger] items[k]),
        Value::Dict(entries) => {
            &&& forall|k: int| 0 <= k < entries.len() ==> canonical((#[trigger] entries[k]).1)
            &&& forall|k: int|
                0 < k < entries.len() ==> bytes_lt(entries[k - 1].0, (#[trigger] entries[k]).0)
        },
    }
}

/// The encoding of items with one more item is the encoding of the items, then that of
/// the item.
pub proof fn lemma_encode_items_push(items: Seq<Value>, v: Value)
    ensures
        encode_items(items.push(v)) == encode_items(items) + encode(v),
{
    assert(items.push(v).drop_last() == items);
}

/// The encoding of entries with one more entry is the encoding of the entries, then the
/// key and the value of the entry.
pub proof fn lemma_encode_entries_push(entries: Seq<(Seq<u8>, Value)>, key: Seq<u8>, v: Value)
    ensures
        encode_entries(entries.push((key, v))) == encode_entries(entries) + encode_bytes(key)
            + encode(v),
{
    assert(entries.push((key, v)).drop_last() == entries);
}

/// The byte string that stands for a text: its UTF-8 bytes.
pub open spec fn text_value(s: Seq<char>) -> Value {
    Value::Bytes(encode_utf8(s))
}

/// The list of byte strings that stands for a list of texts.
pub open spec fn text_list_value(texts: Seq<Seq<char>>) -> Value {
    Value::List(Seq::new(texts.len(), |k: int| text_value(texts[k])))
}

/// Encodes a text as the byte string of its UTF-8 bytes.
pub fn bencode_string(s: &str) -> (out: Vec<u8>)
    ensures
        out@ == encode(text_value(s@)),
{
    bencode_bytes(s.as_bytes())
}

/// Encodes a list of texts as a list of byte strings.
pub fn bencode_string_list(list: &[String]) -> (out: Vec<u8>)
    ensures
        out@ == encode(text_list_value(list.deep_view())),
{
    let mut out: Vec<u8> = Vec::new();
    out.push(LIST_START);
    let ghost items = text_list_value(list.deep_view())->List_0;
    let mut k: usize = 0;
    while k < list.len()
        invariant
            k <= list.len(),
            items == text_list_value(list.deep_view())->List_0,
            out@ == seq![LIST_START] + encode_items(items.take(k as int)),
        decreases list.len() - k,
    {
        proof {
            assert(list.deep_view()[k as int] == list[k as int]@);
            assert(items.take(k + 1) == items.take(k as int).push(text_value(list[k as int]@)));
            lemma_encode_items_push(items.take(k as int), text_value(list[k as int]@));
        }
        let mut piece: Vec<u8> = bencode_string(list[k].as_str());
        out.append(&mut piece);
        k += 1;
    }
    assert(items.take(k as int) == items);
    out.push(END);
    out
}

/// Tells whether `a` comes strictly before `b` in lexicographic order of bytes.
pub fn bytes_less(a: &[u8], b: &[u8]) -> (r: bool)
    ensures
        r == bytes_lt(a@, b@),
{
    let mut k: usize = 0;
    assert(a@.skip(0) == a@ && b@.skip(0) == b@);
    while k < a.len() && k < b.len()
        invariant
            k <= a.len(),
            k <= b.len(),
            bytes_lt(a@, b@) == bytes_lt(a@.skip(k as int), b@.skip(k as int)),
        decreases a.len() - k,
    {
        if a[k] != b[k] {
            return a[k] < b[k];
        }
        assert(a@.skip(k as int).drop_first() == a@.skip(k + 1));
        assert(b@.skip(k as int).drop_first() == b@.skip(k + 1));
        k += 1;
    }
    k < b.len()
}

impl Bencode {
    /// Appends the encoding of the value to `out`, whatever the order of its keys.
    pub fn write_to(&self, out: &mut Vec<u8>)
        ensures
            final(out)@ == old(out)@ + encode(self@),
        decreases self,
    {
        match self {
            Bencode::Int(i) => {
                let mut piece: Vec<u8> = bencode_i128(*i);
                out.append(&mut piece);
            },
            Bencode::Bytes(b) => {
                let mut piece: Vec<u8> = bencode_bytes(b.as_slice());
                out.append(&mut piece);
            },
            Bencode::List(items) => {
                out.push(LIST_START);
                let ghost before = out@;
                let mut k: usize = 0;
                while k < items.len()
                    invariant
                        k <= items.len(),
                        *self == Bencode::List(*items),
                        self@ is List,
                        out@ == before + encode_items(self@->List_0.take(k as int)),
                    decreases items.len() - k,
                {
                    proof {
                        let all = self@->List_0;
                        assert(all.take(k + 1) == all.take(k as int).push(items[k as int]@));
                        lemma_encode_items_push(all.take(k as int), items[k as int]@);
                    }
                    items[k].write_to(out);
                    k += 1;
                }
                assert(self@->List_0.take(k as int) == self@->List_0);
                out.push(END);
            },
            Bencode::Dict(entries) => {
                out.push(DICT_START);
                let ghost before = out@;
                let mut k: usize = 0;
                while k < entries.len()
                    invariant
                        k <= entries.len(),
                        *self == Bencode::Dict(*entries),
                        self@ is Dict,
                        out@ == before + encode_entries(self@->Dict_0.take(k as int)),
                    decreases entries.len() - k,
                {
                    proof {
                        let all = self@->Dict_0;
                        assert(all.take(k + 1) == all.take(k as int).push(
                            (entries[k as int].0@, entries[k as int].1@),
                        ));
                        lemma_encode_entries_push(
                            all.take(k as int),
                            entries[k as int].0@,
                            entries[k as int].1@,
                        );
                    }
                    let mut key: Vec<u8> = bencode_bytes(entries[k].0.as_slice());
                    out.append(&mut key);
                    entries[k].1.write_to(out);
                    k += 1;
                }
                assert(self@->Dict_0.take(k as int) == self@->Dict_0);
                out.push(END);
            },
        }
    }

    /// Tells whether every dictionary in the value has strictly ascending keys.
    pub fn is_canonical(&self) -> (r: bool)
        ensures
            r == canonical(self@),
        decreases self,
    {
        match self {
            Bencode::Int(_) => true,
            Bencode::Bytes(_) => true,
            Bencode::List(items) => {
                let mut k: usize = 0;
                while k < items.len()
                    invariant
                        k <= items.len(),
                        *self == Bencode::List(*items),
                        self@ is List,
                        forall|j: int| 0 <= j < k ==> canonical(#[trigger] self@->List_0[j]),
                    decreases items.len() - k,
                {
                    assert(self@->List_0[k as int] == items[k as int]@);
                    if !items[k].is_canonical() {
                        return false;
                    }
                    k += 1;
                }
                true
            },
            Bencode::Dict(entries) => {
                let mut k: usize = 0;
                while k < entries.len()
                    invariant
                        k <= entries.len(),
                        *self == Bencode::Dict(*entries),
                        self@ is Dict,
                        forall|j: int| 0 <= j < k ==> canonical((#[trigger] self@->Dict_0[j]).1),
                        forall|j: int|
                            0 < j < k ==> bytes_lt(
                                self@->Dict_0[j - 1].0,
                                (#[trigger] self@->Dict_0[j]).0,
                            ),
                    decreases entries.len() - k,
                {
                    assert(self@->Dict_0[k as int] == (entries[k as int].0@, entries[k as int].1@));
                    if !entries[k].1.is_canonical() {
                        return false;
                    }
                    if k > 0 {
                        assert(self@->Dict_0[k - 1] == (entries[k - 1].0@, entries[k - 1].1@));
                    }
                    if k > 0 && !bytes_less(entries[k - 1].0.as_slice(), entries[k].0.as_slice()) {
                        return false;
                    }
                    k += 1;
                }
                true
            },
        }
    }

    /// The encoding of the value, for a value whose dictionaries all have
    /// strictly ascending keys; any other value is refused.
    pub fn encode(&self) -> (r: Result<Vec<u8>, BencodeError>)
        ensures
            canonical(self@) ==> r is Ok && r->Ok_0@ == encode(self@),
            !canonical(self@) ==> r == Err::<Vec<u8>, BencodeError>(BencodeError::UnorderedKeys),
    {
        if self.is_canonical() {
            let mut out: Vec<u8> = Vec::new();
            self.write_to(&mut out);
            Ok(out)
        } else {
            Err(BencodeError::UnorderedKeys)
        }
    }
}

/// `b` is one of the ten ASCII digits.
pub open spec fn is_digit(b: u8) -> bool {
    ZERO <= b && b <= NINE
}

/// Where the run of digits that starts at `pos` ends: the first position at or
/// after `pos` that holds no digit, or the end of `data`.
pub open spec fn digits_end(data: Seq<u8>, pos: int) -> int
    decreases data.len() - pos,
{
    if 0 <= pos < data.len() && is_digit(data[pos]) {
        digits_end(data, pos + 1)
    } else {
        pos
    }
}

/// The number that the decimal digits `s` write; leading zeros count for nothing.
pub open spec fn decimal_value(s: Seq<u8>) -> nat
    decreases s.len(),
{
    if s.len() == 0 {
        0
    } else {
        decimal_value(s.drop_last()) * 10 + (s.last() as int - ZERO as int) as nat
    }
}

/// Reads the integer that starts at `pos`, where `data[pos]` is `i`: an optional
/// `-`, at least one digit, then `e`. A leading zero is accepted only in `i0e`.
pub open spec fn parse_int(data: Seq<u8>, pos: int) -> Result<(Value, int), BencodeError> {
    let negative = pos + 1 < data.len() && data[pos + 1] == MINUS;
    let start = if negative {
        pos + 2
    } else {
        pos + 1
    };
    let end = digits_end(data, start);
    let magnitude = decimal_value(data.subrange(start, end)) as int;
    let number = if negative {
        -magnitude
    } else {
        magnitude
    };
    if end >= data.len() {
        Err(BencodeError::Truncated)
    } else if end == start || data[end] != END {
        Err(BencodeError::BadInteger)
    } else if data[start] == ZERO && (negative || end > start + 1) {
        Err(BencodeError::BadInteger)
    } else if number < i128::MIN || number > i128::MAX {
        Err(BencodeError::BadInteger)
    } else {
        Ok((Value::Int(number), end + 1))
    }
}

/// Reads the byte string that starts at `pos`, where `data[pos]` is a digit:
/// the digits of the length, `:`, then that many bytes.
pub open spec fn parse_bytes(data: Seq<u8>, pos: int) -> Result<(Seq<u8>, int), BencodeError> {
    let colon = digits_end(data, pos);
    let length = decimal_value(data.subrange(pos, colon)) as int;
    if colon >= data.len() {
        Err(BencodeError::Truncated)
    } else if data[colon] != COLON {
        Err(BencodeError::BadLength)
    } else if colon + 1 + length > data.len() {
        Err(BencodeError::Truncated)
    } else {
        Ok((data.subrange(colon + 1, colon + 1 + length), colon + 1 + length))
    }
}

/// Reads the value that starts at `pos`, and says where it ends.
pub open spec fn parse_value(data: Seq<u8>, pos: int) -> Result<(Value, int), BencodeError>
    decreases data.len() - pos, 0nat,
{
    if pos < 0 || pos >= data.len() {
        Err(BencodeError::Truncated)
    } else if data[pos] == INT_START {
        parse_int(data, pos)
    } else if is_digit(data[pos]) {
        match parse_bytes(data, pos) {
            Ok((bytes, end)) => Ok((Value::Bytes(bytes), end)),
            Err(e) => Err(e),
        }
    } else if data[pos] == LIST_START {
        match parse_items(data, pos + 1) {
            Ok((items, end)) => Ok((Value::List(items), end)),
            Err(e) => Err(e),
        }
    } else if data[pos] == DICT_START {
        match parse_entries(data, pos + 1) {
            Ok((entries, end)) => Ok((Value::Dict(entries), end)),
            Err(e) => Err(e),
        }
    } else {
        Err(BencodeError::UnknownToken)
    }
}

/// Reads the items of a list from `pos` up to and over the closing `e`.
pub open spec fn parse_items(data: Seq<u8>, pos: int) -> Result<(Seq<Value>, int), BencodeError>
    decreases data.len() - pos, 1nat,
{
    if pos < 0 || pos >= data.len() {
        Err(BencodeError::Truncated)
    } else if data[pos] == END {
        Ok((Seq::empty(), pos + 1))
    } else {
        match parse_value(data, pos) {
            Err(e) => Err(e),
            Ok((item, next)) => if next <= pos || next > data.len() {
                // Never so: a value ends after its start and within `data`.
                Err(BencodeError::Truncated)
            } else {
                prepend_items(seq![item], parse_items(data, next))
            },
        }
    }
}

/// `head` put before the items of `rest`, where `rest` is no error.
pub open spec fn prepend_items(
    head: Seq<Value>,
    rest: Result<(Seq<Value>, int), BencodeError>,
) -> Result<(Seq<Value>, int), BencodeError> {
    match rest {
        Ok((items, end)) => Ok((head + items, end)),
        Err(e) => Err(e),
    }
}

/// Reads the entries of a dictionary from `pos` up to and over the closing `e`.
/// A key is a byte string; the keys may come in any order.
pub open spec fn parse_entries(data: Seq<u8>, pos: int) -> Result<
    (Seq<(Seq<u8>, Value)>, int),
    BencodeError,
>
    decreases data.len() - pos, 1nat,
{
    if pos < 0 || pos >= data.len() {
        Err(BencodeError::Truncated)
    } else if data[pos] == END {
        Ok((Seq::empty(), pos + 1))
    } else if !is_digit(data[pos]) {
        Err(BencodeError::UnknownToken)
    } else {
        match parse_bytes(data, pos) {
            Err(e) => Err(e),
            Ok((key, mid)) => if mid <= pos {
                // Never so, here and below: a key and a value end after their start
                // and within `data`.
                Err(BencodeError::Truncated)
            } else {
                match parse_value(data, mid) {
                    Err(e) => Err(e),
                    Ok((item, next)) => if next <= mid || next > data.len() {
                        Err(BencodeError::Truncated)
                    } else {
                        prepend_entries(seq![(key, item)], parse_entries(data, next))
                    },
                }
            },
        }
    }
}

/// `head` put before the entries of `rest`, where `rest` is no error.
pub open spec fn prepend_entries(
    head: Seq<(Seq<u8>, Value)>,
    rest: Result<(Seq<(Seq<u8>, Value)>, int), BencodeError>,
) -> Result<(Seq<(Seq<u8>, Value)>, int), BencodeError> {
    match rest {
        Ok((entries, end)) => Ok((head + entries, end)),
        Err(e) => Err(e),
    }
}

/// To put no items before a result changes nothing.
proof fn lemma_prepend_no_items(rest: Result<(Seq<Value>, int), BencodeError>)
    ensures
        prepend_items(Seq::empty(), rest) == rest,
{
    if let Ok((items, end)) = rest {
        assert(Seq::<Value>::empty() + items =~= items);
    }
}

/// To put no entries before a result changes nothing.
proof fn lemma_prepend_no_entries(rest: Result<(Seq<(Seq<u8>, Value)>, int), BencodeError>)
    ensures
        prepend_entries(Seq::empty(), rest) == rest,
{
    if let Ok((entries, end)) = rest {
        assert(Seq::<(Seq<u8>, Value)>::empty() + entries =~= entries);
    }
}

/// To put items before a result and then an item before them is to put the items with
/// that item before it.
proof fn lemma_prepend_items_push(
    head: Seq<Value>,
    item: Value,
    rest: Result<(Seq<Value>, int), BencodeError>,
)
    ensures
        prepend_items(head, prepend_items(seq![item], rest)) == prepend_items(
            head.push(item),
            rest,
        ),
{
    if let Ok((items, end)) = rest {
        assert(head + (seq![item] + items) =~= head.push(item) + items);
    }
}

/// To put entries before a result and then an entry before them is to put the entries
/// with that entry before it.
proof fn lemma_prepend_entries_push(
    head: Seq<(Seq<u8>, Value)>,
    entry: (Seq<u8>, Value),
    rest: Result<(Seq<(Seq<u8>, Value)>, int), BencodeError>,
)
    ensures
        prepend_entries(head, prepend_entries(seq![entry], rest)) == prepend_entries(
            head.push(entry),
            rest,
        ),
{
    if let Ok((entries, end)) = rest {
        assert(head + (seq![entry] + entries) =~= head.push(entry) + entries);
    }
}

/// The entries of a dictionary as mathematics sees them.
pub open spec fn entries_view(entries: Seq<(Vec<u8>, Bencode)>) -> Seq<(Seq<u8>, Value)> {
    Seq::new(entries.len(), |k: int| (entries[k].0@, entries[k].1@))
}

/// The items of a list as mathematics sees them.
pub open spec fn items_view(items: Seq<Bencode>) -> Seq<Value> {
    Seq::new(items.len(), |k: int| items[k]@)
}

/// The view of a dictionary is made of the views of its entries, and the view
/// of a list of the views of its items.
pub proof fn lemma_view_parts(b: Bencode)
    ensures
        b matches Bencode::Dict(entries) ==> b@ == Value::Dict(entries_view(entries@)),
        b matches Bencode::List(items) ==> b@ == Value::List(items_view(items@)),
{
    match b {
        Bencode::Dict(entries) => {
            assert(b@->Dict_0 =~= entries_view(entries@));
        },
        Bencode::List(items) => {
            assert(b@->List_0 =~= items_view(items@));
        },
        _ => {},
    }
}

/// The value that a dictionary holds under `key`: that of the last entry with
/// this key, if there is one.
pub open spec fn dict_get(entries: Seq<(Seq<u8>, Value)>, key: Seq<u8>) -> Option<Value>
    decreases entries.len(),
{
    if entries.len() == 0 {
        None
    } else if entries.last().0 == key {
        Some(entries.last().1)
    } else {
        dict_get(entries.drop_last(), key)
    }
}

/// Tells whether two byte strings are the same.
pub fn bytes_equal(a: &[u8], b: &[u8]) -> (r: bool)
    ensures
        r == (a@ == b@),
{
    if a.len() != b.len() {
        return false;
    }
    let mut k: usize = 0;
    while k < a.len()
        invariant
            k <= a.len(),
            a.len() == b.len(),
            a@.take(k as int) == b@.take(k as int),
        decreases a.len() - k,
    {
        if a[k] != b[k] {
            return false;
        }
        assert(a@.take(k + 1) == a@.take(k as int).push(a@[k as int]));
        assert(b@.take(k + 1) == b@.take(k as int).push(b@[k as int]));
        k += 1;
    }
    assert(a@.take(k as int) == a@ && b@.take(k as int) == b@);
    true
}

/// Looks `key` up among the entries of a dictionary: the value of the last
/// entry with this key.
pub fn dict_find<'a>(entries: &'a Vec<(Vec<u8>, Bencode)>, key: &str) -> (r: Option<&'a Bencode>)
    ensures
        match dict_get(entries_view(entries@), key.spec_bytes()) {
            Some(v) => r is Some && r->Some_0@ == v,
            None => r is None,
        },
{
    let ghost all = entries_view(entries@);
    let wanted: &[u8] = key.as_bytes();
    let mut k: usize = entries.len();
    assert(all.take(k as int) == all);
    while k > 0
        invariant
            k <= entries.len(),
            all == entries_view(entries@),
            wanted@ == key.spec_bytes(),
            dict_get(all, key.spec_bytes()) == dict_get(all.take(k as int), key.spec_bytes()),
        decreases k,
    {
        k -= 1;
        assert(all.take(k + 1).last() == all[k as int]);
        assert(all.take(k + 1).drop_last() == all.take(k as int));
        if bytes_equal(entries[k].0.as_slice(), wanted) {
            return Some(&entries[k].1);
        }
    }
    None
}

/// Reads the run of digits at `pos`: where it ends, and the number it writes
/// if that fits in 128 bits.
fn read_digits(data: &[u8], pos: usize) -> (r: (usize, Option<u128>))
    requires
        pos <= data.len(),
    ensures
        r.0 as int == digits_end(data@, pos as int),
        pos <= r.0 <= data.len(),
        match r.1 {
            Some(v) => v as nat == decimal_value(data@.subrange(pos as int, r.0 as int)),
            None => decimal_value(data@.subrange(pos as int, r.0 as int)) > u128::MAX,
        },
{
    let mut k: usize = pos;
    let mut acc: Option<u128> = Some(0u128);
    assert(data@.subrange(pos as int, pos as int).len() == 0);
    while k < data.len() && data[k] >= ZERO && data[k] <= NINE
        invariant
            pos <= k <= data.len(),
            digits_end(data@, pos as int) == digits_end(data@, k as int),
            match acc {
                Some(v) => v as nat == decimal_value(data@.subrange(pos as int, k as int)),
                None => decimal_value(data@.subrange(pos as int, k as int)) > u128::MAX,
            },
        decreases data.len() - k,
    {
        let d: u128 = (data[k] - ZERO) as u128;
        proof {
            let longer = data@.subrange(pos as int, k + 1);
            assert(longer.drop_last() == data@.subrange(pos as int, k as int));
            assert(longer.last() == data@[k as int]);
        }
        acc =
        match acc {
            Some(v) => if v > (u128::MAX - d) / 10 {
                None
            } else {
                Some(v * 10 + d)
            },
            None => None,
        };
        k += 1;
    }
    (k, acc)
}

/// Reads the integer at `pos`.
fn parse_int_at(data: &[u8], pos: usize) -> (r: Result<(Bencode, usize), BencodeError>)
    requires
        pos < data.len(),
    ensures
        match parse_int(data@, pos as int) {
            Ok((v, end)) => r is Ok && r->Ok_0.0@ == v && r->Ok_0.1 == end && pos < end
                <= data.len(),
            Err(e) => r is Err && r->Err_0 == e,
        },
{
    let negative: bool = pos + 1 < data.len() && data[pos + 1] == MINUS;
    let start: usize = if negative {
        pos + 2
    } else {
        pos + 1
    };
    let run: (usize, Option<u128>) = read_digits(data, start);
    let end: usize = run.0;
    if end >= data.len() {
        return Err(BencodeError::Truncated);
    }
    if end == start || data[end] != END {
        return Err(BencodeError::BadInteger);
    }
    if data[start] == ZERO && (negative || end > start + 1) {
        return Err(BencodeError::BadInteger);
    }
    let limit: u128 = 0x8000_0000_0000_0000_0000_0000_0000_0000u128;
    match run.1 {
        None => Err(BencodeError::BadInteger),
        Some(m) => {
            if negative {
                if m > limit {
                    Err(BencodeError::BadInteger)
                } else if m == limit {
                    Ok((Bencode::Int(i128::MIN), end + 1))
                } else {
                    Ok((Bencode::Int(-(m as i128)), end + 1))
                }
            } else {
                if m >= limit {
                    Err(BencodeError::BadInteger)
                } else {
                    Ok((Bencode::Int(m as i128), end + 1))
                }
            }
        },
    }
}

/// Reads the byte string at `pos`.
fn parse_bytes_at(data: &[u8], pos: usize) -> (r: Result<(Vec<u8>, usize), BencodeError>)
    requires
        pos < data.len(),
    ensures
        match parse_bytes(data@, pos as int) {
            Ok((bytes, end)) => r is Ok && r->Ok_0.0@ == bytes && r->Ok_0.1 == end && pos < end
                <= data.len(),
            Err(e) => r is Err && r->Err_0 == e,
        },
{
    let run: (usize, Option<u128>) = read_digits(data, pos);
    let colon: usize = run.0;
    if colon >= data.len() {
        return Err(BencodeError::Truncated);
    }
    if data[colon] != COLON {
        return Err(BencodeError::BadLength);
    }
    let room: usize = data.len() - colon - 1;
    match run.1 {
        None => Err(BencodeError::Truncated),
        Some(n) => {
            if n > room as u128 {
                Err(BencodeError::Truncated)
            } else {
                let length: usize = n as usize;
                let bytes: Vec<u8> = slice_to_vec(
                    slice_subrange(data, colon + 1, colon + 1 + length),
                );
                Ok((bytes, colon + 1 + length))
            }
        },
    }
}

/// Reads the entry of a dictionary at `pos`: the key, the value, where the
/// value starts and where it ends.
fn parse_entry_at(data: &[u8], pos: usize) -> (r: Result<
    (Vec<u8>, Bencode, usize, usize),
    BencodeError,
>)
    requires
        pos < data.len(),
    ensures
        match parse_bytes(data@, pos as int) {
            Err(e) => r is Err && r->Err_0 == e,
            Ok((key, mid)) => pos < mid && match parse_value(data@, mid) {
                Err(e) => r is Err && r->Err_0 == e,
                Ok((v, next)) => {
                    &&& r is Ok
                    &&& r->Ok_0.0@ == key
                    &&& r->Ok_0.1@ == v
                    &&& r->Ok_0.2 == mid
                    &&& r->Ok_0.3 == next
                    &&& pos < mid < next <= data.len()
                },
            },
        },
    decreases data.len() - pos, 0nat,
{
    match parse_bytes_at(data, pos) {
        Err(e) => Err(e),
        Ok((key, mid)) => match parse_at(data, mid) {
            Err(e) => Err(e),
            Ok((item, next)) => Ok((key, item, mid, next)),
        },
    }
}

/// Reads the value at `pos`, and says where it ends.
fn parse_at(data: &[u8], pos: usize) -> (r: Result<(Bencode, usize), BencodeError>)
    ensures
        match parse_value(data@, pos as int) {
            Ok((v, end)) => r is Ok && r->Ok_0.0@ == v && r->Ok_0.1 == end && pos < end
                <= data.len(),
            Err(e) => r is Err && r->Err_0 == e,
        },
    decreases data.len() - pos, 1nat,
{
    if pos >= data.len() {
        return Err(BencodeError::Truncated);
    }
    let first: u8 = data[pos];
    if first == INT_START {
        parse_int_at(data, pos)
    } else if first >= ZERO && first <= NINE {
        match parse_bytes_at(data, pos) {
            Ok((bytes, end)) => Ok((Bencode::Bytes(bytes), end)),
            Err(e) => Err(e),
        }
    } else if first == LIST_START {
        let mut items: Vec<Bencode> = Vec::new();
        let mut cur: usize = pos + 1;
        let ghost mut done: Seq<Value> = Seq::empty();
        proof {
            lemma_prepend_no_items(parse_items(data@, cur as int));
        }
        while cur < data.len() && data[cur] != END
            invariant
                pos < cur <= data.len(),
                data@[pos as int] == LIST_START,
                done.len() == items.len(),
                forall|k: int| 0 <= k < items.len() ==> done[k] == (#[trigger] items[k])@,
                parse_items(data@, pos + 1) == prepend_items(done, parse_items(data@, cur as int)),
            decreases data.len() - cur,
        {
            match parse_at(data, cur) {
                Err(e) => {
                    return Err(e);
                },
                Ok((item, next)) => {
                    proof {
                        lemma_prepend_items_push(done, item@, parse_items(data@, next as int));
                        done = done.push(item@);
                    }
                    items.push(item);
                    cur = next;
                },
            }
        }
        if cur >= data.len() {
            return Err(BencodeError::Truncated);
        }
        let list: Bencode = Bencode::List(items);
        proof {
            assert(done + Seq::<Value>::empty() =~= done);
            assert(list@->List_0 =~= done);
        }
        Ok((list, cur + 1))
    } else if first == DICT_START {
        let mut entries: Vec<(Vec<u8>, Bencode)> = Vec::new();
        let mut cur: usize = pos + 1;
        let ghost mut done: Seq<(Seq<u8>, Value)> = Seq::empty();
        proof {
            lemma_prepend_no_entries(parse_entries(data@, cur as int));
        }
        while cur < data.len() && data[cur] != END
            invariant
                pos < cur <= data.len(),
                data@[pos as int] == DICT_START,
                done.len() == entries.len(),
                forall|k: int|
                    0 <= k < entries.len() ==> done[k] == ((#[trigger] entries[k]).0@, entries[k].1@),
                parse_entries(data@, pos + 1) == prepend_entries(
                    done,
                    parse_entries(data@, cur as int),
                ),
            decreases data.len() - cur,
        {
            if data[cur] < ZERO || data[cur] > NINE {
                return Err(BencodeError::UnknownToken);
            }
            match parse_entry_at(data, cur) {
                Err(e) => {
                    return Err(e);
                },
                Ok((key, item, mid, next)) => {
                    proof {
                        lemma_prepend_entries_push(
                            done,
                            (key@, item@),
                            parse_entries(data@, next as int),
                        );
                        done = done.push((key@, item@));
                    }
                    entries.push((key, item));
                    cur = next;
                },
            }
        }
        if cur >= data.len() {
            return Err(BencodeError::Truncated);
        }
        let dict: Bencode = Bencode::Dict(entries);
        proof {
            assert(done + Seq::<(Seq<u8>, Value)>::empty() =~= done);
            assert(dict@->Dict_0 =~= done);
        }
        Ok((dict, cur + 1))
    } else {
        Err(BencodeError::UnknownToken)
    }
}

/// Reads the value that starts at `*pos` and moves `*pos` behind it. On an
/// error `*pos` stays where it was.
pub fn parse_bencode(data: &[u8], pos: &mut usize) -> (r: Result<Bencode, BencodeError>)
    ensures
        match parse_value(data@, *old(pos) as int) {
            Ok((v, end)) => r is Ok && r->Ok_0@ == v && *final(pos) == end,
            Err(e) => r is Err && r->Err_0 == e && *final(pos) == *old(pos),
        },
{
    match parse_at(data, *pos) {
        Ok((value, end)) => {
            *pos = end;
            Ok(value)
        },
        Err(e) => Err(e),
    }
}

/// The later of two finds, where there is a later one.
pub open spec fn later_span(later: Option<(int, int)>, earlier: Option<(int, int)>) -> Option<
    (int, int),
> {
    if later is Some {
        later
    } else {
        earlier
    }
}

/// Where the value stands that the entries from `pos` on hold under `key`:
/// the start and the end of the value of the last entry with this key.
pub open spec fn span_from(data: Seq<u8>, pos: int, key: Seq<u8>) -> Option<(int, int)>
    decreases data.len() - pos,
{
    if pos < 0 || pos >= data.len() || !is_digit(data[pos]) {
        None
    } else {
        match parse_bytes(data, pos) {
            Err(_) => None,
            Ok((found, mid)) => match parse_value(data, mid) {
                Err(_) => None,
                Ok((_, next)) => if next <= pos || next > data.len() {
                    None
                } else {
                    later_span(
                        span_from(data, next, key),
                        if found == key {
                            Some((mid, next))
                        } else {
                            None
                        },
                    )
                },
            },
        }
    }
}

/// Where in `data`, which holds a dictionary, the value under `key` stands.
pub open spec fn value_span(data: Seq<u8>, key: Seq<u8>) -> Option<(int, int)> {
    if data.len() > 0 && data[0] == DICT_START {
        span_from(data, 1, key)
    } else {
        None
    }
}

/// A dictionary read from bytes: its entries, and where the value under one
/// key stood.
pub struct SpannedDict {
    pub entries: Vec<(Vec<u8>, Bencode)>,
    pub span: Option<(usize, usize)>,
}

/// Reads the value at the start of `data`, which is to be a dictionary, and
/// notes where the value under `key` stands. Gives nothing where the value is
/// of another kind.
pub fn decode_dict(data: &[u8], key: &str) -> (r: Result<Option<SpannedDict>, BencodeError>)
    ensures
        match parse_value(data@, 0) {
            Err(e) => r is Err && r->Err_0 == e,
            Ok((Value::Dict(m), _)) => {
                &&& r is Ok
                &&& r->Ok_0 is Some
                &&& entries_view(r->Ok_0->Some_0.entries@) == m
                &&& match value_span(data@, key.spec_bytes()) {
                    Some((from, to)) => r->Ok_0->Some_0.span == Some((from as usize, to as usize))
                        && 0 <= from <= to <= data.len(),
                    None => r->Ok_0->Some_0.span is None,
                }
            },
            Ok(_) => r is Ok && r->Ok_0 is None,
        },
{
    if data.len() == 0 || data[0] != DICT_START {
        return match parse_at(data, 0) {
            Err(e) => Err(e),
            Ok(_) => Ok(None),
        };
    }
    let wanted: &[u8] = key.as_bytes();
    let mut entries: Vec<(Vec<u8>, Bencode)> = Vec::new();
    let mut span: Option<(usize, usize)> = None;
    let mut cur: usize = 1;
    let ghost mut done: Seq<(Seq<u8>, Value)> = Seq::empty();
    let ghost mut noted: Option<(int, int)> = None;
    proof {
        lemma_prepend_no_entries(parse_entries(data@, 1));
    }
    while cur < data.len() && data[cur] != END
        invariant
            0 < cur <= data.len(),
            data@[0] == DICT_START,
            wanted@ == key.spec_bytes(),
            done == entries_view(entries@),
            parse_entries(data@, 1) == prepend_entries(done, parse_entries(data@, cur as int)),
            span_from(data@, 1, key.spec_bytes()) == later_span(
                span_from(data@, cur as int, key.spec_bytes()),
                noted,
            ),
            match noted {
                Some((from, to)) => span == Some((from as usize, to as usize)) && 0 <= from <= to
                    <= data.len(),
                None => span is None,
            },
        decreases data.len() - cur,
    {
        if data[cur] < ZERO || data[cur] > NINE {
            return Err(BencodeError::UnknownToken);
        }
        match parse_entry_at(data, cur) {
            Err(e) => {
                return Err(e);
            },
            Ok((found, item, mid, next)) => {
                proof {
                    lemma_prepend_entries_push(
                        done,
                        (found@, item@),
                        parse_entries(data@, next as int),
                    );
                    done = done.push((found@, item@));
                }
                if bytes_equal(found.as_slice(), wanted) {
                    span = Some((mid, next));
                    proof {
                        noted = Some((mid as int, next as int));
                    }
                }
                entries.push((found, item));
                assert(entries_view(entries@) =~= done);
                cur = next;
            },
        }
    }
    if cur >= data.len() {
        return Err(BencodeError::Truncated);
    }
    proof {
        assert(done + Seq::<(Seq<u8>, Value)>::empty() =~= done);
    }
    Ok(Some(SpannedDict { entries, span }))
}

impl Bencode {
    /// Reads the value at the start of `data`. Bytes that follow it are not looked at.
    pub fn decode(data: &[u8]) -> (r: Result<Bencode, BencodeError>)
        ensures
            match parse_value(data@, 0) {
                Ok((v, end)) => r is Ok && r->Ok_0@ == v,
                Err(e) => r is Err && r->Err_0 == e,
            },
    {
        match parse_at(data, 0) {
            Ok((value, end)) => Ok(value),
            Err(e) => Err(e),
        }
    }
}

/// Every integer in `v` fits in 128 bits.
pub open spec fn representable(v: Value) -> bool
    decreases v,
{
    match v {
        Value::Int(i) => i128::MIN <= i <= i128::MAX,
        Value::Bytes(_) => true,
        Value::List(items) => forall|k: int|
            0 <= k < items.len() ==> representable(#[trigger] items[k]),
        Value::Dict(entries) => forall|k: int|
            0 <= k < entries.len() ==> representable((#[trigger] entries[k]).1),
    }
}

/// The tree of a `Bencode` is representable.
pub proof fn lemma_view_representable(b: Bencode)
    ensures
        representable(b@),
    decreases b,
{
    match b {
        Bencode::Int(_) => {},
        Bencode::Bytes(_) => {},
        Bencode::List(items) => {
            assert forall|k: int| 0 <= k < b@->List_0.len() implies representable(
                #[trigger] b@->List_0[k],
            ) by {
                lemma_view_representable(items[k]);
            }
        },
        Bencode::Dict(entries) => {
            assert forall|k: int| 0 <= k < b@->Dict_0.len() implies representable(
                (#[trigger] b@->Dict_0[k]).1,
            ) by {
                lemma_view_representable(entries[k].1);
            }
        },
    }
}

/// `piece` stands in `data` at `pos`.
pub open spec fn matches_at(data: Seq<u8>, pos: int, piece: Seq<u8>) -> bool {
    0 <= pos && pos + piece.len() <= data.len() && data.subrange(pos, pos + piece.len()) == piece
}

/// Where two pieces stand in `data` one after the other, each of them stands there.
pub proof fn lemma_matches_concat(data: Seq<u8>, pos: int, a: Seq<u8>, b: Seq<u8>)
    requires
        matches_at(data, pos, a + b),
    ensures
        matches_at(data, pos, a),
        matches_at(data, pos + a.len(), b),
{
    let whole = data.subrange(pos, pos + (a + b).len());
    assert(data.subrange(pos, pos + a.len()) =~= whole.subrange(0, a.len() as int));
    assert((a + b).subrange(0, a.len() as int) =~= a);
    assert(data.subrange(pos + a.len(), pos + a.len() + b.len()) =~= whole.subrange(
        a.len() as int,
        (a + b).len() as int,
    ));
    assert((a + b).subrange(a.len() as int, (a + b).len() as int) =~= b);
}

/// A piece that stands in `data` at `pos` has its byte `k` at `pos + k`.
pub proof fn lemma_matches_index(data: Seq<u8>, pos: int, piece: Seq<u8>, k: int)
    requires
        matches_at(data, pos, piece),
        0 <= k < piece.len(),
    ensures
        data[pos + k] == piece[k],
{
    assert(data.subrange(pos, pos + piece.len())[k] == data[pos + k]);
}

/// A decimal numeral is made of digits, starts with `0` only when it is `"0"`,
/// and writes its number.
pub proof fn lemma_decimal(n: nat)
    ensures
        decimal(n).len() >= 1,
        forall|k: int| 0 <= k < decimal(n).len() ==> is_digit(#[trigger] decimal(n)[k]),
        decimal(n)[0] == ZERO <==> n == 0,
        n == 0 ==> decimal(n).len() == 1,
        decimal_value(decimal(n)) == n,
    decreases n,
{
    let s = decimal(n);
    if n < 10 {
        assert(s.drop_last().len() == 0);
        assert(decimal_value(s.drop_last()) == 0);
        assert(s.last() == digit_byte(n as int));
    } else {
        lemma_decimal(n / 10);
        let shorter = decimal(n / 10);
        assert(s == shorter.push(digit_byte((n % 10) as int)));
        assert(s.drop_last() == shorter);
        assert(s.last() == digit_byte((n % 10) as int));
        assert(s[0] == shorter[0]);
        assert forall|k: int| 0 <= k < s.len() implies is_digit(#[trigger] s[k]) by {
            if k < shorter.len() {
                assert(s[k] == shorter[k]);
            }
        }
    }
}

/// A run of `count` digits that ends before a byte that is no digit, or at the end,
/// ends there.
proof fn lemma_digits_run(data: Seq<u8>, pos: int, count: nat)
    requires
        0 <= pos,
        pos + count <= data.len(),
        forall|k: int| pos <= k < pos + count ==> is_digit(#[trigger] data[k]),
        pos + count == data.len() || !is_digit(data[pos + count]),
    ensures
        digits_end(data, pos) == pos + count,
    decreases count,
{
    if count > 0 {
        lemma_digits_run(data, pos + 1, (count - 1) as nat);
    }
}

/// Where a decimal numeral stands in `data` before a byte that is no digit,
/// the run of digits is the numeral.
proof fn lemma_numeral_at(data: Seq<u8>, pos: int, n: nat)
    requires
        matches_at(data, pos, decimal(n)),
        pos + decimal(n).len() < data.len(),
        !is_digit(data[pos + decimal(n).len()]),
    ensures
        digits_end(data, pos) == pos + decimal(n).len(),
        decimal_value(data.subrange(pos, digits_end(data, pos))) == n,
        is_digit(data[pos]),
        data[pos] == ZERO <==> n == 0,
{
    lemma_decimal(n);
    assert forall|k: int| pos <= k < pos + decimal(n).len() implies is_digit(
        #[trigger] data[k],
    ) by {
        lemma_matches_index(data, pos, decimal(n), k - pos);
    }
    lemma_digits_run(data, pos, decimal(n).len());
    lemma_matches_index(data, pos, decimal(n), 0);
}

/// What the first byte of an encoding is, by the kind of the value.
pub proof fn lemma_encode_head(v: Value)
    ensures
        encode(v).len() >= 2,
        match v {
            Value::Int(_) => encode(v)[0] == INT_START,
            Value::Bytes(_) => is_digit(encode(v)[0]),
            Value::List(_) => encode(v)[0] == LIST_START,
            Value::Dict(_) => encode(v)[0] == DICT_START,
        },
{
    match v {
        Value::Int(i) => {},
        Value::Bytes(b) => {
            lemma_decimal(b.len());
            assert(encode(v)[0] == decimal(b.len())[0]);
        },
        Value::List(items) => {},
        Value::Dict(entries) => {},
    }
}

/// The encoding of items is the encoding of the first, then that of the others.
pub proof fn lemma_encode_items_front(items: Seq<Value>)
    requires
        items.len() > 0,
    ensures
        encode_items(items) == encode(items[0]) + encode_items(items.drop_first()),
    decreases items.len(),
{
    if items.len() == 1 {
        assert(items.drop_last() =~= Seq::<Value>::empty());
        assert(items.drop_first() =~= Seq::<Value>::empty());
        assert(encode_items(items.drop_last()) =~= Seq::<u8>::empty());
        assert(encode_items(items) =~= encode(items[0]) + encode_items(items.drop_first()));
    } else {
        lemma_encode_items_front(items.drop_last());
        assert(items.drop_last().drop_first() =~= items.drop_first().drop_last());
        assert(items.drop_last()[0] == items[0]);
        assert(items.drop_first().last() == items.last());
        assert(encode_items(items) =~= encode(items[0]) + encode_items(items.drop_first()));
    }
}

/// The encoding of entries is the key and the value of the first, then the encoding of
/// the others.
pub proof fn lemma_encode_entries_front(entries: Seq<(Seq<u8>, Value)>)
    requires
        entries.len() > 0,
    ensures
        encode_entries(entries) == encode_bytes(entries[0].0) + encode(entries[0].1)
            + encode_entries(entries.drop_first()),
    decreases entries.len(),
{
    if entries.len() == 1 {
        assert(entries.drop_last() =~= Seq::<(Seq<u8>, Value)>::empty());
        assert(entries.drop_first() =~= Seq::<(Seq<u8>, Value)>::empty());
        assert(encode_entries(entries.drop_last()) =~= Seq::<u8>::empty());
        assert(encode_entries(entries) =~= encode_bytes(entries[0].0) + encode(entries[0].1)
            + encode_entries(entries.drop_first()));
    } else {
        lemma_encode_entries_front(entries.drop_last());
        assert(entries.drop_last().drop_first() =~= entries.drop_first().drop_last());
        assert(entries.drop_last()[0] == entries[0]);
        assert(entries.drop_first().last() == entries.last());
        assert(encode_entries(entries) =~= encode_bytes(entries[0].0) + encode(entries[0].1)
            + encode_entries(entries.drop_first()));
    }
}

/// Where the encoding of a byte string stands in `data`, the decoder reads
/// that byte string and stops behind it.
pub proof fn lemma_parse_encoded_bytes(b: Seq<u8>, data: Seq<u8>, pos: int)
    requires
        matches_at(data, pos, encode_bytes(b)),
    ensures
        parse_bytes(data, pos) == Ok::<(Seq<u8>, int), BencodeError>(
            (b, pos + encode_bytes(b).len()),
        ),
{
    let numeral = decimal(b.len());
    let width = numeral.len() as int;
    assert(encode_bytes(b) =~= numeral + (seq![COLON] + b));
    lemma_matches_concat(data, pos, numeral, seq![COLON] + b);
    lemma_matches_concat(data, pos + width, seq![COLON], b);
    lemma_matches_index(data, pos + width, seq![COLON], 0);
    lemma_numeral_at(data, pos, b.len());
}

/// Where the encoding of an integer stands in `data`, the decoder reads that
/// integer and stops behind it.
pub proof fn lemma_parse_encoded_int(i: int, data: Seq<u8>, pos: int)
    requires
        i128::MIN <= i <= i128::MAX,
        matches_at(data, pos, encode_int(i)),
    ensures
        parse_int(data, pos) == Ok::<(Value, int), BencodeError>(
            (Value::Int(i), pos + encode_int(i).len()),
        ),
        data[pos] == INT_START,
{
    let body = signed_decimal(i);
    assert(encode_int(i) =~= seq![INT_START] + (body + seq![END]));
    lemma_matches_concat(data, pos, seq![INT_START], body + seq![END]);
    lemma_matches_index(data, pos, seq![INT_START], 0);
    lemma_matches_concat(data, pos + 1, body, seq![END]);
    lemma_matches_index(data, pos + 1 + body.len(), seq![END], 0);
    if i < 0 {
        let m = (-i) as nat;
        lemma_matches_concat(data, pos + 1, seq![MINUS], decimal(m));
        lemma_matches_index(data, pos + 1, seq![MINUS], 0);
        lemma_numeral_at(data, pos + 2, m);
    } else {
        let m = i as nat;
        lemma_numeral_at(data, pos + 1, m);
        lemma_decimal(m);
    }
}

/// Where the encoding of a value stands in `data`, the decoder reads that
/// value and stops behind it.
pub proof fn lemma_parse_encoded(v: Value, data: Seq<u8>, pos: int)
    requires
        representable(v),
        matches_at(data, pos, encode(v)),
    ensures
        parse_value(data, pos) == Ok::<(Value, int), BencodeError>((v, pos + encode(v).len())),
    decreases v,
{
    lemma_encode_head(v);
    lemma_matches_index(data, pos, encode(v), 0);
    match v {
        Value::Int(i) => {
            lemma_parse_encoded_int(i, data, pos);
        },
        Value::Bytes(b) => {
            lemma_parse_encoded_bytes(b, data, pos);
        },
        Value::List(items) => {
            let body = encode_items(items);
            assert(encode(v) =~= seq![LIST_START] + (body + seq![END]));
            lemma_matches_concat(data, pos, seq![LIST_START], body + seq![END]);
            lemma_parse_encoded_items(items, data, pos + 1);
        },
        Value::Dict(entries) => {
            let body = encode_entries(entries);
            assert(encode(v) =~= seq![DICT_START] + (body + seq![END]));
            lemma_matches_concat(data, pos, seq![DICT_START], body + seq![END]);
            lemma_parse_encoded_entries(entries, data, pos + 1);
        },
    }
}

/// Where the encodings of items stand in `data` before an `e`, the decoder reads those
/// items and stops behind the `e`.
proof fn lemma_parse_encoded_items(items: Seq<Value>, data: Seq<u8>, pos: int)
    requires
        forall|k: int| 0 <= k < items.len() ==> representable(#[trigger] items[k]),
        matches_at(data, pos, encode_items(items) + seq![END]),
    ensures
        parse_items(data, pos) == Ok::<(Seq<Value>, int), BencodeError>(
            (items, pos + encode_items(items).len() + 1),
        ),
    decreases items,
{
    if items.len() == 0 {
        lemma_matches_index(data, pos, encode_items(items) + seq![END], 0);
        assert(items =~= Seq::<Value>::empty());
    } else {
        let head = items[0];
        let tail = items.drop_first();
        let first = encode(head);
        let rest = encode_items(tail) + seq![END];
        lemma_encode_items_front(items);
        assert(encode_items(items) + seq![END] =~= first + rest);
        lemma_matches_concat(data, pos, first, rest);
        lemma_encode_head(head);
        lemma_matches_index(data, pos, first, 0);
        lemma_parse_encoded(head, data, pos);
        assert forall|k: int| 0 <= k < tail.len() implies representable(#[trigger] tail[k]) by {
            assert(tail[k] == items[k + 1]);
        }
        lemma_parse_encoded_items(tail, data, pos + first.len());
        assert(seq![head] + tail =~= items);
    }
}

/// Where the encodings of entries stand in `data` before an `e`, the decoder reads
/// those entries and stops behind the `e`.
proof fn lemma_parse_encoded_entries(entries: Seq<(Seq<u8>, Value)>, data: Seq<u8>, pos: int)
    requires
        forall|k: int| 0 <= k < entries.len() ==> representable((#[trigger] entries[k]).1),
        matches_at(data, pos, encode_entries(entries) + seq![END]),
    ensures
        parse_entries(data, pos) == Ok::<(Seq<(Seq<u8>, Value)>, int), BencodeError>(
            (entries, pos + encode_entries(entries).len() + 1),
        ),
    decreases entries,
{
    if entries.len() == 0 {
        lemma_matches_index(data, pos, encode_entries(entries) + seq![END], 0);
        assert(entries =~= Seq::<(Seq<u8>, Value)>::empty());
    } else {
        let head = entries[0];
        let tail = entries.drop_first();
        let key = encode_bytes(head.0);
        let first = encode(head.1);
        let rest = encode_entries(tail) + seq![END];
        lemma_encode_entries_front(entries);
        assert(encode_entries(entries) + seq![END] =~= key + (first + rest));
        lemma_matches_concat(data, pos, key, first + rest);
        lemma_matches_concat(data, pos + key.len(), first, rest);
        lemma_encode_head(Value::Bytes(head.0));
        lemma_matches_index(data, pos, key, 0);
        lemma_parse_encoded_bytes(head.0, data, pos);
        lemma_encode_head(head.1);
        lemma_parse_encoded(head.1, data, pos + key.len());
        assert forall|k: int| 0 <= k < tail.len() implies representable(
            (#[trigger] tail[k]).1,
        ) by {
            assert(tail[k] == entries[k + 1]);
        }
        lemma_parse_encoded_entries(tail, data, pos + key.len() + first.len());
        assert(seq![head] + tail =~= entries);
    }
}

/// Decoding undoes encoding: the decoder reads from the encoding of a value
/// that value, and all of the encoding.
pub proof fn law_decode_encode(v: Value)
    requires
        representable(v),
    ensures
        parse_value(encode(v), 0) == Ok::<(Value, int), BencodeError>(
            (v, encode(v).len() as int),
        ),
{
    assert(encode(v).subrange(0, encode(v).len() as int) =~= encode(v));
    lemma_parse_encoded(v, encode(v), 0);
}

/// No entry has the key `key`.
pub open spec fn lacks_key(entries: Seq<(Seq<u8>, Value)>, key: Seq<u8>) -> bool {
    forall|k: int| 0 <= k < entries.len() ==> (#[trigger] entries[k]).0 != key
}

/// Every value of the entries is representable.
pub open spec fn representable_entries(entries: Seq<(Seq<u8>, Value)>) -> bool {
    forall|k: int| 0 <= k < entries.len() ==> representable((#[trigger] entries[k]).1)
}

/// A lookup in two runs of entries finds what the second run holds, and
/// otherwise what the first holds.
pub proof fn lemma_dict_get_concat(
    a: Seq<(Seq<u8>, Value)>,
    b: Seq<(Seq<u8>, Value)>,
    key: Seq<u8>,
)
    ensures
        dict_get(a + b, key) == (if dict_get(b, key) is Some {
            dict_get(b, key)
        } else {
            dict_get(a, key)
        }),
    decreases b.len(),
{
    if b.len() == 0 {
        assert(a + b =~= a);
    } else {
        assert((a + b).last() == b.last());
        assert((a + b).drop_last() =~= a + b.drop_last());
        lemma_dict_get_concat(a, b.drop_last(), key);
    }
}

/// A lookup in one entry.
pub proof fn lemma_dict_get_single(k: Seq<u8>, v: Value, key: Seq<u8>)
    ensures
        dict_get(seq![(k, v)], key) == (if k == key {
            Some(v)
        } else {
            None
        }),
        dict_get(Seq::empty(), key) is None,
{
    let one = seq![(k, v)];
    assert(one.last() == (k, v));
    assert(one.drop_last() =~= Seq::<(Seq<u8>, Value)>::empty());
}

/// Where no entry has the key, no span is found.
pub proof fn lemma_span_none(
    data: Seq<u8>,
    pos: int,
    entries: Seq<(Seq<u8>, Value)>,
    key: Seq<u8>,
)
    requires
        representable_entries(entries),
        matches_at(data, pos, encode_entries(entries) + seq![END]),
        lacks_key(entries, key),
    ensures
        span_from(data, pos, key) is None,
    decreases entries.len(),
{
    if entries.len() == 0 {
        lemma_matches_index(data, pos, encode_entries(entries) + seq![END], 0);
    } else {
        let head = entries[0];
        let tail = entries.drop_first();
        let first = encode_bytes(head.0);
        let second = encode(head.1);
        let rest = encode_entries(tail) + seq![END];
        lemma_encode_entries_front(entries);
        assert(encode_entries(entries) + seq![END] =~= first + (second + rest));
        lemma_matches_concat(data, pos, first, second + rest);
        lemma_matches_concat(data, pos + first.len(), second, rest);
        lemma_encode_head(Value::Bytes(head.0));
        lemma_matches_index(data, pos, first, 0);
        lemma_parse_encoded_bytes(head.0, data, pos);
        lemma_encode_head(head.1);
        lemma_parse_encoded(head.1, data, pos + first.len());
        assert forall|k: int| 0 <= k < tail.len() implies representable((#[trigger] tail[k]).1)
            && tail[k].0 != key by {
            assert(tail[k] == entries[k + 1]);
        }
        lemma_span_none(data, pos + first.len() + second.len(), tail, key);
    }
}

/// Where the entries are `before`, then one with the key, then entries
/// without the key, the span found is that of the value of that one entry:
/// it holds the encoding of the value.
pub proof fn lemma_span_of_key(
    data: Seq<u8>,
    pos: int,
    before: Seq<(Seq<u8>, Value)>,
    key: Seq<u8>,
    v: Value,
    after: Seq<(Seq<u8>, Value)>,
)
    requires
        representable_entries(before),
        representable(v),
        representable_entries(after),
        lacks_key(after, key),
        matches_at(data, pos, encode_entries(before + seq![(key, v)] + after) + seq![END]),
    ensures
        span_from(data, pos, key) is Some,
        ({
            let (from, to) = span_from(data, pos, key)->Some_0;
            0 <= from <= to <= data.len() && data.subrange(from, to) == encode(v)
        }),
    decreases before.len(),
{
    let entries = before + seq![(key, v)] + after;
    let head = entries[0];
    let tail = entries.drop_first();
    let first = encode_bytes(head.0);
    let second = encode(head.1);
    let rest = encode_entries(tail) + seq![END];
    lemma_encode_entries_front(entries);
    assert(encode_entries(entries) + seq![END] =~= first + (second + rest));
    lemma_matches_concat(data, pos, first, second + rest);
    lemma_matches_concat(data, pos + first.len(), second, rest);
    lemma_encode_head(Value::Bytes(head.0));
    lemma_matches_index(data, pos, first, 0);
    lemma_parse_encoded_bytes(head.0, data, pos);
    lemma_encode_head(head.1);
    assert(representable(head.1)) by {
        if before.len() > 0 {
            assert(head == before[0]);
        }
    }
    lemma_parse_encoded(head.1, data, pos + first.len());
    if before.len() == 0 {
        assert(tail =~= after);
        lemma_span_none(data, pos + first.len() + second.len(), after, key);
    } else {
        assert(tail =~= before.drop_first() + seq![(key, v)] + after);
        assert forall|k: int| 0 <= k < before.drop_first().len() implies representable(
            (#[trigger] before.drop_first()[k]).1,
        ) by {
            assert(before.drop_first()[k] == before[k + 1]);
        }
        lemma_span_of_key(
            data,
            pos + first.len() + second.len(),
            before.drop_first(),
            key,
            v,
            after,
        );
    }
}

/// Of two byte strings, only one comes before the other.
pub proof fn lemma_bytes_lt_asymmetric(a: Seq<u8>, b: Seq<u8>)
    requires
        bytes_lt(a, b),
    ensures
        !bytes_lt(b, a),
    decreases a.len(),
{
    if a.len() > 0 && b.len() > 0 && a[0] == b[0] {
        lemma_bytes_lt_asymmetric(a.drop_first(), b.drop_first());
    }
}

/// What comes before a byte string comes before all that this comes before.
pub proof fn lemma_bytes_lt_transitive(a: Seq<u8>, b: Seq<u8>, c: Seq<u8>)
    requires
        bytes_lt(a, b),
        bytes_lt(b, c),
    ensures
        bytes_lt(a, c),
    decreases a.len(),
{
    if a.len() > 0 && b.len() > 0 && c.len() > 0 && a[0] == b[0] && b[0] == c[0] {
        lemma_bytes_lt_transitive(a.drop_first(), b.drop_first(), c.drop_first());
    }
}

/// Two byte strings of which neither comes before the other are the same.
pub proof fn lemma_bytes_lt_total(a: Seq<u8>, b: Seq<u8>)
    requires
        !bytes_lt(a, b),
        !bytes_lt(b, a),
    ensures
        a == b,
    decreases a.len(),
{
    if a.len() > 0 && b.len() > 0 {
        lemma_bytes_lt_total(a.drop_first(), b.drop_first());
        assert(a =~= seq![a[0]] + a.drop_first());
        assert(b =~= seq![b[0]] + b.drop_first());
    } else {
        assert(a =~= b);
    }
}

/// The keys of the entries ascend strictly.
pub open spec fn keys_ascend(entries: Seq<(Seq<u8>, Value)>) -> bool {
    forall|i: int, j: int|
        0 <= i < j < entries.len() ==> bytes_lt((#[trigger] entries[i]).0, (#[trigger] entries[j]).0)
}

/// Every key of the entries comes before `key`.
pub open spec fn keys_below(entries: Seq<(Seq<u8>, Value)>, key: Seq<u8>) -> bool {
    forall|i: int| 0 <= i < entries.len() ==> bytes_lt((#[trigger] entries[i]).0, key)
}

/// Every value of the entries is canonical.
pub open spec fn canonical_entries(entries: Seq<(Seq<u8>, Value)>) -> bool {
    forall|k: int| 0 <= k < entries.len() ==> canonical((#[trigger] entries[k]).1)
}

/// Entries with ascending keys and canonical values make a canonical dictionary.
pub proof fn lemma_canonical_dict(entries: Seq<(Seq<u8>, Value)>)
    requires
        keys_ascend(entries),
        canonical_entries(entries),
    ensures
        canonical(Value::Dict(entries)),
{
    assert forall|k: int| 0 < k < entries.len() implies bytes_lt(
        entries[k - 1].0,
        (#[trigger] entries[k]).0,
    ) by {
        assert(bytes_lt(entries[k - 1].0, entries[k].0));
    }
}

/// Behind entries with ascending keys that all come before `key`, at most one
/// entry with that key keeps the keys ascending, and below every later key.
pub proof fn lemma_keys_extend(
    entries: Seq<(Seq<u8>, Value)>,
    part: Seq<(Seq<u8>, Value)>,
    key: Seq<u8>,
    later: Seq<u8>,
)
    requires
        keys_ascend(entries),
        canonical_entries(entries),
        keys_below(entries, key),
        part.len() <= 1,
        part.len() == 1 ==> part[0].0 == key && canonical(part[0].1),
        bytes_lt(key, later),
    ensures
        keys_ascend(entries + part),
        canonical_entries(entries + part),
        keys_below(entries + part, later),
{
    let all = entries + part;
    assert forall|i: int| 0 <= i < all.len() implies bytes_lt((#[trigger] all[i]).0, later) by {
        if i < entries.len() {
            assert(all[i] == entries[i]);
            lemma_bytes_lt_transitive(entries[i].0, key, later);
        } else {
            assert(all[i] == part[0]);
        }
    }
    assert forall|i: int, j: int| 0 <= i < j < all.len() implies bytes_lt(
        (#[trigger] all[i]).0,
        (#[trigger] all[j]).0,
    ) by {
        assert(all[i] == entries[i]);
        if j < entries.len() {
            assert(all[j] == entries[j]);
        } else {
            assert(all[j] == part[0]);
        }
    }
    assert forall|k: int| 0 <= k < all.len() implies canonical((#[trigger] all[k]).1) by {
        if k < entries.len() {
            assert(all[k] == entries[k]);
        } else {
            assert(all[k] == part[0]);
        }
    }
}

} // verus!
