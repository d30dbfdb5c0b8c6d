use crate::safe_read::{
    decoded, is_suffix, lemma_suffix_of_suffix, lemma_take_byte_leaves_suffix,
    lemma_take_leaves_suffix, refused, take_byte, take_bytes, DecodeError, Decoded, SafeRead,
};
use vstd::prelude::*;
use vstd::slice::{slice_subrange, slice_to_vec};
use vstd::utf8::{decode_utf8, encode_utf8, valid_utf8};

verus! {

/// A value that can be written as a frame.
pub trait Serialise: Sized {
    /// Whether the frame format can hold the value exactly: every length
    /// fits its prefix and every fixed field its width.
    spec fn encodable(&self) -> bool;

    /// The bytes of the value's frame.
    spec fn encoding(&self) -> Seq<u8>;

    /// Writes the value's frame.
    fn to_bytes(self) -> (out: Vec<u8>)
        requires
            self.encodable(),
        ensures
            out@ == self.encoding(),
    ;
}

/// A value that can be read back from a frame.
pub trait Deserialise: Sized + DeepView {
    /// What the front of `bytes` decodes to, and what it leaves.
    spec fn decoding(bytes: Seq<u8>) -> Decoded<Self::V>;

    /// Decoding reads from the front: what it leaves is an end of `bytes`.
    proof fn lemma_leaves_suffix(bytes: Seq<u8>)
        ensures
            is_suffix(Self::decoding(bytes).rest, bytes),
    ;

    /// Reads one value from the front of `src`.
    fn from_bytes<R: SafeRead>(src: &mut R) -> (res: Result<Self, DecodeError>)
        ensures
            match res {
                Ok(value) => Self::decoding(old(src).remaining()).result == Ok::<
                    Self::V,
                    DecodeError,
                >(value.deep_view()),
                Err(error) => Self::decoding(old(src).remaining()).result == Err::<
                    Self::V,
                    DecodeError,
                >(error),
            },
            final(src).remaining() == Self::decoding(old(src).remaining()).rest,
    ;
}

/// A value whose frame decodes to itself, whatever follows the frame, whose
/// frame is a matter of its view alone, and whose frame, cut short, decodes
/// to nothing.
pub trait RoundTrip: Serialise + Deserialise {
    /// The value is read back from its frame, and what follows the frame is
    /// left.
    proof fn lemma_round_trip(&self, tail: Seq<u8>)
        requires
            self.encodable(),
        ensures
            Self::decoding(self.encoding() + tail) == decoded(self.deep_view(), tail),
    ;

    /// The frame is a matter of the view alone: values with one view have
    /// one frame.
    proof fn lemma_frame_of_view(&self, other: &Self)
        requires
            self.deep_view() == other.deep_view(),
        ensures
            self.encodable() == other.encodable(),
            self.encoding() == other.encoding(),
    ;

    /// The first `cut` bytes of the frame, where they are not the whole
    /// frame, are refused.
    proof fn lemma_truncated(&self, cut: int)
        requires
            self.encodable(),
            0 <= cut < self.encoding().len(),
        ensures
            Self::decoding(self.encoding().take(cut)).result.is_err(),
    ;
}

/// The four bytes of `x`, most significant first.
pub open spec fn be32(x: u32) -> Seq<u8> {
    seq![
        (x / 0x100_0000) as u8,
        (x / 0x1_0000 % 0x100) as u8,
        (x / 0x100 % 0x100) as u8,
        (x % 0x100) as u8,
    ]
}

/// The number that four bytes spell, most significant first.
pub open spec fn be32_value(bytes: Seq<u8>) -> u32
    recommends
        bytes.len() == 4,
{
    (bytes[0] * 0x100_0000 + bytes[1] * 0x1_0000 + bytes[2] * 0x100 + bytes[3]) as u32
}

/// The two's complement word of a signed code.
pub open spec fn signed_word(code: i32) -> u32 {
    if code >= 0 {
        code as u32
    } else {
        (code + 0x1_0000_0000) as u32
    }
}

/// The signed code of a two's complement word.
pub open spec fn word_signed(word: u32) -> i32 {
    if word < 0x8000_0000 {
        word as i32
    } else {
        (word - 0x1_0000_0000) as i32
    }
}

/// The two's complement byte of a signed level.
pub open spec fn signed_byte(level: i8) -> u8 {
    if level >= 0 {
        level as u8
    } else {
        (level + 0x100) as u8
    }
}

/// The signed level of a two's complement byte.
pub open spec fn byte_signed(byte: u8) -> i8 {
    if byte < 0x80 {
        byte as i8
    } else {
        (byte - 0x100) as i8
    }
}

/// A number is read back from its four bytes.
pub proof fn lemma_be32_round_trip(x: u32)
    ensures
        be32(x).len() == 4,
        be32_value(be32(x)) == x,
{
    assert(x / 0x100_0000 < 0x100 && (x / 0x100_0000) * 0x100_0000 + (x / 0x1_0000 % 0x100)
        * 0x1_0000 + (x / 0x100 % 0x100) * 0x100 + x % 0x100 == x) by (bit_vector);
}

/// A signed code is read back from its word.
pub proof fn lemma_signed_word_round_trip(code: i32)
    ensures
        word_signed(signed_word(code)) == code,
{
}

/// A signed level is read back from its byte.
pub proof fn lemma_signed_byte_round_trip(level: i8)
    ensures
        byte_signed(signed_byte(level)) == level,
{
}

/// Taking back a block that was put in front of `tail`.
pub proof fn lemma_take_block(block: Seq<u8>, tail: Seq<u8>)
    ensures
        take_bytes(block + tail, block.len()) == decoded(block, tail),
{
    assert((block + tail).take(block.len() as int) =~= block);
    assert((block + tail).skip(block.len() as int) =~= tail);
}

/// Taking back a byte that was put in front of `tail`.
pub proof fn lemma_take_tag(tag: u8, tail: Seq<u8>)
    ensures
        take_byte(seq![tag] + tail) == decoded(tag, tail),
{
    lemma_take_block(seq![tag], tail);
}

/// A cut through two joined blocks falls in the first, or leaves the first
/// whole and falls in the second.
pub proof fn lemma_cut(first: Seq<u8>, second: Seq<u8>, cut: int)
    requires
        0 <= cut <= first.len() + second.len(),
    ensures
        cut <= first.len() ==> (first + second).take(cut) == first.take(cut),
        cut >= first.len() ==> (first + second).take(cut) == first + second.take(
            cut - first.len(),
        ),
{
    if cut <= first.len() {
        assert((first + second).take(cut) =~= first.take(cut));
    }
    if cut >= first.len() {
        assert((first + second).take(cut) =~= first + second.take(cut - first.len()));
    }
}

/// A cut through a tag and what follows it leaves nothing to read, or the
/// tag and what follows it, cut one byte earlier.
pub proof fn lemma_cut_tagged(tag: u8, body: Seq<u8>, cut: int)
    requires
        0 <= cut <= body.len() + 1,
    ensures
        cut == 0 ==> take_byte((seq![tag] + body).take(cut)).result.is_err(),
        cut > 0 ==> take_byte((seq![tag] + body).take(cut)) == decoded(tag, body.take(cut - 1)),
{
    lemma_cut(seq![tag], body, cut);
    if cut > 0 {
        lemma_take_tag(tag, body.take(cut - 1));
    }
}

/// Writes `x` as four bytes, most significant first.
pub fn u32_to_be_bytes(x: u32) -> (out: [u8; 4])
    ensures
        out@ == be32(x),
{
    let out = [
        (x / 0x100_0000) as u8,
        (x / 0x1_0000 % 0x100) as u8,
        (x / 0x100 % 0x100) as u8,
        (x % 0x100) as u8,
    ];
    assert(out@ =~= be32(x));
    out
}

/// Reads four bytes as a number, most significant first.
pub fn u32_from_be_bytes(bytes: [u8; 4]) -> (x: u32)
    ensures
        x == be32_value(bytes@),
{
    let b0 = bytes[0] as u32;
    let b1 = bytes[1] as u32;
    let b2 = bytes[2] as u32;
    let b3 = bytes[3] as u32;
    b0 * 0x100_0000 + b1 * 0x1_0000 + b2 * 0x100 + b3
}

/// Writes a signed code as four bytes, most significant first.
pub fn i32_to_be_bytes(code: i32) -> (out: [u8; 4])
    ensures
        out@ == be32(signed_word(code)),
{
    let word: u32 = if code >= 0 {
        code as u32
    } else {
        (code as i64 + 0x1_0000_0000) as u32
    };
    u32_to_be_bytes(word)
}

/// Reads four bytes as a signed code, most significant first.
pub fn i32_from_be_bytes(bytes: [u8; 4]) -> (code: i32)
    ensures
        code == word_signed(be32_value(bytes@)),
{
    let word = u32_from_be_bytes(bytes);
    if word < 0x8000_0000 {
        word as i32
    } else {
        (word as i64 - 0x1_0000_0000) as i32
    }
}

/// Writes a signed level as its two's complement byte.
pub fn i8_to_byte(level: i8) -> (byte: u8)
    ensures
        byte == signed_byte(level),
{
    if level >= 0 {
        level as u8
    } else {
        (level as i16 + 0x100) as u8
    }
}

/// Reads a two's complement byte as a signed level.
pub fn i8_from_byte(byte: u8) -> (level: i8)
    ensures
        level == byte_signed(byte),
{
    if byte < 0x80 {
        byte as i8
    } else {
        (byte as i16 - 0x100) as i8
    }
}

/// `String::from_utf8` of std: the text that `bytes` spell in UTF-8, or
/// nothing where they spell none.
#[verifier::external_body]
fn string_from_utf8(bytes: Vec<u8>) -> (text: Option<String>)
    ensures
        text.is_some() == valid_utf8(bytes@),
        text.is_some() ==> text.unwrap()@ == decode_utf8(bytes@),
{
    String::from_utf8(bytes).ok()
}

/// `heapless::Vec::from_slice` and `heapless::String::from_utf8`: the text
/// that `bytes` spell in UTF-8 where it fits a string of capacity `N`, or
/// nothing where the bytes are more than `N` or spell no text.
#[verifier::external_body]
fn bounded_text<const N: usize>(bytes: &[u8]) -> (text: Option<String>)
    ensures
        text.is_some() == (bytes@.len() <= N && valid_utf8(bytes@)),
        text.is_some() ==> text.unwrap()@ == decode_utf8(bytes@),
{
    let raw = heapless::Vec::<u8, N>::from_slice(bytes).ok()?;
    let bounded = heapless::String::<N>::from_utf8(raw).ok()?;
    Some(bounded.as_str().to_owned())
}

/// `n` zero bytes.
pub open spec fn zeros(n: nat) -> Seq<u8> {
    Seq::new(n, |i: int| 0u8)
}

/// A text in a field of `width` bytes: its UTF-8 bytes, then zeros up to
/// the width.
#[verifier::opaque]
pub open spec fn field_encoding(text: Seq<char>, width: nat) -> Seq<u8> {
    encode_utf8(text) + zeros((width - encode_utf8(text).len()) as nat)
}

/// Whether a field of `width` bytes holds the text exactly: it is no longer
/// than the field and does not end in a zero byte, which would be taken for
/// padding.
#[verifier::opaque]
pub open spec fn fits_field(text: Seq<char>, width: nat) -> bool {
    let raw = encode_utf8(text);
    raw.len() <= width && (raw.len() > 0 ==> raw.last() != 0)
}

/// A field without the zeros that it ends in.
pub open spec fn unpadded(field: Seq<u8>) -> Seq<u8>
    decreases field.len(),
{
    if field.len() > 0 && field.last() == 0 {
        unpadded(field.drop_last())
    } else {
        field
    }
}

/// The text that a field holds, where the bytes before its padding are
/// UTF-8.
#[verifier::opaque]
pub open spec fn field_text(field: Seq<u8>) -> Option<Seq<char>> {
    let raw = unpadded(field);
    if valid_utf8(raw) {
        Some(decode_utf8(raw))
    } else {
        None
    }
}

/// Zeros behind bytes that do not end in a zero are taken for padding,
/// and nothing else is.
proof fn lemma_unpadded_zeros(raw: Seq<u8>, n: nat)
    requires
        raw.len() > 0 ==> raw.last() != 0,
    ensures
        unpadded(raw + zeros(n)) == raw,
    decreases n,
{
    if n == 0 {
        assert(raw + zeros(n) =~= raw);
    } else {
        assert((raw + zeros(n)).drop_last() =~= raw + zeros((n - 1) as nat));
        lemma_unpadded_zeros(raw, (n - 1) as nat);
    }
}

/// A field without its padding is no longer than the field and does not
/// end in a zero.
proof fn lemma_unpadded_shape(field: Seq<u8>)
    ensures
        unpadded(field).len() <= field.len(),
        unpadded(field).len() > 0 ==> unpadded(field).last() != 0,
    decreases field.len(),
{
    if field.len() > 0 && field.last() == 0 {
        lemma_unpadded_shape(field.drop_last());
    }
}

/// A text that fits its field is read back from it.
pub proof fn lemma_field_round_trip(text: Seq<char>, width: nat)
    requires
        fits_field(text, width),
    ensures
        field_encoding(text, width).len() == width,
        field_text(field_encoding(text, width)) == Some(text),
{
    broadcast use vstd::utf8::encode_utf8_valid_utf8, vstd::utf8::encode_utf8_decode_utf8;

    reveal(field_encoding);
    reveal(fits_field);
    reveal(field_text);
    lemma_unpadded_zeros(encode_utf8(text), (width - encode_utf8(text).len()) as nat);
}

/// The empty text fits every field.
pub proof fn lemma_empty_text_fits(width: nat)
    ensures
        fits_field(Seq::<char>::empty(), width),
{
    reveal(fits_field);
}

/// A text that is read from a field fits a field of that width.
pub proof fn lemma_field_text_fits(field: Seq<u8>)
    ensures
        field_text(field).is_some() ==> fits_field(field_text(field).unwrap(), field.len()),
{
    broadcast use vstd::utf8::decode_utf8_encode_utf8;

    reveal(fits_field);
    reveal(field_text);
    lemma_unpadded_shape(field);
}

/// Whether a field of `N` bytes holds `text` exactly.
pub fn text_fits_field<const N: usize>(text: &str) -> (fits: bool)
    ensures
        fits == fits_field(text@, N as nat),
{
    proof {
        reveal(fits_field);
    }
    let raw = text.as_bytes();
    raw.len() <= N && (raw.len() == 0 || raw[raw.len() - 1] != 0)
}

/// Appends `text` to `out` as a field of `N` bytes.
pub fn write_field<const N: usize>(out: &mut Vec<u8>, text: &str)
    requires
        fits_field(text@, N as nat),
    ensures
        final(out)@ == old(out)@ + field_encoding(text@, N as nat),
{
    proof {
        reveal(fits_field);
    }
    let raw = text.as_bytes();
    let mut body = slice_to_vec(raw);
    out.append(&mut body);
    let mut i: usize = raw.len();
    while i < N
        invariant
            raw@.len() <= i <= N,
            out@ == old(out)@ + raw@ + zeros((i - raw@.len()) as nat),
        decreases N - i,
    {
        out.push(0);
        i += 1;
        assert(out@ =~= old(out)@ + raw@ + zeros((i - raw@.len()) as nat));
    }
    assert(out@ =~= old(out)@ + field_encoding(text@, N as nat)) by {
        reveal(field_encoding);
    }
}

/// Reads the text that a field of `N` bytes holds.
pub fn read_field<const N: usize>(field: &[u8; N]) -> (text: Option<String>)
    ensures
        match text {
            Some(s) => field_text(field@) == Some(s@),
            None => field_text(field@).is_none(),
        },
{
    let bytes = field.as_slice();
    let mut end: usize = N;
    assert(bytes@.take(end as int) =~= bytes@);
    while end > 0 && bytes[end - 1] == 0
        invariant
            end <= N,
            bytes@.len() == N,
            unpadded(bytes@) == unpadded(bytes@.take(end as int)),
        decreases end,
    {
        assert(bytes@.take(end as int).drop_last() =~= bytes@.take(end - 1));
        end -= 1;
    }
    let raw = slice_subrange(bytes, 0, end);
    proof {
        reveal(field_text);
        assert(raw@ =~= bytes@.take(end as int));
    }
    bounded_text::<N>(raw)
}

/// Whether a text's length in bytes fits the four bytes of its prefix.
#[verifier::opaque]
pub open spec fn string_encodable(text: Seq<char>) -> bool {
    encode_utf8(text).len() <= u32::MAX
}

/// A string travels as its length in bytes, four bytes most significant
/// first, and its UTF-8 bytes.
#[verifier::opaque]
pub open spec fn string_encoding(text: Seq<char>) -> Seq<u8> {
    be32(encode_utf8(text).len() as u32) + encode_utf8(text)
}

/// Decoding a string: its length, that many bytes, and the text that they
/// spell; bytes that spell no text are refused.
#[verifier::opaque]
pub open spec fn string_decoding(bytes: Seq<u8>) -> Decoded<Seq<char>> {
    let prefix = take_bytes(bytes, 4);
    match prefix.result {
        Err(error) => refused(error, prefix.rest),
        Ok(word) => {
            let body = take_bytes(prefix.rest, be32_value(word) as nat);
            match body.result {
                Err(error) => refused(error, body.rest),
                Ok(raw) => if valid_utf8(raw) {
                    decoded(decode_utf8(raw), body.rest)
                } else {
                    refused(DecodeError::InvalidUtf8, body.rest)
                },
            }
        },
    }
}

impl Serialise for String {
    open spec fn encodable(&self) -> bool {
        string_encodable(self@)
    }

    open spec fn encoding(&self) -> Seq<u8> {
        string_encoding(self@)
    }

    fn to_bytes(self) -> (out: Vec<u8>) {
        proof {
            reveal(string_encodable);
            reveal(string_encoding);
        }
        let raw = self.as_str().as_bytes();
        let prefix = u32_to_be_bytes(raw.len() as u32);
        let mut out = slice_to_vec(prefix.as_slice());
        let mut body = slice_to_vec(raw);
        out.append(&mut body);
        out
    }
}

impl Deserialise for String {
    open spec fn decoding(bytes: Seq<u8>) -> Decoded<Seq<char>> {
        string_decoding(bytes)
    }

    proof fn lemma_leaves_suffix(bytes: Seq<u8>) {
        reveal(string_decoding);
        let prefix = take_bytes(bytes, 4);
        lemma_take_leaves_suffix(bytes, 4);
        if prefix.result.is_ok() {
            let len = be32_value(prefix.result.unwrap()) as nat;
            lemma_take_leaves_suffix(prefix.rest, len);
            lemma_suffix_of_suffix(take_bytes(prefix.rest, len).rest, prefix.rest, bytes);
        }
    }

    fn from_bytes<R: SafeRead>(src: &mut R) -> (res: Result<Self, DecodeError>) {
        proof {
            reveal(string_decoding);
        }
        let word = match src.try_read::<4>() {
            Ok(word) => word,
            Err(error) => { return Err(error); },
        };
        let len = u32_from_be_bytes(word);
        let raw = match src.try_read_dyn(len as usize) {
            Ok(raw) => raw,
            Err(error) => { return Err(error); },
        };
        match string_from_utf8(raw) {
            Some(text) => Ok(text),
            None => Err(DecodeError::InvalidUtf8),
        }
    }
}

impl RoundTrip for String {
    proof fn lemma_round_trip(&self, tail: Seq<u8>) {
        broadcast use vstd::utf8::encode_utf8_valid_utf8, vstd::utf8::encode_utf8_decode_utf8;

        reveal(string_encodable);
        reveal(string_encoding);
        reveal(string_decoding);
        let raw = encode_utf8(self@);
        let prefix = be32(raw.len() as u32);
        lemma_be32_round_trip(raw.len() as u32);
        assert(self.encoding() + tail =~= prefix + (raw + tail));
        lemma_take_block(prefix, raw + tail);
        lemma_take_block(raw, tail);
    }

    proof fn lemma_truncated(&self, cut: int) {
        reveal(string_encodable);
        reveal(string_encoding);
        reveal(string_decoding);
        let raw = encode_utf8(self@);
        let prefix = be32(raw.len() as u32);
        lemma_be32_round_trip(raw.len() as u32);
        if cut >= 4 {
            lemma_cut(prefix, raw, cut);
            lemma_take_block(prefix, raw.take(cut - 4));
        }
    }

    proof fn lemma_frame_of_view(&self, other: &Self) {
    }
}

/// A pair travels as its first part and then its second.
impl<A: Serialise, B: Serialise> Serialise for (A, B) {
    open spec fn encodable(&self) -> bool {
        self.0.encodable() && self.1.encodable()
    }

    open spec fn encoding(&self) -> Seq<u8> {
        self.0.encoding() + self.1.encoding()
    }

    fn to_bytes(self) -> (out: Vec<u8>) {
        let mut out = self.0.to_bytes();
        let mut second = self.1.to_bytes();
        out.append(&mut second);
        out
    }
}

impl<A: Deserialise, B: Deserialise> Deserialise for (A, B) {
    open spec fn decoding(bytes: Seq<u8>) -> Decoded<(A::V, B::V)> {
        let first = A::decoding(bytes);
        match first.result {
            Err(error) => refused(error, first.rest),
            Ok(a) => {
                let second = B::decoding(first.rest);
                match second.result {
                    Err(error) => refused(error, second.rest),
                    Ok(b) => decoded((a, b), second.rest),
                }
            },
        }
    }

    proof fn lemma_leaves_suffix(bytes: Seq<u8>) {
        let first = A::decoding(bytes);
        A::lemma_leaves_suffix(bytes);
        if first.result.is_ok() {
            B::lemma_leaves_suffix(first.rest);
            lemma_suffix_of_suffix(B::decoding(first.rest).rest, first.rest, bytes);
        }
    }

    fn from_bytes<R: SafeRead>(src: &mut R) -> (res: Result<Self, DecodeError>) {
        let a = match A::from_bytes(src) {
            Ok(a) => a,
            Err(error) => { return Err(error); },
        };
        let b = match B::from_bytes(src) {
            Ok(b) => b,
            Err(error) => { return Err(error); },
        };
        Ok((a, b))
    }
}

impl<A: RoundTrip, B: RoundTrip> RoundTrip for (A, B) {
    proof fn lemma_round_trip(&self, tail: Seq<u8>) {
        assert(self.encoding() + tail =~= self.0.encoding() + (self.1.encoding() + tail));
        self.0.lemma_round_trip(self.1.encoding() + tail);
        self.1.lemma_round_trip(tail);
    }

    proof fn lemma_truncated(&self, cut: int) {
        let first = self.0.encoding();
        let second = self.1.encoding();
        lemma_cut(first, second, cut);
        if cut < first.len() {
            self.0.lemma_truncated(cut);
        } else {
            self.0.lemma_round_trip(second.take(cut - first.len()));
            self.1.lemma_truncated(cut - first.len());
        }
    }

    proof fn lemma_frame_of_view(&self, other: &Self) {
        self.0.lemma_frame_of_view(&other.0);
        self.1.lemma_frame_of_view(&other.1);
    }
}

/// The frames of `items`, one after the other.
pub open spec fn items_encoding<T: Serialise>(items: Seq<T>) -> Seq<u8>
    decreases items.len(),
{
    if items.len() == 0 {
        Seq::empty()
    } else {
        items[0].encoding() + items_encoding(items.drop_first())
    }
}

/// Decoding `count` items one after the other, behind those in `done`.
pub open spec fn items_decoding<T: Deserialise>(done: Seq<T::V>, bytes: Seq<u8>, count: nat) -> Decoded<
    Seq<T::V>,
>
    decreases count,
{
    if count == 0 {
        decoded(done, bytes)
    } else {
        let next = T::decoding(bytes);
        match next.result {
            Err(error) => refused(error, next.rest),
            Ok(item) => items_decoding::<T>(done.push(item), next.rest, (count - 1) as nat),
        }
    }
}

/// Decoding a list's items leaves an end of the bytes.
pub proof fn lemma_items_leave_suffix<T: Deserialise>(done: Seq<T::V>, bytes: Seq<u8>, count: nat)
    ensures
        is_suffix(items_decoding::<T>(done, bytes, count).rest, bytes),
    decreases count,
{
    if count == 0 {
        assert(bytes.skip(0) =~= bytes);
    } else {
        let next = T::decoding(bytes);
        T::lemma_leaves_suffix(bytes);
        if next.result.is_ok() {
            let more = items_decoding::<T>(
                done.push(next.result.unwrap()),
                next.rest,
                (count - 1) as nat,
            );
            lemma_items_leave_suffix::<T>(
                done.push(next.result.unwrap()),
                next.rest,
                (count - 1) as nat,
            );
            lemma_suffix_of_suffix(more.rest, next.rest, bytes);
        }
    }
}

/// Whether every item of the list is encodable.
pub open spec fn items_encodable<T: Serialise>(items: Seq<T>) -> bool {
    forall|i: int| 0 <= i < items.len() ==> (#[trigger] items[i]).encodable()
}

/// The frames of a list with one more item are the list's frames and then
/// the item's.
pub proof fn lemma_items_encoding_push<T: Serialise>(items: Seq<T>, item: T)
    ensures
        items_encoding(items.push(item)) == items_encoding(items) + item.encoding(),
    decreases items.len(),
{
    if items.len() == 0 {
        assert(items.push(item).drop_first() =~= Seq::<T>::empty());
        assert(items_encoding(items.push(item)) =~= item.encoding()) by {
            reveal_with_fuel(items_encoding, 2);
        }
        assert(items_encoding(items) + item.encoding() =~= item.encoding());
    } else {
        assert(items.push(item).drop_first() =~= items.drop_first().push(item));
        lemma_items_encoding_push(items.drop_first(), item);
        assert(items_encoding(items.push(item)) =~= items_encoding(items) + item.encoding());
    }
}

/// A list travels as its count in one byte and its items' frames.
impl<T: Serialise> Serialise for Vec<T> {
    open spec fn encodable(&self) -> bool {
        self@.len() <= u8::MAX && items_encodable(self@)
    }

    open spec fn encoding(&self) -> Seq<u8> {
        seq![self@.len() as u8] + items_encoding(self@)
    }

    fn to_bytes(self) -> (out: Vec<u8>) {
        let ghost items = self@;
        let mut stack = self;
        let mut turned: Vec<T> = Vec::new();
        while stack.len() > 0
            invariant
                stack@ + turned@.reverse() == items,
            decreases stack@.len(),
        {
            let ghost before_stack = stack@;
            let ghost before_turned = turned@;
            let item = stack.pop().unwrap();
            turned.push(item);
            assert(stack@ + turned@.reverse() =~= before_stack + before_turned.reverse());
        }
        assert(turned@.reverse() =~= items);
        let mut out: Vec<u8> = Vec::new();
        out.push(turned.len() as u8);
        let ghost mut written: Seq<T> = Seq::empty();
        while turned.len() > 0
            invariant
                written + turned@.reverse() == items,
                out@ == seq![items.len() as u8] + items_encoding(written),
                items_encodable(items),
            decreases turned@.len(),
        {
            let ghost before_turned = turned@;
            let item = turned.pop().unwrap();
            assert(written.push(item) + turned@.reverse() =~= written + before_turned.reverse());
            assert(item == items[written.len() as int]);
            proof {
                lemma_items_encoding_push(written, item);
                written = written.push(item);
            }
            let mut frame = item.to_bytes();
            out.append(&mut frame);
            assert(out@ =~= seq![items.len() as u8] + items_encoding(written));
        }
        assert(written =~= items);
        out
    }
}

impl<T: Deserialise> Deserialise for Vec<T> {
    open spec fn decoding(bytes: Seq<u8>) -> Decoded<Seq<T::V>> {
        let count = take_byte(bytes);
        match count.result {
            Err(error) => refused(error, count.rest),
            Ok(n) => items_decoding::<T>(Seq::empty(), count.rest, n as nat),
        }
    }

    proof fn lemma_leaves_suffix(bytes: Seq<u8>) {
        let count = take_byte(bytes);
        lemma_take_byte_leaves_suffix(bytes);
        if count.result.is_ok() {
            let n = count.result.unwrap() as nat;
            lemma_items_leave_suffix::<T>(Seq::empty(), count.rest, n);
            lemma_suffix_of_suffix(
                items_decoding::<T>(Seq::empty(), count.rest, n).rest,
                count.rest,
                bytes,
            );
        }
    }

    fn from_bytes<R: SafeRead>(src: &mut R) -> (res: Result<Self, DecodeError>) {
        let count = match src.try_next() {
            Ok(count) => count,
            Err(error) => { return Err(error); },
        };
        let mut items: Vec<T> = Vec::with_capacity(count as usize);
        let mut i: u8 = 0;
        assert(items.deep_view() =~= Seq::<T::V>::empty());
        while i < count
            invariant
                i <= count,
                items@.len() == i,
                items_decoding::<T>(items.deep_view(), src.remaining(), (count - i) as nat)
                    == Self::decoding(old(src).remaining()),
            decreases count - i,
        {
            let ghost before = items.deep_view();
            match T::from_bytes(src) {
                Ok(item) => {
                    items.push(item);
                    assert(items.deep_view() =~= before.push(item.deep_view()));
                },
                Err(error) => { return Err(error); },
            }
            i += 1;
        }
        Ok(items)
    }
}

/// A list's items are read back from their frames, behind those in `done`.
pub proof fn lemma_items_round_trip<T: RoundTrip>(done: Seq<T::V>, items: Seq<T>, tail: Seq<u8>)
    requires
        items_encodable(items),
    ensures
        items_decoding::<T>(done, items_encoding(items) + tail, items.len()) == decoded(
            done + items.map_values(|item: T| item.deep_view()),
            tail,
        ),
    decreases items.len(),
{
    let views = items.map_values(|item: T| item.deep_view());
    if items.len() == 0 {
        assert(items_encoding(items) + tail =~= tail);
        assert(done + views =~= done);
    } else {
        let first = items[0];
        let others = items.drop_first();
        assert(items_encoding(items) + tail =~= first.encoding() + (items_encoding(others) + tail));
        first.lemma_round_trip(items_encoding(others) + tail);
        lemma_items_round_trip::<T>(done.push(first.deep_view()), others, tail);
        assert(done.push(first.deep_view()) + others.map_values(|item: T| item.deep_view())
            =~= done + views);
    }
}

/// Lists whose items have the same views, place by place, have the same
/// frames.
pub proof fn lemma_items_frame_of_view<T: RoundTrip>(items: Seq<T>, others: Seq<T>)
    requires
        items.len() == others.len(),
        forall|i: int|
            0 <= i < items.len() ==> (#[trigger] items[i]).deep_view() == others[i].deep_view(),
    ensures
        items_encodable(items) == items_encodable(others),
        items_encoding(items) == items_encoding(others),
    decreases items.len(),
{
    assert forall|i: int| 0 <= i < items.len() implies (#[trigger] items[i]).encodable()
        == others[i].encodable() by {
        items[i].lemma_frame_of_view(&others[i]);
    }
    if items_encodable(items) {
        assert forall|i: int| 0 <= i < others.len() implies (#[trigger] others[i]).encodable() by {
            assert(items[i].encodable());
        }
    }
    if items_encodable(others) {
        assert forall|i: int| 0 <= i < items.len() implies (#[trigger] items[i]).encodable() by {
            assert(others[i].encodable());
        }
    }
    if items.len() > 0 {
        items[0].lemma_frame_of_view(&others[0]);
        assert forall|i: int| 0 <= i < items.drop_first().len() implies (
        #[trigger] items.drop_first()[i]).deep_view() == others.drop_first()[i].deep_view() by {
            assert(items[i + 1].deep_view() == others[i + 1].deep_view());
        }
        lemma_items_frame_of_view::<T>(items.drop_first(), others.drop_first());
    }
}

/// A list's items, cut short, are refused.
pub proof fn lemma_items_truncated<T: RoundTrip>(done: Seq<T::V>, items: Seq<T>, cut: int)
    requires
        items_encodable(items),
        0 <= cut < items_encoding(items).len(),
    ensures
        items_decoding::<T>(done, items_encoding(items).take(cut), items.len()).result.is_err(),
    decreases items.len(),
{
    if items.len() > 0 {
        let first = items[0];
        let others = items.drop_first();
        let head = first.encoding();
        let more = items_encoding(others);
        lemma_cut(head, more, cut);
        if cut < head.len() {
            first.lemma_truncated(cut);
        } else {
            first.lemma_round_trip(more.take(cut - head.len()));
            lemma_items_truncated::<T>(done.push(first.deep_view()), others, cut - head.len());
        }
    }
}

impl<T: RoundTrip> RoundTrip for Vec<T> {
    proof fn lemma_truncated(&self, cut: int) {
        lemma_cut_tagged(self@.len() as u8, items_encoding(self@), cut);
        if cut > 0 {
            lemma_items_truncated::<T>(Seq::empty(), self@, cut - 1);
        }
    }

    proof fn lemma_round_trip(&self, tail: Seq<u8>) {
        let count = seq![self@.len() as u8];
        assert(self.encoding() + tail =~= count + (items_encoding(self@) + tail));
        lemma_take_tag(self@.len() as u8, items_encoding(self@) + tail);
        lemma_items_round_trip::<T>(Seq::empty(), self@, tail);
        assert(Seq::<T::V>::empty() + self@.map_values(|item: T| item.deep_view())
            =~= self.deep_view());
    }

    proof fn lemma_frame_of_view(&self, other: &Self) {
        assert(self@.len() == self.deep_view().len());
        assert(other@.len() == other.deep_view().len());
        assert forall|i: int| 0 <= i < self@.len() implies (#[trigger] self@[i]).deep_view()
            == other@[i].deep_view() by {
            assert(self.deep_view()[i] == self@[i].deep_view());
            assert(other.deep_view()[i] == other@[i].deep_view());
        }
        lemma_items_frame_of_view::<T>(self@, other@);
    }
}

/// An outcome travels as a byte that tells success from failure, `0` or `1`,
/// and then the payload's frame or the failure's code in four bytes.
impl<T: Serialise> Serialise for Result<T, i32> {
    open spec fn encodable(&self) -> bool {
        match self {
            Ok(payload) => payload.encodable(),
            Err(_) => true,
        }
    }

    open spec fn encoding(&self) -> Seq<u8> {
        match self {
            Ok(payload) => seq![0u8] + payload.encoding(),
            Err(code) => seq![1u8] + be32(signed_word(*code)),
        }
    }

    fn to_bytes(self) -> (out: Vec<u8>) {
        match self {
            Ok(payload) => {
                let mut out: Vec<u8> = Vec::new();
                out.push(0);
                let mut frame = payload.to_bytes();
                out.append(&mut frame);
                out
            },
            Err(code) => {
                let mut out: Vec<u8> = Vec::new();
                out.push(1);
                let word = i32_to_be_bytes(code);
                let mut frame = slice_to_vec(word.as_slice());
                out.append(&mut frame);
                out
            },
        }
    }
}

} // verus!
