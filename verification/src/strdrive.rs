//! The subject of a match: text (a `str`) or bytes, read by character positions and byte offsets.
use vstd::prelude::*;
use vstd::utf8::{encode_utf8, encode_scalar, decode_utf8, is_char_boundary, is_continuation_byte};
use vstd::string::StrSliceExecFns;

verus! {

/// The text or bytes that a pattern is matched against.
#[derive(Clone, Copy, Debug)]
pub enum StrDrive<'a> {
    Str(&'a str),
    Bytes(&'a [u8]),
}

impl<'a> From<&'a str> for StrDrive<'a> {
    fn from(s: &'a str) -> (r: Self) {
        StrDrive::Str(s)
    }
}

impl<'a> vstd::std_specs::convert::FromSpecImpl<&'a str> for StrDrive<'a> {
    open spec fn obeys_from_spec() -> bool {
        true
    }

    open spec fn from_spec(s: &'a str) -> Self {
        StrDrive::Str(s)
    }
}

impl<'a> From<&'a [u8]> for StrDrive<'a> {
    fn from(b: &'a [u8]) -> (r: Self) {
        StrDrive::Bytes(b)
    }
}

impl<'a> vstd::std_specs::convert::FromSpecImpl<&'a [u8]> for StrDrive<'a> {
    open spec fn obeys_from_spec() -> bool {
        true
    }

    open spec fn from_spec(b: &'a [u8]) -> Self {
        StrDrive::Bytes(b)
    }
}

/// What a `StrDrive` holds: the chars of a text, or bytes.
pub enum StrModel {
    Str(Seq<char>),
    Bytes(Seq<u8>),
}

impl<'a> View for StrDrive<'a> {
    type V = StrModel;

    open spec fn view(&self) -> StrModel {
        match *self {
            StrDrive::Str(s) => StrModel::Str(s@),
            StrDrive::Bytes(b) => StrModel::Bytes(b@),
        }
    }
}

impl StrModel {
    /// The bytes that offsets index: the UTF-8 encoding of a text, or the bytes themselves.
    pub open spec fn bytes(self) -> Seq<u8> {
        match self {
            StrModel::Str(cs) => encode_utf8(cs),
            StrModel::Bytes(b) => b,
        }
    }

    /// The number of characters (chars of a text, bytes of bytes).
    pub open spec fn count(self) -> nat {
        match self {
            StrModel::Str(cs) => cs.len(),
            StrModel::Bytes(b) => b.len(),
        }
    }
}

/// The first byte of a UTF-8 sequence: an ASCII byte or a leading byte of a multibyte char.
pub open spec fn spec_is_utf8_first_byte(b: u8) -> bool {
    (b & 0x80u8 == 0) || (b & 0xC0u8 == 0xC0u8)
}

pub proof fn lemma_first_byte_iff_not_continuation(b: u8)
    ensures
        spec_is_utf8_first_byte(b) <==> !is_continuation_byte(b),
{
    assert(((b & 0x80u8 == 0) || (b & 0xC0u8 == 0xC0u8)) <==> !(0x80u8 <= b && b <= 0xbfu8))
        by (bit_vector);
}

pub fn is_utf8_first_byte(b: u8) -> (r: bool)
    ensures
        r == spec_is_utf8_first_byte(b),
{
    (b & 0b10000000 == 0) || (b & 0b11000000 == 0b11000000)
}

/// The first index from `j` on that holds no continuation byte (or the end of `bytes`).
pub open spec fn next_char_start(bytes: Seq<u8>, j: int) -> int
    decreases bytes.len() - j,
{
    if j < 0 || j >= bytes.len() || !is_continuation_byte(bytes[j]) {
        j
    } else {
        next_char_start(bytes, j + 1)
    }
}

/// The offset reached from offset `o` by moving forward over `skip` chars, stopping at the end.
pub open spec fn str_advance(bytes: Seq<u8>, o: int, skip: nat) -> int
    decreases skip,
{
    if o >= bytes.len() {
        bytes.len() as int
    } else if skip == 0 {
        o
    } else {
        str_advance(bytes, next_char_start(bytes, o + 1), (skip - 1) as nat)
    }
}

/// The offset of the char that starts at or before byte `offset - 1`, looking back at most
/// four bytes; `None` where no such first byte is found or the offset is out of range.
pub open spec fn spec_utf8_back_peek_offset(bytes: Seq<u8>, offset: int) -> Option<int> {
    let o = offset - 1;
    if o < 0 || o >= bytes.len() {
        None
    } else if spec_is_utf8_first_byte(bytes[o]) {
        Some(o)
    } else if o - 1 < 0 {
        None
    } else if spec_is_utf8_first_byte(bytes[o - 1]) {
        Some(o - 1)
    } else if o - 2 < 0 {
        None
    } else if spec_is_utf8_first_byte(bytes[o - 2]) {
        Some(o - 2)
    } else if o - 3 < 0 {
        None
    } else if spec_is_utf8_first_byte(bytes[o - 3]) {
        Some(o - 3)
    } else {
        None
    }
}

/// Moves back over `skip` chars from offset `o` in UTF-8 bytes.
pub open spec fn str_back(bytes: Seq<u8>, o: int, skip: nat) -> Option<int>
    decreases skip,
{
    if skip == 0 {
        Some(o)
    } else {
        match spec_utf8_back_peek_offset(bytes, o) {
            None => None,
            Some(o2) => str_back(bytes, o2, (skip - 1) as nat),
        }
    }
}

/// Reads up to four bytes as a big-endian number.
pub open spec fn be_value(bytes: Seq<u8>, from: int, to: int) -> int
    decreases to - from,
{
    if to <= from {
        0
    } else {
        be_value(bytes, from, to - 1) * 256 + bytes[to - 1]
    }
}

impl StrModel {
    /// The offset `skip` chars after offset `offset`; for a text, an offset that is no char
    /// boundary, or a skip past the end, gives the byte length. `None` on overflow.
    pub open spec fn offset(self, offset: usize, skip: usize) -> Option<usize> {
        match self {
            StrModel::Str(cs) => {
                let b = encode_utf8(cs);
                if is_char_boundary(b, offset as int) {
                    Some(str_advance(b, offset as int, skip as nat) as usize)
                } else {
                    Some(b.len() as usize)
                }
            },
            StrModel::Bytes(_) => if offset + skip > usize::MAX {
                None
            } else {
                Some((offset + skip) as usize)
            },
        }
    }

    /// The char (or byte) that starts at `offset`; `None` where none starts there.
    pub open spec fn peek(self, offset: usize) -> Option<u32> {
        match self {
            StrModel::Str(cs) => {
                let b = encode_utf8(cs);
                if is_char_boundary(b, offset as int) && offset < b.len() {
                    Some(decode_utf8(b.subrange(offset as int, b.len() as int))[0] as u32)
                } else {
                    None
                }
            },
            StrModel::Bytes(b) => if offset < b.len() {
                Some(b[offset as int] as u32)
            } else {
                None
            },
        }
    }

    /// What lies just before `offset`: for a text, the raw UTF-8 bytes of the char that ends
    /// there read as a big-endian number; for bytes, the byte.
    pub open spec fn back_peek(self, offset: usize) -> Option<u32> {
        match self {
            StrModel::Str(cs) => {
                let b = encode_utf8(cs);
                match spec_utf8_back_peek_offset(b, offset as int) {
                    None => None,
                    Some(bo) => Some(be_value(b, bo, offset as int) as u32),
                }
            },
            StrModel::Bytes(b) => if 1 <= offset && offset - 1 < b.len() {
                Some(b[offset - 1] as u32)
            } else {
                None
            },
        }
    }

    /// The offset `skip` chars before `offset`; `None` where that is impossible.
    pub open spec fn back_offset(self, offset: usize, skip: usize) -> Option<usize> {
        match self {
            StrModel::Str(cs) => match str_back(encode_utf8(cs), offset as int, skip as nat) {
                None => None,
                Some(o) => Some(o as usize),
            },
            StrModel::Bytes(_) => if offset < skip {
                None
            } else {
                Some((offset - skip) as usize)
            },
        }
    }
}

/// Offset of the first byte of the UTF-8 char that contains byte `offset - 1`.
pub fn utf8_back_peek_offset(bytes: &[u8], offset: usize) -> (r: usize)
    requires
        spec_utf8_back_peek_offset(bytes@, offset as int) is Some,
    ensures
        Some(r as int) == spec_utf8_back_peek_offset(bytes@, offset as int),
{
    let mut offset = offset - 1;
    if !is_utf8_first_byte(bytes[offset]) {
        offset -= 1;
        if !is_utf8_first_byte(bytes[offset]) {
            offset -= 1;
            if !is_utf8_first_byte(bytes[offset]) {
                offset -= 1;
            }
        }
    }
    offset
}

impl<'a> StrDrive<'a> {
    /// The offset `skip` characters after `offset`.
    pub fn offset(&self, offset: usize, skip: usize) -> (r: usize)
        requires
            self@.offset(offset, skip) is Some,
        ensures
            Some(r) == self@.offset(offset, skip),
    {
        match *self {
            StrDrive::Str(s) => {
                let bytes = s.as_bytes();
                proof {
                    vstd::utf8::encode_utf8_valid_utf8(s@);
                }
                if !s.is_char_boundary(offset) {
                    return bytes.len();
                }
                let len = bytes.len();
                let mut o = offset;
                let mut k: usize = 0;
                while k < skip && o < len
                    invariant
                        bytes@ == encode_utf8(s@),
                        len == bytes@.len(),
                        k <= skip,
                        offset <= o <= len,
                        str_advance(bytes@, o as int, (skip - k) as nat) == str_advance(
                            bytes@,
                            offset as int,
                            skip as nat,
                        ),
                    decreases skip - k,
                {
                    let mut j = o + 1;
                    while j < len && !is_utf8_first_byte(bytes[j])
                        invariant
                            o < j <= len,
                            len == bytes@.len(),
                            next_char_start(bytes@, j as int) == next_char_start(
                                bytes@,
                                o + 1,
                            ),
                        decreases len - j,
                    {
                        proof {
                            lemma_first_byte_iff_not_continuation(bytes@[j as int]);
                        }
                        j += 1;
                    }
                    proof {
                        if j < len {
                            lemma_first_byte_iff_not_continuation(bytes@[j as int]);
                        }
                    }
                    o = j;
                    k += 1;
                }
                o
            },
            StrDrive::Bytes(_) => offset + skip,
        }
    }

    /// The number of characters: chars of a text, bytes of bytes.
    pub fn count(&self) -> (r: usize)
        ensures
            r == self@.count(),
    {
        match *self {
            StrDrive::Str(s) => s.unicode_len(),
            StrDrive::Bytes(b) => b.len(),
        }
    }

    /// The character that starts at `offset`.
    pub fn peek(&self, offset: usize) -> (r: u32)
        requires
            self@.peek(offset) is Some,
        ensures
            Some(r) == self@.peek(offset),
    {
        match *self {
            StrDrive::Str(s) => {
                proof {
                    vstd::utf8::encode_utf8_valid_utf8(s@);
                }
                let (_, rest) = s.split_at(offset);
                proof {
                    vstd::utf8::encode_utf8_decode_utf8(rest@);
                    assert(rest@.len() > 0);
                }
                let mut it = rest.chars();
                match it.next() {
                    Some(c) => c as u32,
                    None => {
                        proof {
                            assert(false);
                        }
                        0
                    },
                }
            },
            StrDrive::Bytes(b) => b[offset] as u32,
        }
    }

    /// What lies just before `offset` (see `StrModel::back_peek`).
    pub fn back_peek(&self, offset: usize) -> (r: u32)
        requires
            self@.back_peek(offset) is Some,
        ensures
            Some(r) == self@.back_peek(offset),
    {
        match *self {
            StrDrive::Str(s) => {
                let bytes = s.as_bytes();
                let back_offset = utf8_back_peek_offset(bytes, offset);
                let d = offset - back_offset;
                proof {
                    reveal_with_fuel(be_value, 5);
                }
                if d == 1 {
                    bytes[offset - 1] as u32
                } else if d == 2 {
                    bytes[offset - 2] as u32 * 256 + bytes[offset - 1] as u32
                } else if d == 3 {
                    (bytes[offset - 3] as u32 * 256 + bytes[offset - 2] as u32) * 256
                        + bytes[offset - 1] as u32
                } else {
                    ((bytes[offset - 4] as u32 * 256 + bytes[offset - 3] as u32) * 256
                        + bytes[offset - 2] as u32) * 256 + bytes[offset - 1] as u32
                }
            },
            StrDrive::Bytes(b) => b[offset - 1] as u32,
        }
    }

    /// The offset `skip` characters before `offset`.
    pub fn back_offset(&self, offset: usize, skip: usize) -> (r: usize)
        requires
            self@.back_offset(offset, skip) is Some,
        ensures
            Some(r) == self@.back_offset(offset, skip),
    {
        match *self {
            StrDrive::Str(s) => {
                let bytes = s.as_bytes();
                let mut back_offset = offset;
                let mut k: usize = 0;
                while k < skip
                    invariant
                        k <= skip,
                        bytes@ == encode_utf8(s@),
                        str_back(bytes@, back_offset as int, (skip - k) as nat) == str_back(
                            bytes@,
                            offset as int,
                            skip as nat,
                        ),
                        str_back(bytes@, offset as int, skip as nat) is Some,
                    decreases skip - k,
                {
                    back_offset = utf8_back_peek_offset(bytes, back_offset);
                    k += 1;
                }
                back_offset
            },
            StrDrive::Bytes(_) => offset - skip,
        }
    }
}

/* ---------------- char positions and byte offsets ---------------- */

/// The byte offset at which char `p` of a text starts (the length of the encoding of the
/// chars before it).
pub open spec fn char_offset(cs: Seq<char>, p: int) -> int {
    encode_utf8(cs.take(p)).len() as int
}

impl StrModel {
    /// The offset of character position `p`: the byte offset of char `p` of a text, or `p`
    /// itself for bytes.
    pub open spec fn offset_of(self, p: int) -> int {
        match self {
            StrModel::Str(cs) => char_offset(cs, p),
            StrModel::Bytes(_) => p,
        }
    }

    /// The character at position `p`: a char of a text, or a byte.
    pub open spec fn char_at(self, p: int) -> u32 {
        match self {
            StrModel::Str(cs) => cs[p] as u32,
            StrModel::Bytes(b) => b[p] as u32,
        }
    }
}

proof fn lemma_encode_utf8_append(a: Seq<char>, b: Seq<char>)
    ensures
        encode_utf8(a + b) == encode_utf8(a) + encode_utf8(b),
    decreases a.len(),
{
    if a.len() == 0 {
        assert(a + b =~= b);
        assert(encode_utf8(a) + encode_utf8(b) =~= encode_utf8(b));
    } else {
        lemma_encode_utf8_append(a.drop_first(), b);
        assert((a + b).drop_first() =~= a.drop_first() + b);
        assert((a + b)[0] == a[0]);
        assert(encode_utf8(a + b) =~= encode_utf8(a) + encode_utf8(b));
    }
}

/// The bytes of one char: one to four, a first byte and then continuation bytes.
proof fn lemma_scalar_bytes(c: char)
    ensures
        1 <= encode_scalar(c as u32).len() <= 4,
        !is_continuation_byte(encode_scalar(c as u32)[0]),
        forall|k: int|
            1 <= k < encode_scalar(c as u32).len() ==> is_continuation_byte(
                #[trigger] encode_scalar(c as u32)[k],
            ),
{
    vstd::utf8::char_is_scalar(c);
    let v = c as u32;
    assert(!is_continuation_byte((v & 0x7F) as u8)) by (bit_vector);
    assert(!is_continuation_byte(0xC0u8 | ((v >> 6u32) & 0x1Fu32) as u8)) by (bit_vector);
    assert(!is_continuation_byte(0xE0u8 | ((v >> 12u32) & 0x0Fu32) as u8)) by (bit_vector);
    assert(!is_continuation_byte(0xF0u8 | ((v >> 18u32) & 0x7u32) as u8)) by (bit_vector);
    assert(is_continuation_byte(0x80u8 | (v & 0x3Fu32) as u8)) by (bit_vector);
    assert(is_continuation_byte(0x80u8 | ((v >> 6u32) & 0x3Fu32) as u8)) by (bit_vector);
    assert(is_continuation_byte(0x80u8 | ((v >> 12u32) & 0x3Fu32) as u8)) by (bit_vector);
}

/// A text's bytes are those of the chars before `p`, those of char `p`, and those after it.
proof fn lemma_char_layout(cs: Seq<char>, p: int)
    requires
        0 <= p < cs.len(),
    ensures
        encode_utf8(cs) == encode_utf8(cs.take(p)) + encode_scalar(cs[p] as u32) + encode_utf8(
            cs.skip(p + 1),
        ),
        encode_utf8(cs.skip(p)) == encode_scalar(cs[p] as u32) + encode_utf8(cs.skip(p + 1)),
        char_offset(cs, p + 1) == char_offset(cs, p) + encode_scalar(cs[p] as u32).len(),
{
    let one = seq![cs[p]];
    assert(encode_utf8(one) =~= encode_scalar(cs[p] as u32)) by {
        reveal_with_fuel(encode_utf8, 2);
        assert(one.drop_first() =~= Seq::<char>::empty());
    }
    assert(cs =~= cs.take(p) + (one + cs.skip(p + 1)));
    assert(cs.skip(p) =~= one + cs.skip(p + 1));
    assert(cs.take(p + 1) =~= cs.take(p) + one);
    lemma_encode_utf8_append(one, cs.skip(p + 1));
    lemma_encode_utf8_append(cs.take(p), one + cs.skip(p + 1));
    lemma_encode_utf8_append(cs.take(p), one);
    assert(encode_utf8(cs) =~= encode_utf8(cs.take(p)) + encode_scalar(cs[p] as u32)
        + encode_utf8(cs.skip(p + 1)));
}

/// The byte at offset `char_offset(cs, p) + k` is byte `k` of char `p`, and the offsets
/// of the chars grow up to the length of the bytes.
proof fn lemma_char_bytes(cs: Seq<char>, p: int)
    requires
        0 <= p < cs.len(),
    ensures
        char_offset(cs, p) + encode_scalar(cs[p] as u32).len() <= encode_utf8(cs).len(),
        forall|k: int|
            0 <= k < encode_scalar(cs[p] as u32).len() ==> encode_utf8(cs)[char_offset(cs, p) + k]
                == #[trigger] encode_scalar(cs[p] as u32)[k],
{
    lemma_char_layout(cs, p);
}

/// The offset of the last position is the length of the bytes.
proof fn lemma_char_offset_end(cs: Seq<char>)
    ensures
        char_offset(cs, cs.len() as int) == encode_utf8(cs).len(),
        char_offset(cs, 0) == 0,
{
    assert(cs.take(cs.len() as int) =~= cs);
    assert(cs.take(0) =~= Seq::<char>::empty());
}

/// The offsets of the positions grow with the positions.
proof fn lemma_char_offset_mono(cs: Seq<char>, p: int, q: int)
    requires
        0 <= p <= q <= cs.len(),
    ensures
        char_offset(cs, p) <= char_offset(cs, q),
    decreases q - p,
{
    if p < q {
        lemma_char_layout(cs, q - 1);
        lemma_char_offset_mono(cs, p, q - 1);
    }
}

/// `next_char_start` passes over the continuation bytes from `j` up to `t`.
proof fn lemma_next_char_start_run(b: Seq<u8>, j: int, t: int)
    requires
        0 <= j <= t,
        t <= b.len(),
        forall|x: int| j <= x < t ==> is_continuation_byte(#[trigger] b[x]),
        t < b.len() ==> !is_continuation_byte(b[t]),
    ensures
        next_char_start(b, j) == t,
    decreases t - j,
{
    if j < t {
        lemma_next_char_start_run(b, j + 1, t);
    }
}

/// From the byte after the start of char `p`, the next char starts at char `p + 1`.
proof fn lemma_next_char_start_step(cs: Seq<char>, p: int)
    requires
        0 <= p < cs.len(),
    ensures
        next_char_start(encode_utf8(cs), char_offset(cs, p) + 1) == char_offset(cs, p + 1),
{
    let b = encode_utf8(cs);
    let o = char_offset(cs, p);
    let w = encode_scalar(cs[p] as u32).len() as int;
    lemma_scalar_bytes(cs[p]);
    lemma_char_bytes(cs, p);
    lemma_char_layout(cs, p);
    assert forall|x: int| o + 1 <= x < o + w implies is_continuation_byte(#[trigger] b[x]) by {
        assert(b[x] == encode_scalar(cs[p] as u32)[x - o]);
    }
    if p + 1 < cs.len() {
        lemma_scalar_bytes(cs[p + 1]);
        lemma_char_bytes(cs, p + 1);
        assert(b[o + w] == encode_scalar(cs[p + 1] as u32)[0]);
    } else {
        lemma_char_offset_end(cs);
    }
    lemma_next_char_start_run(b, o + 1, o + w);
}

/// Looking back from the end of char `p` finds its start.
proof fn lemma_back_peek_step(cs: Seq<char>, p: int)
    requires
        0 <= p < cs.len(),
    ensures
        spec_utf8_back_peek_offset(encode_utf8(cs), char_offset(cs, p + 1)) == Some(
            char_offset(cs, p),
        ),
{
    let b = encode_utf8(cs);
    let o = char_offset(cs, p);
    let sc = encode_scalar(cs[p] as u32);
    lemma_scalar_bytes(cs[p]);
    lemma_char_bytes(cs, p);
    lemma_char_layout(cs, p);
    lemma_first_byte_iff_not_continuation(b[o]);
    assert(b[o] == sc[0]);
    if sc.len() >= 2 {
        assert(b[o + 1] == sc[1]);
        lemma_first_byte_iff_not_continuation(b[o + 1]);
    }
    if sc.len() >= 3 {
        assert(b[o + 2] == sc[2]);
        lemma_first_byte_iff_not_continuation(b[o + 2]);
    }
    if sc.len() >= 4 {
        assert(b[o + 3] == sc[3]);
        lemma_first_byte_iff_not_continuation(b[o + 3]);
    }
}

/// Moving forward over `k` chars from the start of char `p` reaches the start of char
/// `p + k`, or the end of the text.
proof fn lemma_str_advance_chars(cs: Seq<char>, p: int, k: nat)
    requires
        0 <= p <= cs.len(),
    ensures
        str_advance(encode_utf8(cs), char_offset(cs, p), k) == char_offset(
            cs,
            if p + k <= cs.len() { p + k } else { cs.len() as int },
        ),
    decreases k,
{
    lemma_char_offset_end(cs);
    if p < cs.len() {
        lemma_char_layout(cs, p);
        lemma_scalar_bytes(cs[p]);
        lemma_char_offset_mono(cs, p + 1, cs.len() as int);
        if k > 0 {
            lemma_next_char_start_step(cs, p);
            lemma_str_advance_chars(cs, p + 1, (k - 1) as nat);
        }
    }
}

/// Moving back over `k` chars from the start of char `p` reaches the start of char `p - k`.
proof fn lemma_str_back_chars(cs: Seq<char>, p: int, k: nat)
    requires
        k <= p <= cs.len(),
    ensures
        str_back(encode_utf8(cs), char_offset(cs, p), k) == Some(char_offset(cs, p - k)),
    decreases k,
{
    if k > 0 {
        lemma_back_peek_step(cs, p - 1);
        lemma_str_back_chars(cs, p - 1, (k - 1) as nat);
    }
}

/// The start of each char of a text is a char boundary, and so is its end.
proof fn lemma_char_offset_boundary(cs: Seq<char>, p: int)
    requires
        0 <= p <= cs.len(),
    ensures
        is_char_boundary(encode_utf8(cs), char_offset(cs, p)),
{
    let b = encode_utf8(cs);
    vstd::utf8::encode_utf8_valid_utf8(cs);
    lemma_char_offset_end(cs);
    if p < cs.len() {
        lemma_scalar_bytes(cs[p]);
        lemma_char_bytes(cs, p);
        assert(b[char_offset(cs, p)] == encode_scalar(cs[p] as u32)[0]);
        vstd::utf8::is_char_boundary_iff_not_is_continuation_byte(b, char_offset(cs, p));
    } else {
        vstd::utf8::is_char_boundary_start_end_of_seq(b);
    }
}

proof fn lemma_char_offset_at_least(cs: Seq<char>, p: int)
    requires
        0 <= p <= cs.len(),
    ensures
        p <= char_offset(cs, p),
    decreases p,
{
    lemma_char_offset_end(cs);
    if p > 0 {
        lemma_char_layout(cs, p - 1);
        lemma_scalar_bytes(cs[p - 1]);
        lemma_char_offset_at_least(cs, p - 1);
    }
}

impl StrModel {
    /// The offset of the first position is 0 and that of the last the length of the bytes.
    pub proof fn lemma_offset_of_ends(self)
        ensures
            self.offset_of(0) == 0,
            self.offset_of(self.count() as int) == self.bytes().len(),
    {
        if let StrModel::Str(cs) = self {
            lemma_char_offset_end(cs);
        }
    }

    /// The offsets of the positions grow with them, from 0 up to the length of the bytes.
    pub proof fn lemma_offset_of_mono(self, p: int, q: int)
        requires
            0 <= p <= q <= self.count(),
        ensures
            0 <= self.offset_of(p) <= self.offset_of(q) <= self.bytes().len(),
    {
        self.lemma_offset_of_ends();
        if let StrModel::Str(cs) = self {
            lemma_char_offset_mono(cs, 0, p);
            lemma_char_offset_mono(cs, p, q);
            lemma_char_offset_mono(cs, q, cs.len() as int);
        }
    }

    /// Each character takes at least one byte: the offset of a position is at least the
    /// position, and there are no more characters than bytes.
    pub proof fn lemma_offset_of_at_least(self, p: int)
        requires
            0 <= p <= self.count(),
        ensures
            p <= self.offset_of(p),
            self.count() <= self.bytes().len(),
    {
        self.lemma_offset_of_ends();
        if let StrModel::Str(cs) = self {
            lemma_char_offset_at_least(cs, p);
            lemma_char_offset_at_least(cs, cs.len() as int);
        }
    }

    /// Moving forward over `k` characters from the offset of position `p` gives the offset
    /// of position `p + k`.
    pub proof fn lemma_offset_moves_forward(self, p: int, k: usize)
        requires
            0 <= p,
            p + k <= self.count(),
            self.bytes().len() <= usize::MAX,
        ensures
            self.offset(self.offset_of(p) as usize, k) == Some(self.offset_of(p + k) as usize),
    {
        if let StrModel::Str(cs) = self {
            lemma_char_offset_boundary(cs, p);
            lemma_str_advance_chars(cs, p, k as nat);
            lemma_char_offset_mono(cs, p, cs.len() as int);
            lemma_char_offset_end(cs);
        }
    }

    /// Moving back over `k` characters from the offset of position `p` gives the offset of
    /// position `p - k`.
    pub proof fn lemma_offset_moves_back(self, p: int, k: usize)
        requires
            k <= p <= self.count(),
            self.bytes().len() <= usize::MAX,
        ensures
            self.back_offset(self.offset_of(p) as usize, k) == Some(self.offset_of(p - k) as usize),
    {
        if let StrModel::Str(cs) = self {
            lemma_char_offset_mono(cs, p, cs.len() as int);
            lemma_char_offset_mono(cs, p - k, cs.len() as int);
            lemma_char_offset_end(cs);
            lemma_str_back_chars(cs, p, k as nat);
        }
    }

    /// The character read at the offset of position `p` is the character at `p`.
    pub proof fn lemma_peek_at_offset(self, p: int)
        requires
            0 <= p < self.count(),
            self.bytes().len() <= usize::MAX,
        ensures
            self.peek(self.offset_of(p) as usize) == Some(self.char_at(p)),
    {
        if let StrModel::Str(cs) = self {
            let b = encode_utf8(cs);
            let o = char_offset(cs, p);
            lemma_char_offset_boundary(cs, p);
            lemma_char_layout(cs, p);
            lemma_scalar_bytes(cs[p]);
            lemma_char_bytes(cs, p);
            lemma_char_offset_mono(cs, p + 1, cs.len() as int);
            lemma_char_offset_end(cs);
            assert(cs =~= cs.take(p) + cs.skip(p));
            lemma_encode_utf8_append(cs.take(p), cs.skip(p));
            assert(b.subrange(o, b.len() as int) =~= encode_utf8(cs.skip(p)));
            vstd::utf8::encode_utf8_decode_utf8(cs.skip(p));
        }
    }
}

/// Each char boundary of a text's bytes is the offset of a char position.
proof fn lemma_boundary_is_char_offset(cs: Seq<char>, o: int) -> (p: int)
    requires
        is_char_boundary(encode_utf8(cs), o),
    ensures
        0 <= p <= cs.len(),
        char_offset(cs, p) == o,
    decreases cs.len(),
{
    let b = encode_utf8(cs);
    vstd::utf8::encode_utf8_valid_utf8(cs);
    lemma_char_offset_end(cs);
    if o == 0 {
        0
    } else {
        assert(cs.len() > 0);
        vstd::utf8::encode_utf8_first_scalar(cs);
        let w = encode_scalar(cs[0] as u32).len() as int;
        let rest = cs.drop_first();
        assert(vstd::utf8::pop_first_scalar(b) =~= encode_utf8(rest));
        vstd::utf8::encode_utf8_valid_utf8(rest);
        let q = lemma_boundary_is_char_offset(rest, o - w);
        assert(cs.take(q + 1).drop_first() =~= rest.take(q));
        assert(cs.take(q + 1)[0] == cs[0]);
        q + 1
    }
}

impl StrModel {
    /// Moving back over `k` characters after moving forward over them returns to the offset
    /// started from: any char boundary of a text with at least `k` chars after it, or any
    /// offset of bytes with at least `k` bytes after it.
    pub proof fn lemma_back_after_forward(self, o: usize, k: usize)
        requires
            self.bytes().len() <= usize::MAX,
            match self {
                StrModel::Str(cs) => is_char_boundary(encode_utf8(cs), o as int) && k <= decode_utf8(
                    encode_utf8(cs).subrange(o as int, encode_utf8(cs).len() as int),
                ).len(),
                StrModel::Bytes(b) => o + k <= b.len(),
            },
        ensures
            self.offset(o, k) is Some,
            self.back_offset(self.offset(o, k).unwrap(), k) == Some(o),
    {
        if let StrModel::Str(cs) = self {
            let b = encode_utf8(cs);
            let p = lemma_boundary_is_char_offset(cs, o as int);
            assert(cs =~= cs.take(p) + cs.skip(p));
            lemma_encode_utf8_append(cs.take(p), cs.skip(p));
            assert(b.subrange(o as int, b.len() as int) =~= encode_utf8(cs.skip(p)));
            vstd::utf8::encode_utf8_decode_utf8(cs.skip(p));
            self.lemma_offset_moves_forward(p, k);
            self.lemma_offset_moves_back(p + k, k);
        }
    }
}

} // verus!
