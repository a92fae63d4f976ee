//! The frames of the Feishu long connection: a protobuf message with nine
//! fields, written and read byte by byte.

use crate::text;
use vstd::prelude::*;
use vstd::utf8::*;

verus! {

/// One key and value that travel with a frame.
pub struct Header {
    pub key: String,
    pub value: String,
}

/// A frame of the long connection.
pub struct Frame {
    pub seq_id: u64,
    pub log_id: u64,
    pub service: i32,
    pub method: i32,
    pub headers: Vec<Header>,
    pub payload_encoding: String,
    pub payload_type: String,
    pub payload: Vec<u8>,
    pub log_id_new: String,
}

/// The mathematical form of a `Header`.
pub struct HeaderV {
    pub key: Seq<char>,
    pub value: Seq<char>,
}

/// The mathematical form of a `Frame`.
#[verifier::ext_equal]
pub struct FrameV {
    pub seq_id: u64,
    pub log_id: u64,
    pub service: i32,
    pub method: i32,
    pub headers: Seq<HeaderV>,
    pub payload_encoding: Seq<char>,
    pub payload_type: Seq<char>,
    pub payload: Seq<u8>,
    pub log_id_new: Seq<char>,
}

impl Header {
    pub open spec fn view(self) -> HeaderV {
        HeaderV { key: self.key@, value: self.value@ }
    }
}

/// The views of a row of headers.
pub open spec fn header_views(v: Seq<Header>) -> Seq<HeaderV> {
    Seq::new(v.len(), |i: int| v[i]@)
}

impl Frame {
    pub open spec fn view(self) -> FrameV {
        FrameV {
            seq_id: self.seq_id,
            log_id: self.log_id,
            service: self.service,
            method: self.method,
            headers: header_views(self.headers@),
            payload_encoding: self.payload_encoding@,
            payload_type: self.payload_type@,
            payload: self.payload@,
            log_id_new: self.log_id_new@,
        }
    }
}

impl FrameV {
    /// The value of the first header with this key from position `i` on.
    pub open spec fn header_from(self, key: Seq<char>, i: int) -> Option<Seq<char>>
        decreases self.headers.len() - i,
    {
        if i < 0 || i >= self.headers.len() {
            None
        } else if self.headers[i].key == key {
            Some(self.headers[i].value)
        } else {
            self.header_from(key, i + 1)
        }
    }
}

impl Frame {
    /// The value of the first header with this key.
    pub fn header(&self, key: &str) -> (res: Option<&str>)
        ensures
            crate::json::opt_str(res) == self@.header_from(key@, 0),
    {
        let mut i: usize = 0;
        while i < self.headers.len()
            invariant
                i <= self.headers@.len(),
                self@.header_from(key@, 0) == self@.header_from(key@, i as int),
            decreases self.headers@.len() - i,
        {
            if text::same(self.headers[i].key.as_str(), key) {
                return Some(self.headers[i].value.as_str());
            }
            i += 1;
        }
        None
    }
}

// ---------------------------------------------------------------------------
// Encoding
// ---------------------------------------------------------------------------

/// A number in base 128, least digit first; every byte but the last carries the
/// high bit.
pub open spec fn varint_bytes(v: nat) -> Seq<u8>
    decreases v,
{
    if v < 128 {
        seq![v as u8]
    } else {
        seq![(v % 128 + 128) as u8] + varint_bytes(v / 128)
    }
}

/// The number that announces a field: its own number and its wire type.
pub open spec fn tag_of(field: nat, wire: nat) -> nat {
    field * 8 + wire
}

/// A field that holds a number; zero is left out.
pub open spec fn varint_field_bytes(field: nat, v: nat) -> Seq<u8> {
    if v == 0 {
        Seq::empty()
    } else {
        varint_bytes(tag_of(field, 0)) + varint_bytes(v)
    }
}

/// A field that holds bytes, empty or not.
pub open spec fn block_bytes(field: nat, b: Seq<u8>) -> Seq<u8> {
    varint_bytes(tag_of(field, 2)) + varint_bytes(b.len()) + b
}

/// A field that holds bytes; none are left out.
pub open spec fn bytes_field_bytes(field: nat, b: Seq<u8>) -> Seq<u8> {
    if b.len() == 0 {
        Seq::empty()
    } else {
        block_bytes(field, b)
    }
}

/// A number with sign as one without, modulo `2^32`.
pub open spec fn to_unsigned(v: i32) -> nat {
    if v < 0 {
        (0x1_0000_0000 + v) as nat
    } else {
        v as nat
    }
}

/// The bytes inside the field of a header.
pub open spec fn header_bytes(h: HeaderV) -> Seq<u8> {
    bytes_field_bytes(1, encode_utf8(h.key)) + bytes_field_bytes(2, encode_utf8(h.value))
}

/// The fields of the headers, in order.
pub open spec fn headers_bytes(hs: Seq<HeaderV>) -> Seq<u8>
    decreases hs.len(),
{
    if hs.len() == 0 {
        Seq::empty()
    } else {
        headers_bytes(hs.drop_last()) + block_bytes(5, header_bytes(hs.last()))
    }
}

/// The bytes of a frame.
pub open spec fn frame_bytes(f: FrameV) -> Seq<u8> {
    varint_field_bytes(1, f.seq_id as nat) + varint_field_bytes(2, f.log_id as nat)
        + varint_field_bytes(3, to_unsigned(f.service)) + varint_field_bytes(
        4,
        to_unsigned(f.method),
    ) + headers_bytes(f.headers) + bytes_field_bytes(6, encode_utf8(f.payload_encoding))
        + bytes_field_bytes(7, encode_utf8(f.payload_type)) + bytes_field_bytes(8, f.payload)
        + bytes_field_bytes(9, encode_utf8(f.log_id_new))
}

/// Appends a number in base 128.
pub fn encode_varint(val: u64, buf: &mut Vec<u8>)
    ensures
        final(buf)@ == old(buf)@ + varint_bytes(val as nat),
{
    let mut val: u64 = val;
    let ghost whole = buf@ + varint_bytes(val as nat);
    loop
        invariant_except_break
            buf@ + varint_bytes(val as nat) == whole,
        ensures
            buf@ == whole,
        decreases val,
    {
        assert(val & 0x7F == val % 128 && val >> 7 == val / 128) by (bit_vector);
        let byte: u8 = (val & 0x7F) as u8;
        assert(byte < 128 ==> byte | 0x80 == byte + 128) by (bit_vector);
        let ghost before = buf@;
        let rest: u64 = val >> 7;
        if rest == 0 {
            buf.push(byte);
            assert(buf@ =~= before + seq![byte]);
            break;
        }
        buf.push(byte | 0x80);
        assert(buf@ + varint_bytes(rest as nat) =~= before + (seq![(val % 128 + 128) as u8]
            + varint_bytes(rest as nat)));
        val = rest;
    }
}

/// Appends the announcement of a field.
pub fn encode_tag(field: u32, wire_type: u8, buf: &mut Vec<u8>)
    requires
        wire_type < 8,
    ensures
        final(buf)@ == old(buf)@ + varint_bytes(tag_of(field as nat, wire_type as nat)),
{
    let f: u64 = field as u64;
    let w: u64 = wire_type as u64;
    assert((f << 3) | w == f * 8 + w) by (bit_vector)
        requires
            f <= 0xffff_ffff,
            w < 8,
    ;
    encode_varint((f << 3) | w, buf);
}

/// Appends a field that holds a number, unless it is zero.
pub fn encode_varint_field(field: u32, val: u64, buf: &mut Vec<u8>)
    ensures
        final(buf)@ == old(buf)@ + varint_field_bytes(field as nat, val as nat),
{
    let ghost before = buf@;
    if val != 0 {
        encode_tag(field, 0, buf);
        encode_varint(val, buf);
    }
    assert(buf@ =~= before + varint_field_bytes(field as nat, val as nat));
}

/// Appends a field that holds a number with sign, unless it is zero.
pub fn encode_sint32_field(field: u32, val: i32, buf: &mut Vec<u8>)
    ensures
        final(buf)@ == old(buf)@ + varint_field_bytes(field as nat, to_unsigned(val)),
{
    assert(val < 0 ==> (val as u32) == 0x1_0000_0000 + val) by (bit_vector);
    assert(val >= 0 ==> (val as u32) == val) by (bit_vector);
    let ghost before = buf@;
    if val != 0 {
        encode_tag(field, 0, buf);
        encode_varint(val as u32 as u64, buf);
    }
    assert(buf@ =~= before + varint_field_bytes(field as nat, to_unsigned(val)));
}

/// Appends a field that holds bytes, unless there are none.
pub fn encode_bytes_field(field: u32, data: &[u8], buf: &mut Vec<u8>)
    ensures
        final(buf)@ == old(buf)@ + bytes_field_bytes(field as nat, data@),
{
    let ghost before = buf@;
    if data.len() != 0 {
        encode_tag(field, 2, buf);
        encode_varint(data.len() as u64, buf);
        buf.extend_from_slice(data);
    }
    assert(buf@ =~= before + bytes_field_bytes(field as nat, data@));
}

/// Appends a field that holds text, unless it is empty.
pub fn encode_string_field(field: u32, s: &str, buf: &mut Vec<u8>)
    ensures
        final(buf)@ == old(buf)@ + bytes_field_bytes(field as nat, encode_utf8(s@)),
{
    encode_bytes_field(field, s.as_bytes(), buf);
}

impl Header {
    /// Appends the field of this header.
    pub fn encode(&self, buf: &mut Vec<u8>)
        ensures
            final(buf)@ == old(buf)@ + block_bytes(5, header_bytes(self@)),
    {
        let ghost before = buf@;
        let mut inner: Vec<u8> = Vec::new();
        encode_string_field(1, self.key.as_str(), &mut inner);
        encode_string_field(2, self.value.as_str(), &mut inner);
        assert(inner@ =~= header_bytes(self@));
        encode_tag(5, 2, buf);
        encode_varint(inner.len() as u64, buf);
        buf.extend_from_slice(inner.as_slice());
        assert(buf@ =~= before + block_bytes(5, header_bytes(self@)));
    }
}

impl Frame {
    /// The bytes of this frame.
    pub fn encode(&self) -> (res: Vec<u8>)
        ensures
            res@ == frame_bytes(self@),
    {
        let mut buf: Vec<u8> = Vec::new();
        encode_varint_field(1, self.seq_id, &mut buf);
        encode_varint_field(2, self.log_id, &mut buf);
        encode_sint32_field(3, self.service, &mut buf);
        encode_sint32_field(4, self.method, &mut buf);
        let ghost head = buf@;
        let ghost hs = header_views(self.headers@);
        let mut i: usize = 0;
        assert(hs.take(0) =~= Seq::empty());
        assert(buf@ =~= head + headers_bytes(hs.take(0)));
        while i < self.headers.len()
            invariant
                i <= self.headers@.len(),
                hs == header_views(self.headers@),
                buf@ == head + headers_bytes(hs.take(i as int)),
            decreases self.headers@.len() - i,
        {
            self.headers[i].encode(&mut buf);
            assert(hs.take(i + 1).drop_last() =~= hs.take(i as int));
            assert(hs.take(i + 1).last() == self.headers@[i as int]@);
            assert(buf@ =~= head + headers_bytes(hs.take(i + 1)));
            i += 1;
        }
        assert(hs.take(self.headers@.len() as int) =~= hs);
        encode_string_field(6, self.payload_encoding.as_str(), &mut buf);
        encode_string_field(7, self.payload_type.as_str(), &mut buf);
        encode_bytes_field(8, self.payload.as_slice(), &mut buf);
        encode_string_field(9, self.log_id_new.as_str(), &mut buf);
        assert(buf@ =~= frame_bytes(self@));
        buf
    }
}

// ---------------------------------------------------------------------------
// Decoding
// ---------------------------------------------------------------------------

/// The first number above those of 64 bits.
pub open spec fn two_64() -> nat {
    0x1_0000_0000_0000_0000
}

/// What a number in base 128 is read as.
pub enum VarintV {
    /// The number, and where the bytes behind it begin.
    Value(nat, int),
    /// The bytes end inside the number.
    Eof,
    /// More than ten bytes.
    TooLong,
}

/// The number in base 128 at `pos`, of whose bytes `k` have been read before.
pub open spec fn varint_at(data: Seq<u8>, pos: int, k: nat) -> VarintV
    decreases data.len() - pos,
{
    if pos < 0 || pos >= data.len() {
        VarintV::Eof
    } else if data[pos] < 128 {
        VarintV::Value(data[pos] as nat, pos + 1)
    } else if k >= 9 {
        VarintV::TooLong
    } else {
        match varint_at(data, pos + 1, k + 1) {
            VarintV::Value(v, end) => VarintV::Value((data[pos] - 128) as nat + 128 * v, end),
            other => other,
        }
    }
}

/// The number at `pos` modulo `2^64`, and where the bytes behind it begin.
pub open spec fn varint(data: Seq<u8>, pos: int) -> Result<(u64, int), Seq<char>> {
    match varint_at(data, pos, 0) {
        VarintV::Value(v, end) => Ok(((v % two_64()) as u64, end)),
        VarintV::Eof => Err("unexpected EOF in varint"@),
        VarintV::TooLong => Err("varint too long"@),
    }
}

/// The bytes at `pos`, behind their number, and where what follows begins.
pub open spec fn block(data: Seq<u8>, pos: int) -> Result<(Seq<u8>, int), Seq<char>> {
    match varint(data, pos) {
        Ok((len, start)) => if start + len > data.len() {
            Err("unexpected EOF in length-delimited field"@)
        } else {
            Ok((data.subrange(start, start + len), start + len))
        },
        Err(e) => Err(e),
    }
}

/// What a field holds.
pub enum FieldV {
    Varint(u64),
    Bytes(Seq<u8>),
    /// Four or eight bytes, which no field of a frame uses.
    Fixed,
}

/// The field at `pos`: its number, what it holds, and where the next begins.
/// Inside a header only numbers and bytes are known.
pub open spec fn field_at(data: Seq<u8>, pos: int, in_header: bool) -> Result<
    (u32, FieldV, int),
    Seq<char>,
> {
    match varint(data, pos) {
        Err(e) => Err(e),
        Ok((tag, at)) => {
            let field = ((tag / 8) % 0x1_0000_0000) as u32;
            let wire = tag % 8;
            if wire == 0 {
                match varint(data, at) {
                    Ok((v, end)) => Ok((field, FieldV::Varint(v), end)),
                    Err(e) => Err(e),
                }
            } else if wire == 2 {
                match block(data, at) {
                    Ok((b, end)) => Ok((field, FieldV::Bytes(b), end)),
                    Err(e) => Err(e),
                }
            } else if in_header {
                Err("unexpected wire type "@ + text::digits(wire as nat) + " in Header"@)
            } else if wire == 5 {
                if at + 4 > data.len() {
                    Err("unexpected EOF in fixed32"@)
                } else {
                    Ok((field, FieldV::Fixed, at + 4))
                }
            } else if wire == 1 {
                if at + 8 > data.len() {
                    Err("unexpected EOF in fixed64"@)
                } else {
                    Ok((field, FieldV::Fixed, at + 8))
                }
            } else {
                Err(
                    "unexpected wire type "@ + text::digits(wire as nat) + " for field "@
                        + text::digits(field as nat),
                )
            }
        },
    }
}

/// A number that is read ends behind where it begins, within the data.
proof fn lemma_varint_end(data: Seq<u8>, pos: int, k: nat)
    ensures
        varint_at(data, pos, k) matches VarintV::Value(_, end) ==> 0 <= pos < end <= data.len(),
    decreases data.len() - pos,
{
    if 0 <= pos < data.len() && data[pos] >= 128 && k < 9 {
        lemma_varint_end(data, pos + 1, k + 1);
    }
}

/// A field that is read ends behind where it begins, within the data.
pub proof fn lemma_field_end(data: Seq<u8>, pos: int, in_header: bool)
    ensures
        field_at(data, pos, in_header) matches Ok((_, _, end)) ==> 0 <= pos < end <= data.len(),
{
    lemma_varint_end(data, pos, 0);
    match varint(data, pos) {
        Ok((_, at)) => {
            lemma_varint_end(data, at, 0);
        },
        Err(_) => {},
    }
}

/// The header that the fields from `pos` on make of `h`.
pub open spec fn header_from(data: Seq<u8>, pos: int, h: HeaderV) -> Result<HeaderV, Seq<char>>
    decreases data.len() - pos,
{
    if pos >= data.len() {
        Ok(h)
    } else {
        proof {
            lemma_field_end(data, pos, true);
        }
        match field_at(data, pos, true) {
            Ok((field, held, end)) => header_from(data, end, header_with(h, field, held)),
            Err(e) => Err(e),
        }
    }
}

/// The header `h` with one field taken in.
pub open spec fn header_with(h: HeaderV, field: u32, held: FieldV) -> HeaderV {
    match held {
        FieldV::Bytes(b) => if field == 1 {
            HeaderV { key: text::lossy(b), ..h }
        } else if field == 2 {
            HeaderV { value: text::lossy(b), ..h }
        } else {
            h
        },
        _ => h,
    }
}

/// The header that `data` holds.
pub open spec fn header_in(data: Seq<u8>) -> Result<HeaderV, Seq<char>> {
    header_from(data, 0, HeaderV { key: Seq::empty(), value: Seq::empty() })
}

/// The low 32 bits of a number, as a number with sign.
pub open spec fn to_signed(v: u64) -> i32 {
    if v % 0x1_0000_0000 < 0x8000_0000 {
        (v % 0x1_0000_0000) as i32
    } else {
        (v % 0x1_0000_0000 - 0x1_0000_0000) as i32
    }
}

/// The frame `f` with one field taken in.
pub open spec fn frame_with(f: FrameV, field: u32, held: FieldV) -> Result<FrameV, Seq<char>> {
    match held {
        FieldV::Varint(v) => Ok(
            if field == 1 {
                FrameV { seq_id: v, ..f }
            } else if field == 2 {
                FrameV { log_id: v, ..f }
            } else if field == 3 {
                FrameV { service: to_signed(v), ..f }
            } else if field == 4 {
                FrameV { method: to_signed(v), ..f }
            } else {
                f
            },
        ),
        FieldV::Bytes(b) => if field == 5 {
            match header_in(b) {
                Ok(h) => Ok(FrameV { headers: f.headers.push(h), ..f }),
                Err(e) => Err(e),
            }
        } else {
            Ok(
                if field == 6 {
                    FrameV { payload_encoding: text::lossy(b), ..f }
                } else if field == 7 {
                    FrameV { payload_type: text::lossy(b), ..f }
                } else if field == 8 {
                    FrameV { payload: b, ..f }
                } else if field == 9 {
                    FrameV { log_id_new: text::lossy(b), ..f }
                } else {
                    f
                },
            )
        },
        FieldV::Fixed => Ok(f),
    }
}

/// The frame that the fields from `pos` on make of `f`.
#[verifier::opaque]
pub open spec fn frame_from(data: Seq<u8>, pos: int, f: FrameV) -> Result<FrameV, Seq<char>>
    decreases data.len() - pos,
{
    if pos >= data.len() {
        Ok(f)
    } else {
        proof {
            lemma_field_end(data, pos, false);
        }
        match field_at(data, pos, false) {
            Ok((field, held, end)) => match frame_with(f, field, held) {
                Ok(g) => frame_from(data, end, g),
                Err(e) => Err(e),
            },
            Err(e) => Err(e),
        }
    }
}

/// The frame with nothing in it.
pub open spec fn empty_frame() -> FrameV {
    FrameV {
        seq_id: 0,
        log_id: 0,
        service: 0,
        method: 0,
        headers: Seq::empty(),
        payload_encoding: Seq::empty(),
        payload_type: Seq::empty(),
        payload: Seq::empty(),
        log_id_new: Seq::empty(),
    }
}

/// The frame that `data` holds.
pub open spec fn frame_in(data: Seq<u8>) -> Result<FrameV, Seq<char>> {
    frame_from(data, 0, empty_frame())
}

/// `128^k`.
spec fn pow128(k: nat) -> nat
    decreases k,
{
    if k == 0 {
        1
    } else {
        128 * pow128((k - 1) as nat)
    }
}

/// Putting the next seven bits in front of those collected so far adds them
/// with their weight, modulo `2^64`.
proof fn lemma_accumulate(acc: u64, b: u64, k: nat, shift: u32)
    requires
        k <= 9,
        shift == 7 * k,
        acc < pow128(k),
        b < 128,
    ensures
        (acc | (b << shift)) as nat == (acc + pow128(k) * b) as nat % two_64(),
        k <= 8 ==> acc | (b << shift) == acc + pow128(k) * b,
        k <= 8 ==> acc + pow128(k) * b < pow128(k + 1),
{
    reveal_with_fuel(pow128, 11);
    let weight = pow128(k);
    if k == 0 {
        assert(weight * b == 1 * b) by (nonlinear_arith)
            requires
                weight == 1,
        ;
        assert((acc | (b << 0u32)) == acc + b) by (bit_vector)
            requires
                acc < 1,
                b < 128,
        ;
    } else if k == 1 {
        assert(weight * b == 0x80 * b) by (nonlinear_arith)
            requires
                weight == 0x80,
        ;
        assert((acc | (b << 7u32)) == acc + 0x80 * b) by (bit_vector)
            requires
                acc < 0x80,
                b < 128,
        ;
    } else if k == 2 {
        assert(weight * b == 0x4000 * b) by (nonlinear_arith)
            requires
                weight == 0x4000,
        ;
        assert((acc | (b << 14u32)) == acc + 0x4000 * b) by (bit_vector)
            requires
                acc < 0x4000,
                b < 128,
        ;
    } else if k == 3 {
        assert(weight * b == 0x20_0000 * b) by (nonlinear_arith)
            requires
                weight == 0x20_0000,
        ;
        assert((acc | (b << 21u32)) == acc + 0x20_0000 * b) by (bit_vector)
            requires
                acc < 0x20_0000,
                b < 128,
        ;
    } else if k == 4 {
        assert(weight * b == 0x1000_0000 * b) by (nonlinear_arith)
            requires
                weight == 0x1000_0000,
        ;
        assert((acc | (b << 28u32)) == acc + 0x1000_0000 * b) by (bit_vector)
            requires
                acc < 0x1000_0000,
                b < 128,
        ;
    } else if k == 5 {
        assert(weight * b == 0x8_0000_0000 * b) by (nonlinear_arith)
            requires
                weight == 0x8_0000_0000,
        ;
        assert((acc | (b << 35u32)) == acc + 0x8_0000_0000 * b) by (bit_vector)
            requires
                acc < 0x8_0000_0000,
                b < 128,
        ;
    } else if k == 6 {
        assert(weight * b == 0x400_0000_0000 * b) by (nonlinear_arith)
            requires
                weight == 0x400_0000_0000,
        ;
        assert((acc | (b << 42u32)) == acc + 0x400_0000_0000 * b) by (bit_vector)
            requires
                acc < 0x400_0000_0000,
                b < 128,
        ;
    } else if k == 7 {
        assert(weight * b == 0x2_0000_0000_0000 * b) by (nonlinear_arith)
            requires
                weight == 0x2_0000_0000_0000,
        ;
        assert((acc | (b << 49u32)) == acc + 0x2_0000_0000_0000 * b) by (bit_vector)
            requires
                acc < 0x2_0000_0000_0000,
                b < 128,
        ;
    } else if k == 8 {
        assert(weight * b == 0x100_0000_0000_0000 * b) by (nonlinear_arith)
            requires
                weight == 0x100_0000_0000_0000,
        ;
        assert((acc | (b << 56u32)) == acc + 0x100_0000_0000_0000 * b) by (bit_vector)
            requires
                acc < 0x100_0000_0000_0000,
                b < 128,
        ;
    } else {
        assert(weight * b == 0x8000_0000_0000_0000 * b) by (nonlinear_arith)
            requires
                weight == 0x8000_0000_0000_0000,
        ;
        assert((acc | (b << 63u32)) == acc + 0x8000_0000_0000_0000 * (b % 2)) by (bit_vector)
            requires
                acc < 0x8000_0000_0000_0000,
                b < 128,
        ;
        let low = (acc + 0x8000_0000_0000_0000 * (b % 2)) as int;
        let half = (b / 2) as int;
        assert(b == 2 * half + b % 2);
        assert(two_64() * half == 0x1_0000_0000_0000_0000 * half) by (nonlinear_arith)
            requires
                two_64() == 0x1_0000_0000_0000_0000,
        ;
        assert(acc + 0x8000_0000_0000_0000 * b == two_64() * (b / 2) + low);
        vstd::arithmetic::div_mod::lemma_mod_multiples_vanish((b / 2) as int, low, two_64() as int);
        vstd::arithmetic::div_mod::lemma_small_mod(low as nat, two_64());
    }
}

/// Reads a number in base 128.
pub fn decode_varint(data: &[u8], pos: &mut usize) -> (res: Result<u64, String>)
    requires
        *old(pos) <= data@.len(),
    ensures
        match res {
            Ok(v) => varint(data@, *old(pos) as int) == Ok::<_, Seq<char>>((v, *final(pos) as int))
                && *old(pos) < *final(pos) <= data@.len(),
            Err(e) => varint(data@, *old(pos) as int) == Err::<(u64, int), _>(e@),
        },
{
    let ghost start = *pos as int;
    let mut result: u64 = 0;
    let mut shift: u32 = 0;
    let ghost mut k: nat = 0;
    let mut p: usize = *pos;
    assert(pow128(0) == 1);
    loop
        invariant
            0 <= start <= p <= data@.len(),
            start == *old(pos),
            k <= 9,
            shift == 7 * k,
            result < pow128(k),
            varint_at(data@, start, 0) == match varint_at(data@, p as int, k) {
                VarintV::Value(v, end) => VarintV::Value((result + pow128(k) * v) as nat, end),
                other => other,
            },
        decreases data@.len() - p,
    {
        if p >= data.len() {
            return Err(text::owned("unexpected EOF in varint"));
        }
        let byte: u8 = data[p];
        p += 1;
        assert(byte & 0x7F < 128 && (byte & 0x80 == 0 <==> byte < 128) && (byte < 128 ==> byte
            & 0x7F == byte) && (byte >= 128 ==> byte & 0x7F == byte - 128)) by (bit_vector);
        let low: u64 = (byte & 0x7F) as u64;
        proof {
            lemma_accumulate(result, low, k, shift);
        }
        let ghost before = result;
        result = result | (low << shift);
        if byte & 0x80 == 0 {
            *pos = p;
            return Ok(result);
        }
        shift += 7;
        if shift >= 64 {
            return Err(text::owned("varint too long"));
        }
        proof {
            match varint_at(data@, p as int, k + 1) {
                VarintV::Value(v, end) => {
                    assert(before + pow128(k) * (low + 128 * v) == before + pow128(k) * low + (128
                        * pow128(k)) * v) by (nonlinear_arith);
                },
                _ => {},
            }
            k = k + 1;
        }
    }
}

/// Reads a number and as many bytes as it says.
pub fn decode_bytes<'a>(data: &'a [u8], pos: &mut usize) -> (res: Result<&'a [u8], String>)
    requires
        *old(pos) <= data@.len(),
    ensures
        match res {
            Ok(b) => block(data@, *old(pos) as int) == Ok::<_, Seq<char>>(
                (b@, *final(pos) as int),
            ) && *old(pos) < *final(pos) <= data@.len(),
            Err(e) => block(data@, *old(pos) as int) == Err::<(Seq<u8>, int), _>(e@),
        },
{
    match decode_varint(data, pos) {
        Ok(len) => {
            let at: usize = *pos;
            if len > (data.len() - at) as u64 {
                return Err(text::owned("unexpected EOF in length-delimited field"));
            }
            let end: usize = at + len as usize;
            *pos = end;
            Ok(vstd::slice::slice_subrange(data, at, end))
        },
        Err(e) => Err(e),
    }
}

/// What a field holds.
pub enum Field<'a> {
    Varint(u64),
    Bytes(&'a [u8]),
    Fixed,
}

impl<'a> Field<'a> {
    pub open spec fn view(self) -> FieldV {
        match self {
            Field::Varint(v) => FieldV::Varint(v),
            Field::Bytes(b) => FieldV::Bytes(b@),
            Field::Fixed => FieldV::Fixed,
        }
    }
}

/// Reads one field.
pub fn decode_field<'a>(data: &'a [u8], pos: &mut usize, in_header: bool) -> (res: Result<
    (u32, Field<'a>),
    String,
>)
    requires
        *old(pos) <= data@.len(),
    ensures
        match res {
            Ok((field, held)) => field_at(data@, *old(pos) as int, in_header) == Ok::<
                _,
                Seq<char>,
            >((field, held@, *final(pos) as int)) && *old(pos) < *final(pos) <= data@.len(),
            Err(e) => field_at(data@, *old(pos) as int, in_header) == Err::<(u32, FieldV, int), _>(
                e@,
            ),
        },
{
    let tag: u64 = match decode_varint(data, pos) {
        Ok(tag) => tag,
        Err(e) => {
            return Err(e);
        },
    };
    assert(tag >> 3 == tag / 8 && tag & 0x07 == tag % 8) by (bit_vector);
    let high: u64 = tag >> 3;
    assert(high as u32 == high % 0x1_0000_0000) by (bit_vector);
    let field: u32 = high as u32;
    let wire: u8 = (tag & 0x07) as u8;
    if wire == 0 {
        match decode_varint(data, pos) {
            Ok(v) => Ok((field, Field::Varint(v))),
            Err(e) => Err(e),
        }
    } else if wire == 2 {
        match decode_bytes(data, pos) {
            Ok(b) => Ok((field, Field::Bytes(b))),
            Err(e) => Err(e),
        }
    } else if in_header {
        let number = text::decimal(wire as u64);
        Err(text::cat3("unexpected wire type ", number.as_str(), " in Header"))
    } else if wire == 5 {
        if data.len() - *pos < 4 {
            Err(text::owned("unexpected EOF in fixed32"))
        } else {
            *pos = *pos + 4;
            Ok((field, Field::Fixed))
        }
    } else if wire == 1 {
        if data.len() - *pos < 8 {
            Err(text::owned("unexpected EOF in fixed64"))
        } else {
            *pos = *pos + 8;
            Ok((field, Field::Fixed))
        }
    } else {
        let number = text::decimal(wire as u64);
        let name = text::decimal(field as u64);
        Err(text::cat4("unexpected wire type ", number.as_str(), " for field ", name.as_str()))
    }
}

/// Reads the fields of a header.
pub fn decode_header(data: &[u8]) -> (res: Result<Header, String>)
    ensures
        match res {
            Ok(h) => header_in(data@) == Ok::<_, Seq<char>>(h@),
            Err(e) => header_in(data@) == Err::<HeaderV, _>(e@),
        },
{
    let mut pos: usize = 0;
    let mut key = String::new();
    let mut value = String::new();
    while pos < data.len()
        invariant
            pos <= data@.len(),
            header_in(data@) == header_from(
                data@,
                pos as int,
                HeaderV { key: key@, value: value@ },
            ),
        decreases data@.len() - pos,
    {
        match decode_field(data, &mut pos, true) {
            Ok((field, Field::Bytes(b))) => {
                if field == 1 {
                    key = text::decode_lossy(b);
                } else if field == 2 {
                    value = text::decode_lossy(b);
                }
            },
            Ok(_) => {},
            Err(e) => {
                return Err(e);
            },
        }
    }
    Ok(Header { key, value })
}

impl Frame {
    /// Reads the frame that `data` holds.
    pub fn decode(data: &[u8]) -> (res: Result<Frame, String>)
        ensures
            match res {
                Ok(f) => frame_in(data@) == Ok::<_, Seq<char>>(f@),
                Err(e) => frame_in(data@) == Err::<FrameV, _>(e@),
            },
    {
        reveal(frame_from);
        let mut pos: usize = 0;
        let mut frame = Frame {
            seq_id: 0,
            log_id: 0,
            service: 0,
            method: 0,
            headers: Vec::new(),
            payload_encoding: String::new(),
            payload_type: String::new(),
            payload: Vec::new(),
            log_id_new: String::new(),
        };
        assert(frame@ =~= empty_frame());
        while pos < data.len()
            invariant
                pos <= data@.len(),
                frame_in(data@) == frame_from(data@, pos as int, frame@),
            decreases data@.len() - pos,
        {
            reveal(frame_from);
            let ghost before = frame@;
            let (field, held) = match decode_field(data, &mut pos, false) {
                Ok(read) => read,
                Err(e) => {
                    return Err(e);
                },
            };
            match held {
                Field::Varint(v) => {
                    assert(v as u32 == v % 0x1_0000_0000) by (bit_vector);
                    let low: u32 = v as u32;
                    assert(low < 0x8000_0000 ==> (low as i32) == low) by (bit_vector);
                    assert(low >= 0x8000_0000 ==> (low as i32) == low - 0x1_0000_0000)
                        by (bit_vector);
                    if field == 1 {
                        frame.seq_id = v;
                    } else if field == 2 {
                        frame.log_id = v;
                    } else if field == 3 {
                        frame.service = low as i32;
                    } else if field == 4 {
                        frame.method = low as i32;
                    }
                },
                Field::Bytes(b) => {
                    if field == 5 {
                        match decode_header(b) {
                            Ok(h) => {
                                frame.headers.push(h);
                                assert(frame@.headers =~= before.headers.push(h@));
                            },
                            Err(e) => {
                                return Err(e);
                            },
                        }
                    } else if field == 6 {
                        frame.payload_encoding = text::decode_lossy(b);
                    } else if field == 7 {
                        frame.payload_type = text::decode_lossy(b);
                    } else if field == 8 {
                        frame.payload = vstd::slice::slice_to_vec(b);
                    } else if field == 9 {
                        frame.log_id_new = text::decode_lossy(b);
                    }
                },
                Field::Fixed => {},
            }
            assert(frame_with(before, field, held@) == Ok::<_, Seq<char>>(frame@));
        }
        Ok(frame)
    }
}

// ---------------------------------------------------------------------------
// What is written is read back
// ---------------------------------------------------------------------------

/// A number that was written is read back, wherever it stands.
proof fn lemma_varint_read(pre: Seq<u8>, v: nat, post: Seq<u8>, k: nat)
    requires
        k <= 9,
        v * pow128(k) < two_64(),
    ensures
        varint_at(pre + varint_bytes(v) + post, pre.len() as int, k) == VarintV::Value(
            v,
            (pre.len() + varint_bytes(v).len()) as int,
        ),
        varint_bytes(v).len() > 0,
    decreases v,
{
    let data = pre + varint_bytes(v) + post;
    if v < 128 {
        assert(data[pre.len() as int] == v as u8);
    } else {
        let head = seq![(v % 128 + 128) as u8];
        let rest = varint_bytes(v / 128);
        assert(data =~= (pre + head) + rest + post);
        assert(data[pre.len() as int] == head[0]);
        assert(k < 9) by {
            reveal_with_fuel(pow128, 11);
            if k == 9 {
                assert(v * pow128(9) >= 128 * pow128(9)) by (nonlinear_arith)
                    requires
                        v >= 128,
                ;
            }
        }
        assert((v / 128) * pow128(k + 1) <= v * pow128(k)) by {
            assert(pow128(k + 1) == 128 * pow128(k));
            let w = pow128(k);
            let q = v / 128;
            assert(q * (128 * w) <= v * w) by (nonlinear_arith)
                requires
                    128 * q <= v,
                    w >= 0,
            ;
        }
        lemma_varint_read(pre + head, v / 128, post, k + 1);
    }
}

/// A number of 64 bits that was written is read back as the same number, wherever it
/// stands, and what follows begins right behind its bytes.
pub proof fn law_varint_round_trip(pre: Seq<u8>, v: nat, post: Seq<u8>)
    requires
        v < two_64(),
    ensures
        varint(pre + varint_bytes(v) + post, pre.len() as int) == Ok::<_, Seq<char>>(
            (v as u64, (pre.len() + varint_bytes(v).len()) as int),
        ),
        varint_bytes(v).len() > 0,
{
    assert(v * pow128(0) == v) by (nonlinear_arith)
        requires
            pow128(0) == 1,
    ;
    lemma_varint_read(pre, v, post, 0);
    vstd::arithmetic::div_mod::lemma_small_mod(v, two_64());
}

/// A field with a number that was written is read back.
proof fn lemma_varint_field_read(pre: Seq<u8>, field: nat, v: nat, post: Seq<u8>)
    requires
        field < 16,
        0 < v < two_64(),
    ensures
        field_at(pre + varint_field_bytes(field, v) + post, pre.len() as int, false) == Ok::<
            _,
            Seq<char>,
        >(
            (
                field as u32,
                FieldV::Varint(v as u64),
                (pre.len() + varint_field_bytes(field, v).len()) as int,
            ),
        ),
{
    let tag = varint_bytes(tag_of(field, 0));
    let value = varint_bytes(v);
    let data = pre + varint_field_bytes(field, v) + post;
    assert(data =~= pre + tag + (value + post));
    law_varint_round_trip(pre, tag_of(field, 0), value + post);
    assert(data =~= (pre + tag) + value + post);
    law_varint_round_trip(pre + tag, v, post);
}

/// A field with bytes that was written is read back.
proof fn lemma_block_read(pre: Seq<u8>, field: nat, b: Seq<u8>, post: Seq<u8>, in_header: bool)
    requires
        field < 16,
        b.len() < two_64(),
    ensures
        field_at(pre + block_bytes(field, b) + post, pre.len() as int, in_header) == Ok::<
            _,
            Seq<char>,
        >((field as u32, FieldV::Bytes(b), (pre.len() + block_bytes(field, b).len()) as int)),
        block_bytes(field, b).len() > 0,
{
    let tag = varint_bytes(tag_of(field, 2));
    let len = varint_bytes(b.len());
    let data = pre + block_bytes(field, b) + post;
    assert(data =~= pre + tag + (len + b + post));
    law_varint_round_trip(pre, tag_of(field, 2), len + b + post);
    assert(data =~= (pre + tag) + len + (b + post));
    law_varint_round_trip(pre + tag, b.len(), b + post);
    let start = (pre.len() + tag.len() + len.len()) as int;
    assert(data.subrange(start, start + b.len()) =~= b);
}

/// Reading on behind a field with a number.
proof fn lemma_frame_step_varint(pre: Seq<u8>, field: nat, v: nat, post: Seq<u8>, f: FrameV)
    requires
        1 <= field <= 4,
        v < two_64(),
    ensures
        ({
            let data = pre + varint_field_bytes(field, v) + post;
            let end = (pre.len() + varint_field_bytes(field, v).len()) as int;
            frame_from(data, pre.len() as int, f) == if v == 0 {
                frame_from(data, end, f)
            } else {
                frame_from(
                    data,
                    end,
                    frame_with(f, field as u32, FieldV::Varint(v as u64))->Ok_0,
                )
            }
        }),
{
    reveal(frame_from);
    if v > 0 {
        lemma_varint_field_read(pre, field, v, post);
        lemma_field_end(
            pre + varint_field_bytes(field, v) + post,
            pre.len() as int,
            false,
        );
    }
}

/// Reading on behind a field with bytes that are no header.
proof fn lemma_frame_step_bytes(pre: Seq<u8>, field: nat, b: Seq<u8>, post: Seq<u8>, f: FrameV)
    requires
        6 <= field <= 9,
        b.len() < two_64(),
    ensures
        ({
            let data = pre + bytes_field_bytes(field, b) + post;
            let end = (pre.len() + bytes_field_bytes(field, b).len()) as int;
            frame_from(data, pre.len() as int, f) == if b.len() == 0 {
                frame_from(data, end, f)
            } else {
                frame_from(data, end, frame_with(f, field as u32, FieldV::Bytes(b))->Ok_0)
            }
        }),
{
    reveal(frame_from);
    if b.len() > 0 {
        lemma_block_read(pre, field, b, post, false);
        lemma_field_end(pre + block_bytes(field, b) + post, pre.len() as int, false);
    }
}

/// A header that was written is read back.
pub proof fn law_header_round_trip(h: HeaderV)
    requires
        encode_utf8(h.key).len() < two_64(),
        encode_utf8(h.value).len() < two_64(),
    ensures
        header_in(header_bytes(h)) == Ok::<_, Seq<char>>(h),
{
    let k = encode_utf8(h.key);
    let v = encode_utf8(h.value);
    let first = bytes_field_bytes(1, k);
    let second = bytes_field_bytes(2, v);
    let data = header_bytes(h);
    let none = HeaderV { key: Seq::empty(), value: Seq::empty() };
    text::lemma_lossy_of_encoded(h.key);
    text::lemma_lossy_of_encoded(h.value);
    text::lemma_byte_len_utf8(h.key);
    text::lemma_byte_len_utf8(h.value);
    text::lemma_byte_len_bounds(h.key);
    text::lemma_byte_len_bounds(h.value);
    let half = HeaderV { key: h.key, value: Seq::empty() };
    assert(header_from(data, 0, none) == header_from(data, first.len() as int, half)) by {
        if k.len() > 0 {
            assert(data =~= Seq::<u8>::empty() + first + second);
            lemma_block_read(Seq::empty(), 1, k, second, true);
        } else {
            assert(h.key =~= Seq::empty());
        }
    }
    assert(header_from(data, first.len() as int, half) == header_from(
        data,
        data.len() as int,
        h,
    )) by {
        if v.len() > 0 {
            assert(data =~= first + second + Seq::<u8>::empty());
            lemma_block_read(first, 2, v, Seq::empty(), true);
        } else {
            assert(h.value =~= Seq::empty());
            assert(half == h);
        }
    }
}

/// Whether the byte lengths in a frame are numbers of 64 bits, as every length
/// in memory is.
pub open spec fn lengths_fit(f: FrameV) -> bool {
    &&& encode_utf8(f.payload_encoding).len() < two_64()
    &&& encode_utf8(f.payload_type).len() < two_64()
    &&& f.payload.len() < two_64()
    &&& encode_utf8(f.log_id_new).len() < two_64()
    &&& forall|i: int|
        0 <= i < f.headers.len() ==> {
            &&& encode_utf8((#[trigger] f.headers[i]).key).len() < two_64()
            &&& encode_utf8(f.headers[i].value).len() < two_64()
            &&& header_bytes(f.headers[i]).len() < two_64()
        }
}

/// Reading on behind the fields of the headers.
proof fn lemma_frame_step_headers(pre: Seq<u8>, hs: Seq<HeaderV>, post: Seq<u8>, f: FrameV)
    requires
        f.headers.len() == 0,
        lengths_fit(FrameV { headers: hs, ..f }),
    ensures
        ({
            let data = pre + headers_bytes(hs) + post;
            frame_from(data, pre.len() as int, f) == frame_from(
                data,
                (pre.len() + headers_bytes(hs).len()) as int,
                FrameV { headers: hs, ..f },
            )
        }),
    decreases hs.len(),
{
    reveal(frame_from);
    let data = pre + headers_bytes(hs) + post;
    if hs.len() == 0 {
        assert(FrameV { headers: hs, ..f } =~= f);
    } else {
        let front = hs.drop_last();
        let last = hs.last();
        let tail = block_bytes(5, header_bytes(last));
        let g = FrameV { headers: front, ..f };
        assert(lengths_fit(g)) by {
            assert forall|i: int| 0 <= i < front.len() implies {
                &&& encode_utf8((#[trigger] front[i]).key).len() < two_64()
                &&& encode_utf8(front[i].value).len() < two_64()
                &&& header_bytes(front[i]).len() < two_64()
            } by {
                assert(front[i] == hs[i]);
            }
        }
        assert(data =~= pre + headers_bytes(front) + (tail + post));
        lemma_frame_step_headers(pre, front, tail + post, f);
        let pre2 = pre + headers_bytes(front);
        assert(data =~= pre2 + tail + post);
        assert(last == (FrameV { headers: hs, ..f }).headers[hs.len() - 1]);
        lemma_block_read(pre2, 5, header_bytes(last), post, false);
        law_header_round_trip(last);
        lemma_field_end(data, pre2.len() as int, false);
        assert(front.push(last) =~= hs);
    }
}

/// Five pieces in a row, seen from each of the first four.
proof fn lemma_regroup(p1: Seq<u8>, p2: Seq<u8>, p3: Seq<u8>, p4: Seq<u8>, rest: Seq<u8>)
    ensures
        p1 + p2 + p3 + p4 + rest == Seq::<u8>::empty() + p1 + (p2 + p3 + p4 + rest),
        p1 + p2 + p3 + p4 + rest == p1 + p2 + (p3 + p4 + rest),
        p1 + p2 + p3 + p4 + rest == (p1 + p2) + p3 + (p4 + rest),
        p1 + p2 + p3 + p4 + rest == (p1 + p2 + p3) + p4 + rest,
{
    assert(p1 + p2 + p3 + p4 + rest =~= Seq::<u8>::empty() + p1 + (p2 + p3 + p4 + rest));
    assert(p1 + p2 + p3 + p4 + rest =~= p1 + p2 + (p3 + p4 + rest));
    assert(p1 + p2 + p3 + p4 + rest =~= (p1 + p2) + p3 + (p4 + rest));
}

/// Reading the four numbers at the front of a frame.
proof fn lemma_front_read(f: FrameV, rest: Seq<u8>)
    ensures
        ({
            let front = varint_field_bytes(1, f.seq_id as nat) + varint_field_bytes(
                2,
                f.log_id as nat,
            ) + varint_field_bytes(3, to_unsigned(f.service)) + varint_field_bytes(
                4,
                to_unsigned(f.method),
            );
            frame_from(front + rest, 0, empty_frame()) == frame_from(
                front + rest,
                front.len() as int,
                FrameV {
                    seq_id: f.seq_id,
                    log_id: f.log_id,
                    service: f.service,
                    method: f.method,
                    ..empty_frame()
                },
            )
        }),
{
    let p1 = varint_field_bytes(1, f.seq_id as nat);
    let p2 = varint_field_bytes(2, f.log_id as nat);
    let p3 = varint_field_bytes(3, to_unsigned(f.service));
    let p4 = varint_field_bytes(4, to_unsigned(f.method));
    let none = Seq::<u8>::empty();
    let data = p1 + p2 + p3 + p4 + rest;
    lemma_regroup(p1, p2, p3, p4, rest);
    let f0 = empty_frame();
    let f1 = FrameV { seq_id: f.seq_id, ..f0 };
    let f2 = FrameV { log_id: f.log_id, ..f1 };
    let f3 = FrameV { service: f.service, ..f2 };
    assert(frame_from(data, 0, f0) == frame_from(data, p1.len() as int, f1)) by {
        lemma_frame_step_varint(none, 1, f.seq_id as nat, p2 + p3 + p4 + rest, f0);
    }
    assert(frame_from(data, p1.len() as int, f1) == frame_from(data, (p1 + p2).len() as int, f2))
        by {
        lemma_frame_step_varint(p1, 2, f.log_id as nat, p3 + p4 + rest, f1);
    }
    assert(frame_from(data, (p1 + p2).len() as int, f2) == frame_from(
        data,
        (p1 + p2 + p3).len() as int,
        f3,
    )) by {
        lemma_frame_step_varint(p1 + p2, 3, to_unsigned(f.service), p4 + rest, f2);
    }
    lemma_frame_step_varint(p1 + p2 + p3, 4, to_unsigned(f.method), rest, f3);
}

/// Reading the four blocks of bytes at the end of a frame.
proof fn lemma_back_read(pre: Seq<u8>, f: FrameV, g: FrameV)
    requires
        lengths_fit(f),
        g == (FrameV {
            payload_encoding: Seq::empty(),
            payload_type: Seq::empty(),
            payload: Seq::empty(),
            log_id_new: Seq::empty(),
            ..f
        }),
    ensures
        ({
            let back = bytes_field_bytes(6, encode_utf8(f.payload_encoding)) + bytes_field_bytes(
                7,
                encode_utf8(f.payload_type),
            ) + bytes_field_bytes(8, f.payload) + bytes_field_bytes(9, encode_utf8(f.log_id_new));
            frame_from(pre + back, pre.len() as int, g) == Ok::<_, Seq<char>>(f)
        }),
{
    let p6 = bytes_field_bytes(6, encode_utf8(f.payload_encoding));
    let p7 = bytes_field_bytes(7, encode_utf8(f.payload_type));
    let p8 = bytes_field_bytes(8, f.payload);
    let p9 = bytes_field_bytes(9, encode_utf8(f.log_id_new));
    let none = Seq::<u8>::empty();
    let data = pre + (p6 + p7 + p8 + p9);
    text::lemma_lossy_of_encoded(f.payload_encoding);
    text::lemma_lossy_of_encoded(f.payload_type);
    text::lemma_lossy_of_encoded(f.log_id_new);
    lemma_empty_utf8(f.payload_encoding);
    lemma_empty_utf8(f.payload_type);
    lemma_empty_utf8(f.log_id_new);
    let f6 = FrameV { payload_encoding: f.payload_encoding, ..g };
    let f7 = FrameV { payload_type: f.payload_type, ..f6 };
    let f8 = FrameV { payload: f.payload, ..f7 };
    assert(frame_from(data, pre.len() as int, g) == frame_from(data, (pre + p6).len() as int, f6))
        by {
        assert(data =~= pre + p6 + (p7 + p8 + p9));
        lemma_frame_step_bytes(pre, 6, encode_utf8(f.payload_encoding), p7 + p8 + p9, g);
    }
    assert(frame_from(data, (pre + p6).len() as int, f6) == frame_from(
        data,
        (pre + p6 + p7).len() as int,
        f7,
    )) by {
        assert(data =~= (pre + p6) + p7 + (p8 + p9));
        lemma_frame_step_bytes(pre + p6, 7, encode_utf8(f.payload_type), p8 + p9, f6);
    }
    assert(frame_from(data, (pre + p6 + p7).len() as int, f7) == frame_from(
        data,
        (pre + p6 + p7 + p8).len() as int,
        f8,
    )) by {
        assert(data =~= (pre + p6 + p7) + p8 + p9);
        lemma_frame_step_bytes(pre + p6 + p7, 8, f.payload, p9, f7);
        assert(f.payload.len() == 0 ==> f8 =~= f7);
    }
    assert(data =~= (pre + p6 + p7 + p8) + p9 + none);
    lemma_frame_step_bytes(pre + p6 + p7 + p8, 9, encode_utf8(f.log_id_new), none, f8);
    assert(FrameV { log_id_new: f.log_id_new, ..f8 } =~= f);
    reveal(frame_from);
}

/// A frame that was written is read back as the same frame.
pub proof fn law_frame_round_trip(f: FrameV)
    requires
        lengths_fit(f),
    ensures
        frame_in(frame_bytes(f)) == Ok::<_, Seq<char>>(f),
{
    let front = varint_field_bytes(1, f.seq_id as nat) + varint_field_bytes(2, f.log_id as nat)
        + varint_field_bytes(3, to_unsigned(f.service)) + varint_field_bytes(
        4,
        to_unsigned(f.method),
    );
    let middle = headers_bytes(f.headers);
    let p6 = bytes_field_bytes(6, encode_utf8(f.payload_encoding));
    let p7 = bytes_field_bytes(7, encode_utf8(f.payload_type));
    let p8 = bytes_field_bytes(8, f.payload);
    let p9 = bytes_field_bytes(9, encode_utf8(f.log_id_new));
    let back = p6 + p7 + p8 + p9;
    let data = frame_bytes(f);
    assert(data == front + middle + p6 + p7 + p8 + p9);
    assert(front + middle + p6 + p7 + p8 + p9 =~= front + middle + back);
    let f4 = FrameV {
        seq_id: f.seq_id,
        log_id: f.log_id,
        service: f.service,
        method: f.method,
        ..empty_frame()
    };
    let f5 = FrameV { headers: f.headers, ..f4 };
    assert(frame_in(data) == frame_from(data, front.len() as int, f4)) by {
        assert(front + middle + back =~= front + (middle + back));
        lemma_front_read(f, middle + back);
    }
    assert(frame_from(data, front.len() as int, f4) == frame_from(
        data,
        (front + middle).len() as int,
        f5,
    )) by {
        lemma_empty_utf8(Seq::empty());
        lemma_frame_step_headers(front, f.headers, back, f4);
    }
    lemma_back_read(front + middle, f, f5);
}

/// A text is empty where its encoding is.
proof fn lemma_empty_utf8(s: Seq<char>)
    ensures
        encode_utf8(s).len() == 0 ==> s =~= Seq::empty(),
        s.len() == 0 ==> encode_utf8(s).len() == 0,
{
    text::lemma_byte_len_utf8(s);
    text::lemma_byte_len_bounds(s);
}

// ---------------------------------------------------------------------------
// Frames one behind the other
// ---------------------------------------------------------------------------

/// A number that is read is read in the same way when more bytes follow.
proof fn lemma_varint_before(a: Seq<u8>, b: Seq<u8>, pos: int, k: nat)
    ensures
        varint_at(a, pos, k) is Value ==> varint_at(a + b, pos, k) == varint_at(a, pos, k),
    decreases a.len() - pos,
{
    if 0 <= pos < a.len() {
        assert((a + b)[pos] == a[pos]);
        if a[pos] >= 128 && k < 9 {
            lemma_varint_before(a, b, pos + 1, k + 1);
        }
    }
}

/// A field that is read is read in the same way when more bytes follow.
proof fn lemma_field_before(a: Seq<u8>, b: Seq<u8>, pos: int)
    ensures
        field_at(a, pos, false) is Ok ==> field_at(a + b, pos, false) == field_at(a, pos, false),
{
    lemma_varint_before(a, b, pos, 0);
    match varint(a, pos) {
        Ok((_, at)) => {
            lemma_varint_before(a, b, at, 0);
            lemma_varint_end(a, pos, 0);
            lemma_varint_end(a, at, 0);
            match block(a, at) {
                Ok((_, end)) => {
                    let start = varint(a, at)->Ok_0.1;
                    assert((a + b).subrange(start, end) =~= a.subrange(start, end));
                },
                Err(_) => {},
            }
        },
        Err(_) => {},
    }
}

/// What a number is read as does not depend on the bytes before it.
proof fn lemma_varint_behind(a: Seq<u8>, b: Seq<u8>, pos: int, k: nat)
    requires
        0 <= pos,
    ensures
        varint_at(a + b, a.len() + pos, k) == match varint_at(b, pos, k) {
            VarintV::Value(v, end) => VarintV::Value(v, a.len() + end),
            other => other,
        },
    decreases b.len() - pos,
{
    if pos < b.len() {
        assert((a + b)[a.len() + pos] == b[pos]);
        if b[pos] >= 128 && k < 9 {
            lemma_varint_behind(a, b, pos + 1, k + 1);
            assert(a.len() + pos + 1 == a.len() + (pos + 1));
        }
    }
}

/// What a field is read as does not depend on the bytes before it.
proof fn lemma_field_behind(a: Seq<u8>, b: Seq<u8>, pos: int)
    requires
        0 <= pos,
    ensures
        field_at(a + b, a.len() + pos, false) == match field_at(b, pos, false) {
            Ok((field, held, end)) => Ok::<_, Seq<char>>((field, held, a.len() + end)),
            Err(e) => Err(e),
        },
{
    lemma_varint_behind(a, b, pos, 0);
    lemma_varint_end(b, pos, 0);
    match varint(b, pos) {
        Ok((_, at)) => {
            lemma_varint_behind(a, b, at, 0);
            lemma_varint_end(b, at, 0);
            match block(b, at) {
                Ok((_, end)) => {
                    let start = varint(b, at)->Ok_0.1;
                    assert((a + b).subrange(a.len() + start, a.len() + end) =~= b.subrange(
                        start,
                        end,
                    ));
                },
                Err(_) => {},
            }
        },
        Err(_) => {},
    }
}

/// A frame that is read is the start of what is read when more bytes follow.
proof fn lemma_frame_before(a: Seq<u8>, b: Seq<u8>, pos: int, f: FrameV)
    requires
        0 <= pos <= a.len(),
    ensures
        frame_from(a, pos, f) matches Ok(fa) ==> frame_from(a + b, pos, f) == frame_from(
            a + b,
            a.len() as int,
            fa,
        ),
    decreases a.len() - pos,
{
    reveal(frame_from);
    if pos < a.len() {
        lemma_field_before(a, b, pos);
        lemma_field_end(a, pos, false);
        match field_at(a, pos, false) {
            Ok((field, held, end)) => match frame_with(f, field, held) {
                Ok(g) => {
                    lemma_frame_before(a, b, end, g);
                },
                Err(_) => {},
            },
            Err(_) => {},
        }
    }
}

/// What fields make of a frame does not depend on the bytes before them.
proof fn lemma_frame_behind(a: Seq<u8>, b: Seq<u8>, pos: int, f: FrameV)
    requires
        0 <= pos,
    ensures
        frame_from(a + b, a.len() + pos, f) == frame_from(b, pos, f),
    decreases b.len() - pos,
{
    reveal(frame_from);
    if pos < b.len() {
        lemma_field_behind(a, b, pos);
        lemma_field_end(b, pos, false);
        match field_at(b, pos, false) {
            Ok((field, held, end)) => match frame_with(f, field, held) {
                Ok(g) => {
                    lemma_frame_behind(a, b, end, g);
                },
                Err(_) => {},
            },
            Err(_) => {},
        }
    }
}

/// Whether one of the fields from `pos` on has the number `field` and holds a number
/// (where `numeric`) or bytes (where not).
#[verifier::opaque]
pub open spec fn carries_from(data: Seq<u8>, pos: int, field: u32, numeric: bool) -> bool
    decreases data.len() - pos,
{
    if pos >= data.len() {
        false
    } else {
        proof {
            lemma_field_end(data, pos, false);
        }
        match field_at(data, pos, false) {
            Ok((n, held, end)) => {
                ||| n == field && (if numeric {
                    held is Varint
                } else {
                    held is Bytes
                })
                ||| carries_from(data, end, field, numeric)
            },
            Err(_) => false,
        }
    }
}

/// The frame `f` with what the fields from `pos` on hold taken from `g`: each field
/// that occurs there, and the headers `hs` behind those of `f`.
pub open spec fn merged_from(
    data: Seq<u8>,
    pos: int,
    f: FrameV,
    g: FrameV,
    hs: Seq<HeaderV>,
) -> FrameV {
    FrameV {
        seq_id: if carries_from(data, pos, 1, true) {
            g.seq_id
        } else {
            f.seq_id
        },
        log_id: if carries_from(data, pos, 2, true) {
            g.log_id
        } else {
            f.log_id
        },
        service: if carries_from(data, pos, 3, true) {
            g.service
        } else {
            f.service
        },
        method: if carries_from(data, pos, 4, true) {
            g.method
        } else {
            f.method
        },
        headers: f.headers + hs,
        payload_encoding: if carries_from(data, pos, 6, false) {
            g.payload_encoding
        } else {
            f.payload_encoding
        },
        payload_type: if carries_from(data, pos, 7, false) {
            g.payload_type
        } else {
            f.payload_type
        },
        payload: if carries_from(data, pos, 8, false) {
            g.payload
        } else {
            f.payload
        },
        log_id_new: if carries_from(data, pos, 9, false) {
            g.log_id_new
        } else {
            f.log_id_new
        },
    }
}

/// Fields that make one frame of `g` make of `f` the frame with what they hold.
proof fn lemma_merged(data: Seq<u8>, pos: int, f: FrameV, g: FrameV)
    requires
        0 <= pos,
        frame_from(data, pos, g) is Ok,
    ensures
        ({
            let made = frame_from(data, pos, g)->Ok_0;
            let n = g.headers.len() as int;
            &&& n <= made.headers.len()
            &&& made == merged_from(data, pos, g, made, made.headers.skip(n))
            &&& frame_from(data, pos, f) == Ok::<_, Seq<char>>(
                merged_from(data, pos, f, made, made.headers.skip(n)),
            )
        }),
    decreases data.len() - pos,
{
    reveal(frame_from);
    reveal(carries_from);
    let made = frame_from(data, pos, g)->Ok_0;
    let n = g.headers.len() as int;
    if pos < data.len() {
        lemma_field_end(data, pos, false);
        let (field, held, end) = field_at(data, pos, false)->Ok_0;
        let g1 = frame_with(g, field, held)->Ok_0;
        let f1 = frame_with(f, field, held)->Ok_0;
        lemma_merged(data, end, f1, g1);
        let m = g1.headers.len() as int;
        assert(g1.headers + made.headers.skip(m) == made.headers);
        assert(g.headers + made.headers.skip(n) =~= made.headers);
        assert(f1.headers + made.headers.skip(m) =~= f.headers + made.headers.skip(n));
    } else {
        assert(made.headers.skip(n) =~= Seq::empty());
        assert(g.headers + made.headers.skip(n) =~= g.headers);
        assert(f.headers + made.headers.skip(n) =~= f.headers);
    }
}

/// Two frames one behind the other are read as one frame: with the headers of both,
/// and each other field from the second where its bytes carry it, else from the first.
pub proof fn law_frames_in_a_row_merge(a: Seq<u8>, b: Seq<u8>)
    requires
        frame_in(a) is Ok,
        frame_in(b) is Ok,
    ensures
        frame_in(a + b) == Ok::<_, Seq<char>>(
            merged_from(
                b,
                0,
                frame_in(a)->Ok_0,
                frame_in(b)->Ok_0,
                frame_in(b)->Ok_0.headers,
            ),
        ),
{
    let fa = frame_in(a)->Ok_0;
    let fb = frame_in(b)->Ok_0;
    lemma_frame_before(a, b, 0, empty_frame());
    lemma_frame_behind(a, b, 0, fa);
    lemma_merged(b, 0, fa, empty_frame());
    assert(fb.headers.skip(0) =~= fb.headers);
}

// ---------------------------------------------------------------------------
// How a frame is spelled
// ---------------------------------------------------------------------------

/// The number that groups of seven bits stand for, the lowest first.
pub open spec fn groups_value(bytes: Seq<u8>) -> int
    decreases bytes.len(),
{
    if bytes.len() == 0 {
        0
    } else {
        bytes[0] as int % 128 + 128 * groups_value(bytes.drop_first())
    }
}

/// A number is spelled in groups of seven bits, the lowest first, with the eighth bit set
/// in all but the last; no more groups than it needs.
pub proof fn law_varint_is_spelled(v: nat)
    ensures
        varint_bytes(v).len() > 0,
        groups_value(varint_bytes(v)) == v,
        forall|i: int|
            0 <= i < varint_bytes(v).len() - 1 ==> (#[trigger] varint_bytes(v)[i]) >= 128,
        varint_bytes(v).last() < 128,
        varint_bytes(v).len() > 1 ==> varint_bytes(v).last() > 0,
    decreases v,
{
    let s = varint_bytes(v);
    if v < 128 {
        assert(s.drop_first() =~= Seq::empty());
        assert(s[0] as int % 128 == v);
        assert(groups_value(s.drop_first()) == 0);
    } else {
        law_varint_is_spelled(v / 128);
        let rest = varint_bytes(v / 128);
        assert(s.drop_first() =~= rest);
        assert(s[0] as int % 128 == v % 128);
        assert forall|i: int| 0 <= i < s.len() - 1 implies (#[trigger] s[i]) >= 128 by {
            if i > 0 {
                assert(s[i] == rest[i - 1]);
            }
        }
        assert(s.last() == rest.last());
    }
}

/// A number of a field: its mark and the number; a field that is nought is left out.
pub open spec fn spelled_number(mark: u8, v: nat) -> Seq<u8> {
    if v == 0 {
        Seq::empty()
    } else {
        seq![mark] + varint_bytes(v)
    }
}

/// The bytes of a field: its mark, their number and they themselves.
pub open spec fn spelled_block(mark: u8, b: Seq<u8>) -> Seq<u8> {
    seq![mark] + varint_bytes(b.len()) + b
}

/// The bytes of a field; one that is empty is left out.
pub open spec fn spelled_bytes(mark: u8, b: Seq<u8>) -> Seq<u8> {
    if b.len() == 0 {
        Seq::empty()
    } else {
        spelled_block(mark, b)
    }
}

/// The header of a frame, as a block with a key and a value.
pub open spec fn spelled_header(h: HeaderV) -> Seq<u8> {
    spelled_block(
        0x2a,
        spelled_bytes(0x0a, encode_utf8(h.key)) + spelled_bytes(0x12, encode_utf8(h.value)),
    )
}

/// A frame is spelled field by field, each under the mark of its number and its kind, with
/// all of its headers in their order; a number below nought in the four bytes of its
/// complement.
pub proof fn law_frame_is_spelled(f: FrameV)
    ensures
        frame_bytes(f) == spelled_number(0x08, f.seq_id as nat) + spelled_number(
            0x10,
            f.log_id as nat,
        ) + spelled_number(0x18, to_unsigned(f.service)) + spelled_number(
            0x20,
            to_unsigned(f.method),
        ) + f.headers.map_values(|h: HeaderV| spelled_header(h)).flatten() + spelled_bytes(
            0x32,
            encode_utf8(f.payload_encoding),
        ) + spelled_bytes(0x3a, encode_utf8(f.payload_type)) + spelled_bytes(0x42, f.payload)
            + spelled_bytes(0x4a, encode_utf8(f.log_id_new)),
        f.service >= 0 ==> to_unsigned(f.service) == f.service,
        f.service < 0 ==> to_unsigned(f.service) == f.service + 0x1_0000_0000,
{
    lemma_marks();
    lemma_headers_spelled(f.headers);
}

proof fn lemma_marks()
    ensures
        varint_bytes(tag_of(1, 0)) == seq![0x08u8],
        varint_bytes(tag_of(2, 0)) == seq![0x10u8],
        varint_bytes(tag_of(3, 0)) == seq![0x18u8],
        varint_bytes(tag_of(4, 0)) == seq![0x20u8],
        varint_bytes(tag_of(1, 2)) == seq![0x0au8],
        varint_bytes(tag_of(2, 2)) == seq![0x12u8],
        varint_bytes(tag_of(5, 2)) == seq![0x2au8],
        varint_bytes(tag_of(6, 2)) == seq![0x32u8],
        varint_bytes(tag_of(7, 2)) == seq![0x3au8],
        varint_bytes(tag_of(8, 2)) == seq![0x42u8],
        varint_bytes(tag_of(9, 2)) == seq![0x4au8],
{
}

proof fn lemma_headers_spelled(hs: Seq<HeaderV>)
    ensures
        headers_bytes(hs) == hs.map_values(|h: HeaderV| spelled_header(h)).flatten(),
    decreases hs.len(),
{
    let f = |h: HeaderV| spelled_header(h);
    if hs.len() > 0 {
        let front = hs.drop_last();
        lemma_headers_spelled(front);
        front.map_values(f).lemma_flatten_push(f(hs.last()));
        assert(front.map_values(f).push(f(hs.last())) =~= hs.map_values(f));
        lemma_marks();
    }
}

/// A field of a number that is not known, or of another kind than the known one, changes
/// nothing; a known one changes only what it is the field of, and a header only adds
/// itself.
pub proof fn law_field_changes_its_own(f: FrameV, field: u32, v: u64, b: Seq<u8>)
    ensures
        field == 0 || field > 9 ==> frame_with(f, field, FieldV::Varint(v)) == Ok::<_, Seq<char>>(f)
            && frame_with(f, field, FieldV::Bytes(b)) == Ok::<_, Seq<char>>(f),
        field >= 5 ==> frame_with(f, field, FieldV::Varint(v)) == Ok::<_, Seq<char>>(f),
        field <= 4 ==> frame_with(f, field, FieldV::Bytes(b)) == Ok::<_, Seq<char>>(f),
        frame_with(f, field, FieldV::Fixed) == Ok::<_, Seq<char>>(f),
        frame_with(f, 1, FieldV::Varint(v)) == Ok::<_, Seq<char>>(FrameV { seq_id: v, ..f }),
        frame_with(f, 2, FieldV::Varint(v)) == Ok::<_, Seq<char>>(FrameV { log_id: v, ..f }),
        frame_with(f, 3, FieldV::Varint(v)) == Ok::<_, Seq<char>>(
            FrameV { service: to_signed(v), ..f },
        ),
        frame_with(f, 4, FieldV::Varint(v)) == Ok::<_, Seq<char>>(
            FrameV { method: to_signed(v), ..f },
        ),
        header_in(b) matches Ok(h) ==> frame_with(f, 5, FieldV::Bytes(b)) == Ok::<_, Seq<char>>(
            FrameV { headers: f.headers.push(h), ..f },
        ),
        header_in(b) is Err ==> frame_with(f, 5, FieldV::Bytes(b)) is Err,
        frame_with(f, 6, FieldV::Bytes(b)) == Ok::<_, Seq<char>>(
            FrameV { payload_encoding: text::lossy(b), ..f },
        ),
        frame_with(f, 7, FieldV::Bytes(b)) == Ok::<_, Seq<char>>(
            FrameV { payload_type: text::lossy(b), ..f },
        ),
        frame_with(f, 8, FieldV::Bytes(b)) == Ok::<_, Seq<char>>(FrameV { payload: b, ..f }),
        frame_with(f, 9, FieldV::Bytes(b)) == Ok::<_, Seq<char>>(
            FrameV { log_id_new: text::lossy(b), ..f },
        ),
{
}

/// A field of fixed size is passed over whole, four bytes or eight; where they are not
/// all there, the frame is malformed, as it is in a header and with a kind that is not
/// known.
pub proof fn law_fixed_fields(pre: Seq<u8>, mark: u8, rest: Seq<u8>)
    requires
        mark < 128,
    ensures
        ({
            let data = pre + seq![mark] + rest;
            let at = pre.len() as int;
            &&& mark % 8 == 5 && rest.len() >= 4 ==> field_at(data, at, false) == Ok::<
                _,
                Seq<char>,
            >(((mark / 8) as u32, FieldV::Fixed, at + 5))
            &&& mark % 8 == 5 && rest.len() < 4 ==> field_at(data, at, false) is Err
            &&& mark % 8 == 1 && rest.len() >= 8 ==> field_at(data, at, false) == Ok::<
                _,
                Seq<char>,
            >(((mark / 8) as u32, FieldV::Fixed, at + 9))
            &&& mark % 8 == 1 && rest.len() < 8 ==> field_at(data, at, false) is Err
            &&& mark % 8 != 0 && mark % 8 != 2 ==> field_at(data, at, true) is Err
            &&& mark % 8 == 3 || mark % 8 == 4 || mark % 8 > 5 ==> field_at(data, at, false) is Err
        }),
{
    let data = pre + seq![mark] + rest;
    let at = pre.len() as int;
    assert(data[at] == mark);
    assert(varint_at(data, at, 0) == VarintV::Value(mark as nat, at + 1));
    vstd::arithmetic::div_mod::lemma_small_mod(mark as nat, two_64());
    assert(varint(data, at) == Ok::<_, Seq<char>>((mark as u64, at + 1)));
    assert((mark as u64 / 8) % 0x1_0000_0000 == mark / 8);
}

/// A number that does not end within ten bytes is too long, and one that does not end
/// before the data does is cut off.
pub proof fn law_varint_fails(data: Seq<u8>, pos: int)
    requires
        0 <= pos <= data.len(),
        forall|i: int| pos <= i < data.len() ==> (#[trigger] data[i]) >= 128,
    ensures
        varint(data, pos) is Err,
        data.len() - pos >= 10 ==> varint(data, pos) == Err::<(u64, int), _>("varint too long"@),
        data.len() - pos < 10 ==> varint(data, pos) == Err::<(u64, int), _>(
            "unexpected EOF in varint"@,
        ),
{
    lemma_varint_fails(data, pos, 0);
}

proof fn lemma_varint_fails(data: Seq<u8>, pos: int, k: nat)
    requires
        0 <= pos <= data.len(),
        k <= 9,
        forall|i: int| pos <= i < data.len() ==> (#[trigger] data[i]) >= 128,
    ensures
        data.len() - pos >= 10 - k ==> varint_at(data, pos, k) is TooLong,
        data.len() - pos < 10 - k ==> varint_at(data, pos, k) is Eof,
    decreases data.len() - pos,
{
    if pos < data.len() {
        assert(data[pos] >= 128);
        if k < 9 {
            lemma_varint_fails(data, pos + 1, k + 1);
        }
    }
}

} // verus!
