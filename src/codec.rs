//! The token codec: an operation list becomes a fixed-layout binary blob,
//! which is then percent-encoded into a single URL path segment.
use vstd::prelude::*;
use vstd::string::*;
use percent_encoding::{percent_decode_str, percent_encode, NON_ALPHANUMERIC};
use crate::model::{Filter, ImageSpec, Operation, SampleFilter};

verus! {

/// Why a token could not be decoded.
#[derive(Clone, Copy, Debug, PartialEq, Eq, Structural)]
pub enum SpecDecodeError {
    /// The token is not ASCII, or has a `%` without two hexadecimal digits.
    InvalidEncoding,
    /// A record starts with a tag byte that names no operation.
    UnknownOperation,
    /// A resampling kernel or filter preset byte names no kind.
    UnknownKind,
    /// The last record is shorter than its tag requires.
    Truncated,
}

pub const TAG_RESIZE: u8 = 1;
pub const TAG_WATERMARK: u8 = 2;
pub const TAG_FILTER: u8 = 3;

pub open spec fn sample_code(f: SampleFilter) -> u8 {
    match f {
        SampleFilter::Nearest => 0,
        SampleFilter::Triangle => 1,
        SampleFilter::CatmullRom => 2,
        SampleFilter::Gaussian => 3,
        SampleFilter::Lanczos3 => 4,
    }
}

pub open spec fn sample_of(b: u8) -> Option<SampleFilter> {
    if b == 0 { Some(SampleFilter::Nearest) }
    else if b == 1 { Some(SampleFilter::Triangle) }
    else if b == 2 { Some(SampleFilter::CatmullRom) }
    else if b == 3 { Some(SampleFilter::Gaussian) }
    else if b == 4 { Some(SampleFilter::Lanczos3) }
    else { None }
}

pub open spec fn filter_code(f: Filter) -> u8 {
    match f {
        Filter::Oceanic => 0,
        Filter::Islands => 1,
        Filter::Marine => 2,
    }
}

pub open spec fn filter_of(b: u8) -> Option<Filter> {
    if b == 0 { Some(Filter::Oceanic) }
    else if b == 1 { Some(Filter::Islands) }
    else if b == 2 { Some(Filter::Marine) }
    else { None }
}

/// The four little-endian bytes of `v`.
pub open spec fn le32(v: u32) -> Seq<u8> {
    seq![(v % 256) as u8, ((v / 256) % 256) as u8, ((v / 65536) % 256) as u8, (v / 16777216) as u8]
}

/// The integer whose little-endian bytes start at `i` in `b`.
pub open spec fn read_le32(b: Seq<u8>, i: int) -> u32 {
    (b[i] + 256 * b[i + 1] + 65536 * b[i + 2] + 16777216 * b[i + 3]) as u32
}

/// The binary record of one operation: a tag byte, then its fixed-width fields.
pub open spec fn op_bytes(op: Operation) -> Seq<u8> {
    match op {
        Operation::Resize { width, height, filter } =>
            seq![TAG_RESIZE] + le32(width) + le32(height) + seq![sample_code(filter)],
        Operation::Watermark { x, y } => seq![TAG_WATERMARK] + le32(x) + le32(y),
        Operation::Filter { kind } => seq![TAG_FILTER, filter_code(kind)],
    }
}

/// The records of all operations, concatenated in order.
pub open spec fn ops_bytes(ops: Seq<Operation>) -> Seq<u8>
    decreases ops.len(),
{
    if ops.len() == 0 {
        Seq::empty()
    } else {
        ops_bytes(ops.drop_last()) + op_bytes(ops.last())
    }
}

/// The length of the record that starts with `tag`, or 0 for an unknown tag.
pub open spec fn record_len(tag: u8) -> int {
    if tag == TAG_RESIZE { 10 }
    else if tag == TAG_WATERMARK { 9 }
    else if tag == TAG_FILTER { 2 }
    else { 0 }
}

/// The first record of a non-empty blob, with its length.
pub open spec fn parse_one(b: Seq<u8>) -> Result<(Operation, int), SpecDecodeError> {
    let tag = b[0];
    if record_len(tag) == 0 {
        Err(SpecDecodeError::UnknownOperation)
    } else if b.len() < record_len(tag) {
        Err(SpecDecodeError::Truncated)
    } else if tag == TAG_RESIZE {
        match sample_of(b[9]) {
            Some(f) => Ok((Operation::Resize { width: read_le32(b, 1), height: read_le32(b, 5), filter: f }, 10)),
            None => Err(SpecDecodeError::UnknownKind),
        }
    } else if tag == TAG_WATERMARK {
        Ok((Operation::Watermark { x: read_le32(b, 1), y: read_le32(b, 5) }, 9))
    } else {
        match filter_of(b[1]) {
            Some(k) => Ok((Operation::Filter { kind: k }, 2)),
            None => Err(SpecDecodeError::UnknownKind),
        }
    }
}

/// The operations of a blob, read record by record from the front.
pub open spec fn parse_ops(b: Seq<u8>) -> Result<Seq<Operation>, SpecDecodeError>
    decreases b.len(),
{
    if b.len() == 0 {
        Ok(Seq::empty())
    } else {
        match parse_one(b) {
            Err(e) => Err(e),
            Ok((op, n)) => if 0 < n <= b.len() {
                match parse_ops(b.subrange(n, b.len() as int)) {
                    Ok(rest) => Ok(seq![op] + rest),
                    Err(e) => Err(e),
                }
            } else {
                Err(SpecDecodeError::Truncated)
            },
        }
    }
}

pub open spec fn prepend(p: Seq<Operation>, r: Result<Seq<Operation>, SpecDecodeError>) -> Result<Seq<Operation>, SpecDecodeError> {
    match r {
        Ok(s) => Ok(p + s),
        Err(e) => Err(e),
    }
}

pub open spec fn is_alnum(b: u8) -> bool {
    (48 <= b <= 57) || (65 <= b <= 90) || (97 <= b <= 122)
}

pub open spec fn is_hex(b: u8) -> bool {
    (48 <= b <= 57) || (65 <= b <= 70) || (97 <= b <= 102)
}

pub open spec fn hex_val(b: u8) -> int {
    if 48 <= b <= 57 { b - 48 } else if 65 <= b <= 70 { b - 55 } else { b - 87 }
}

/// The upper-case hexadecimal digit of `n < 16`.
pub open spec fn hex_upper(n: u8) -> u8 {
    if n < 10 { (48 + n) as u8 } else { (55 + n) as u8 }
}

/// A letter or digit stands for itself; every other byte becomes `%XX`.
pub open spec fn pct_byte(b: u8) -> Seq<u8> {
    if is_alnum(b) {
        seq![b]
    } else {
        seq![37u8, hex_upper(b / 16), hex_upper(b % 16)]
    }
}

pub open spec fn pct_encoded(s: Seq<u8>) -> Seq<u8>
    decreases s.len(),
{
    if s.len() == 0 {
        Seq::empty()
    } else {
        pct_byte(s[0]) + pct_encoded(s.subrange(1, s.len() as int))
    }
}

/// `%` and two hexadecimal digits of either case give one byte; any other
/// byte, a lone `%` included, stands for itself.
pub open spec fn pct_decoded(s: Seq<u8>) -> Seq<u8>
    decreases s.len(),
{
    if s.len() == 0 {
        Seq::empty()
    } else if s[0] == 37 && s.len() >= 3 && is_hex(s[1]) && is_hex(s[2]) {
        seq![(hex_val(s[1]) * 16 + hex_val(s[2])) as u8] + pct_decoded(s.subrange(3, s.len() as int))
    } else {
        seq![s[0]] + pct_decoded(s.subrange(1, s.len() as int))
    }
}

pub open spec fn all_ascii(t: Seq<char>) -> bool {
    forall|i: int| 0 <= i < t.len() ==> (t[i] as u32) < 128
}

pub open spec fn ascii_chars(b: Seq<u8>) -> Seq<char> {
    b.map_values(|c: u8| c as char)
}

pub open spec fn ascii_bytes(t: Seq<char>) -> Seq<u8> {
    t.map_values(|c: char| c as u8)
}

/// The token of an operation list.
pub open spec fn encode_spec(ops: Seq<Operation>) -> Seq<char> {
    ascii_chars(pct_encoded(ops_bytes(ops)))
}

/// Whether every `%` of the text is followed by two hexadecimal digits, of
/// either case.
pub open spec fn pct_well_formed(s: Seq<u8>) -> bool {
    forall|i: int| 0 <= i < s.len() && #[trigger] s[i] == 37 ==> i + 2 < s.len() && is_hex(s[i + 1]) && is_hex(s[i + 2])
}

/// What decoding a token gives: a well-formed ASCII percent-encoding is
/// decoded, and the blob must then read as whole records.
pub open spec fn decode_spec(t: Seq<char>) -> Result<Seq<Operation>, SpecDecodeError> {
    if !all_ascii(t) || !pct_well_formed(ascii_bytes(t)) {
        Err(SpecDecodeError::InvalidEncoding)
    } else {
        parse_ops(pct_decoded(ascii_bytes(t)))
    }
}

/// Relies on percent_encoding::percent_encode with NON_ALPHANUMERIC: ASCII
/// letters and digits are kept, every other byte becomes `%` and two
/// upper-case hexadecimal digits.
#[verifier::external_body]
fn pct_encode(b: &[u8]) -> (r: String)
    ensures
        r@ == ascii_chars(pct_encoded(b@)),
{
    percent_encode(b, NON_ALPHANUMERIC).to_string()
}

/// Relies on percent_encoding::percent_decode_str: on an ASCII input, `%`
/// with two hexadecimal digits gives one byte and every other byte is kept.
#[verifier::external_body]
pub(crate) fn pct_decode(t: &str) -> (r: Vec<u8>)
    ensures
        all_ascii(t@) ==> r@ == pct_decoded(ascii_bytes(t@)),
{
    percent_decode_str(t).collect()
}

pub open spec fn decoded_as(r: Result<Vec<Operation>, SpecDecodeError>, s: Result<Seq<Operation>, SpecDecodeError>) -> bool {
    match r {
        Ok(v) => s == Ok::<Seq<Operation>, SpecDecodeError>(v@),
        Err(e) => s == Err::<Seq<Operation>, SpecDecodeError>(e),
    }
}

fn push_le32(out: &mut Vec<u8>, v: u32)
    ensures
        final(out)@ == old(out)@ + le32(v),
{
    out.push((v % 256) as u8);
    out.push(((v / 256) % 256) as u8);
    out.push(((v / 65536) % 256) as u8);
    out.push((v / 16777216) as u8);
    assert(final(out)@ =~= old(out)@ + le32(v));
}

fn read_u32(b: &Vec<u8>, i: usize) -> (r: u32)
    requires
        i + 4 <= b@.len(),
    ensures
        r == read_le32(b@, i as int),
{
    let _n = b.len();
    let b0: u32 = b[i] as u32;
    let b1: u32 = b[i + 1] as u32;
    let b2: u32 = b[i + 2] as u32;
    let b3: u32 = b[i + 3] as u32;
    assert(b1 <= 255 && b2 <= 255 && b3 <= 255);
    b0 + 256 * b1 + 65536 * b2 + 16777216 * b3
}

fn sample_byte(f: SampleFilter) -> (r: u8)
    ensures
        r == sample_code(f),
{
    match f {
        SampleFilter::Nearest => 0,
        SampleFilter::Triangle => 1,
        SampleFilter::CatmullRom => 2,
        SampleFilter::Gaussian => 3,
        SampleFilter::Lanczos3 => 4,
    }
}

fn sample_from(b: u8) -> (r: Option<SampleFilter>)
    ensures
        r == sample_of(b),
{
    if b == 0 { Some(SampleFilter::Nearest) }
    else if b == 1 { Some(SampleFilter::Triangle) }
    else if b == 2 { Some(SampleFilter::CatmullRom) }
    else if b == 3 { Some(SampleFilter::Gaussian) }
    else if b == 4 { Some(SampleFilter::Lanczos3) }
    else { None }
}

fn filter_byte(f: Filter) -> (r: u8)
    ensures
        r == filter_code(f),
{
    match f {
        Filter::Oceanic => 0,
        Filter::Islands => 1,
        Filter::Marine => 2,
    }
}

fn filter_from(b: u8) -> (r: Option<Filter>)
    ensures
        r == filter_of(b),
{
    if b == 0 { Some(Filter::Oceanic) }
    else if b == 1 { Some(Filter::Islands) }
    else if b == 2 { Some(Filter::Marine) }
    else { None }
}

/// Appends the binary record of one operation.
pub fn encode_record(out: &mut Vec<u8>, op: Operation)
    ensures
        final(out)@ == old(out)@ + op_bytes(op),
{
    match op {
        Operation::Resize { width, height, filter } => {
            out.push(TAG_RESIZE);
            push_le32(out, width);
            push_le32(out, height);
            out.push(sample_byte(filter));
        },
        Operation::Watermark { x, y } => {
            out.push(TAG_WATERMARK);
            push_le32(out, x);
            push_le32(out, y);
        },
        Operation::Filter { kind } => {
            out.push(TAG_FILTER);
            out.push(filter_byte(kind));
        },
    }
    assert(final(out)@ =~= old(out)@ + op_bytes(op));
}

/// The binary blob of an operation list.
pub fn encode_blob(ops: &Vec<Operation>) -> (r: Vec<u8>)
    ensures
        r@ == ops_bytes(ops@),
{
    let mut out: Vec<u8> = Vec::new();
    let mut i: usize = 0;
    while i < ops.len()
        invariant
            i <= ops@.len(),
            out@ == ops_bytes(ops@.take(i as int)),
        decreases ops@.len() - i,
    {
        assert(ops@.take(i + 1).drop_last() =~= ops@.take(i as int));
        encode_record(&mut out, ops[i]);
        i = i + 1;
    }
    assert(ops@.take(i as int) =~= ops@);
    out
}

/// Reads the blob record by record; stops at the first record that is not whole
/// or names no operation or kind.
pub fn parse_blob(b: &Vec<u8>) -> (r: Result<Vec<Operation>, SpecDecodeError>)
    ensures
        decoded_as(r, parse_ops(b@)),
{
    let mut out: Vec<Operation> = Vec::new();
    let mut pos: usize = 0;
    let len = b.len();
    assert(b@.subrange(0, len as int) =~= b@);
    proof {
        match parse_ops(b@) {
            Ok(x) => {
                assert(out@ + x =~= x);
            },
            Err(_) => {},
        }
    }
    while pos < len
        invariant
            len == b@.len(),
            pos <= len,
            parse_ops(b@) == prepend(out@, parse_ops(b@.subrange(pos as int, len as int))),
        decreases len - pos,
    {
        let ghost rest = b@.subrange(pos as int, len as int);
        let tag = b[pos];
        let n: usize;
        let op: Operation;
        if tag == TAG_RESIZE {
            if len - pos < 10 {
                return Err(SpecDecodeError::Truncated);
            }
            let w = read_u32(b, pos + 1);
            let h = read_u32(b, pos + 5);
            assert(w == read_le32(rest, 1));
            assert(h == read_le32(rest, 5));
            match sample_from(b[pos + 9]) {
                Some(f) => {
                    op = Operation::Resize { width: w, height: h, filter: f };
                },
                None => {
                    return Err(SpecDecodeError::UnknownKind);
                },
            }
            n = 10;
        } else if tag == TAG_WATERMARK {
            if len - pos < 9 {
                return Err(SpecDecodeError::Truncated);
            }
            let x = read_u32(b, pos + 1);
            let y = read_u32(b, pos + 5);
            assert(x == read_le32(rest, 1));
            assert(y == read_le32(rest, 5));
            op = Operation::Watermark { x, y };
            n = 9;
        } else if tag == TAG_FILTER {
            if len - pos < 2 {
                return Err(SpecDecodeError::Truncated);
            }
            match filter_from(b[pos + 1]) {
                Some(k) => {
                    op = Operation::Filter { kind: k };
                },
                None => {
                    return Err(SpecDecodeError::UnknownKind);
                },
            }
            n = 2;
        } else {
            return Err(SpecDecodeError::UnknownOperation);
        }
        assert(parse_one(rest) == Ok::<(Operation, int), SpecDecodeError>((op, n as int)));
        assert(rest.subrange(n as int, rest.len() as int) =~= b@.subrange(pos + n, len as int));
        let ghost old_out = out@;
        out.push(op);
        assert(old_out + seq![op] =~= out@);
        proof {
            match parse_ops(b@.subrange(pos + n, len as int)) {
                Ok(x) => {
                    assert(old_out + (seq![op] + x) =~= out@ + x);
                },
                Err(_) => {},
            }
        }
        pos = pos + n;
    }
    assert(out@ + Seq::<Operation>::empty() =~= out@);
    Ok(out)
}

pub(crate) fn all_ascii_exec(t: &str) -> (r: bool)
    ensures
        r == all_ascii(t@),
{
    let n = t.unicode_len();
    let mut i: usize = 0;
    while i < n
        invariant
            n == t@.len(),
            i <= n,
            forall|j: int| 0 <= j < i ==> (t@[j] as u32) < 128,
        decreases n - i,
    {
        if (t.get_char(i) as u32) >= 128 {
            return false;
        }
        i = i + 1;
    }
    true
}

fn is_hex_char(c: char) -> (r: bool)
    requires
        (c as u32) < 128,
    ensures
        r == is_hex(c as u8),
{
    let b: u8 = c as u8;
    (48 <= b && b <= 57) || (65 <= b && b <= 70) || (97 <= b && b <= 102)
}

/// Checks an ASCII token for a `%` without two hexadecimal digits after it.
pub(crate) fn pct_well_formed_exec(t: &str) -> (r: bool)
    requires
        all_ascii(t@),
    ensures
        r == pct_well_formed(ascii_bytes(t@)),
{
    let n = t.unicode_len();
    let ghost b = ascii_bytes(t@);
    let mut i: usize = 0;
    while i < n
        invariant
            n == t@.len(),
            b == ascii_bytes(t@),
            b.len() == n,
            all_ascii(t@),
            i <= n,
            forall|j: int| 0 <= j < i && #[trigger] b[j] == 37 ==> j + 2 < b.len() && is_hex(b[j + 1]) && is_hex(b[j + 2]),
        decreases n - i,
    {
        assert(b[i as int] == t@[i as int] as u8);
        if t.get_char(i) == '%' {
            if n - i <= 2 {
                return false;
            }
            assert(b[i + 1] == t@[i + 1] as u8);
            assert(b[i + 2] == t@[i + 2] as u8);
            if !is_hex_char(t.get_char(i + 1)) || !is_hex_char(t.get_char(i + 2)) {
                return false;
            }
        } else {
            assert((t@[i as int] as u32) < 128);
            assert(b[i as int] != 37);
        }
        i = i + 1;
    }
    true
}

/// The text as one URL path segment: its UTF-8 bytes, letters and digits
/// kept and every other byte written as `%XX`.
pub fn encode_segment(text: &str) -> (r: String)
    ensures
        r@ == ascii_chars(pct_encoded(text.spec_bytes())),
{
    let b = text.as_bytes_vec();
    pct_encode(b.as_slice())
}

impl ImageSpec {
    /// The token of this operation list: deterministic, and always accepted
    /// back by `decode`.
    pub fn encode(&self) -> (r: String)
        ensures
            r@ == encode_spec(self@),
    {
        let blob = encode_blob(&self.specs);
        pct_encode(blob.as_slice())
    }

    /// The operation list that a token stands for.
    pub fn decode(token: &str) -> (r: Result<ImageSpec, SpecDecodeError>)
        ensures
            match r {
                Ok(s) => decode_spec(token@) == Ok::<Seq<Operation>, SpecDecodeError>(s@),
                Err(e) => decode_spec(token@) == Err::<Seq<Operation>, SpecDecodeError>(e),
            },
    {
        if !all_ascii_exec(token) {
            return Err(SpecDecodeError::InvalidEncoding);
        }
        if !pct_well_formed_exec(token) {
            return Err(SpecDecodeError::InvalidEncoding);
        }
        let blob = pct_decode(token);
        match parse_blob(&blob) {
            Ok(specs) => Ok(ImageSpec { specs }),
            Err(e) => Err(e),
        }
    }
}

proof fn lemma_le32_read(v: u32)
    ensures
        read_le32(le32(v), 0) == v,
{
    let b = le32(v);
    assert(b[0] == v % 256);
    assert(b[1] == (v / 256) % 256);
    assert(b[2] == (v / 65536) % 256);
    assert(b[3] == v / 16777216);
}

proof fn lemma_read_le32(b: Seq<u8>, i: int)
    requires
        0 <= i,
        i + 4 <= b.len(),
    ensures
        le32(read_le32(b, i)) =~= b.subrange(i, i + 4),
{
    let v = read_le32(b, i);
    let b0 = b[i];
    let b1 = b[i + 1];
    let b2 = b[i + 2];
    let b3 = b[i + 3];
    assert(v == b0 + 256 * b1 + 65536 * b2 + 16777216 * b3);
    assert(v % 256 == b0);
    assert(v / 256 == b1 + 256 * b2 + 65536 * b3);
    assert((v / 256) % 256 == b1);
    assert(v / 65536 == b2 + 256 * b3);
    assert((v / 65536) % 256 == b2);
    assert(v / 16777216 == b3);
}

proof fn lemma_ops_bytes_append(a: Seq<Operation>, b: Seq<Operation>)
    ensures
        ops_bytes(a + b) == ops_bytes(a) + ops_bytes(b),
    decreases b.len(),
{
    if b.len() == 0 {
        assert(a + b =~= a);
        assert(ops_bytes(a) + ops_bytes(b) =~= ops_bytes(a));
    } else {
        assert((a + b).drop_last() =~= a + b.drop_last());
        assert((a + b).last() == b.last());
        lemma_ops_bytes_append(a, b.drop_last());
        assert(ops_bytes(a) + ops_bytes(b.drop_last()) + op_bytes(b.last()) =~= ops_bytes(a) + (
        ops_bytes(b.drop_last()) + op_bytes(b.last())));
    }
}

proof fn lemma_ops_bytes_front(ops: Seq<Operation>)
    requires
        ops.len() > 0,
    ensures
        ops_bytes(ops) == op_bytes(ops[0]) + ops_bytes(ops.drop_first()),
{
    let one = seq![ops[0]];
    assert(one + ops.drop_first() =~= ops);
    lemma_ops_bytes_append(one, ops.drop_first());
    assert(one.drop_last() =~= Seq::<Operation>::empty());
    assert(ops_bytes(one.drop_last()) =~= Seq::<u8>::empty());
    assert(one.last() == ops[0]);
    assert(ops_bytes(one) =~= op_bytes(ops[0]));
}

proof fn lemma_parse_one_record(op: Operation, rest: Seq<u8>)
    ensures
        parse_one(op_bytes(op) + rest) == Ok::<(Operation, int), SpecDecodeError>((op, op_bytes(op).len() as int)),
{
    let b = op_bytes(op) + rest;
    match op {
        Operation::Resize { width, height, filter } => {
            lemma_le32_read(width);
            lemma_le32_read(height);
            assert(b.subrange(1, 5) =~= le32(width));
            assert(b.subrange(5, 9) =~= le32(height));
            assert(read_le32(b, 1) == read_le32(le32(width), 0));
            assert(read_le32(b, 5) == read_le32(le32(height), 0));
        },
        Operation::Watermark { x, y } => {
            lemma_le32_read(x);
            lemma_le32_read(y);
            assert(b.subrange(1, 5) =~= le32(x));
            assert(b.subrange(5, 9) =~= le32(y));
            assert(read_le32(b, 1) == read_le32(le32(x), 0));
            assert(read_le32(b, 5) == read_le32(le32(y), 0));
        },
        Operation::Filter { kind } => {},
    }
}

/// Reading the blob of an operation list gives that list back.
pub proof fn lemma_parse_ops_bytes(ops: Seq<Operation>)
    ensures
        parse_ops(ops_bytes(ops)) == Ok::<Seq<Operation>, SpecDecodeError>(ops),
    decreases ops.len(),
{
    if ops.len() == 0 {
        assert(ops =~= Seq::<Operation>::empty());
    } else {
        lemma_ops_bytes_front(ops);
        let b = ops_bytes(ops);
        let rest = ops_bytes(ops.drop_first());
        lemma_parse_one_record(ops[0], rest);
        let n = op_bytes(ops[0]).len() as int;
        assert(b.subrange(n, b.len() as int) =~= rest);
        lemma_parse_ops_bytes(ops.drop_first());
        assert(seq![ops[0]] + ops.drop_first() =~= ops);
    }
}

proof fn lemma_parse_one_bytes(b: Seq<u8>)
    requires
        b.len() > 0,
        parse_one(b) is Ok,
    ensures
        ({
            let (op, n) = parse_one(b)->Ok_0;
            0 < n <= b.len() && op_bytes(op) == b.subrange(0, n)
        }),
{
    let (op, n) = parse_one(b)->Ok_0;
    match op {
        Operation::Resize { width, height, filter } => {
            lemma_read_le32(b, 1);
            lemma_read_le32(b, 5);
        },
        Operation::Watermark { x, y } => {
            lemma_read_le32(b, 1);
            lemma_read_le32(b, 5);
        },
        Operation::Filter { kind } => {},
    }
    assert(op_bytes(op) =~= b.subrange(0, n));
}

/// A blob that reads as an operation list is exactly that list's blob.
pub proof fn lemma_parse_ops_inverse(b: Seq<u8>)
    ensures
        parse_ops(b) is Ok ==> ops_bytes(parse_ops(b)->Ok_0) == b,
    decreases b.len(),
{
    if b.len() > 0 {
        if parse_one(b) is Ok {
            lemma_parse_one_bytes(b);
            let (op, n) = parse_one(b)->Ok_0;
            let tail = b.subrange(n, b.len() as int);
            lemma_parse_ops_inverse(tail);
            if parse_ops(tail) is Ok {
                let s = parse_ops(b)->Ok_0;
                let rest = parse_ops(tail)->Ok_0;
                assert(s == seq![op] + rest);
                assert(s.drop_first() =~= rest);
                lemma_ops_bytes_front(s);
                assert(b =~= b.subrange(0, n) + tail);
            }
        }
    } else {
        assert(ops_bytes(Seq::<Operation>::empty()) =~= b);
    }
}

proof fn lemma_pct_byte_ascii(b: u8)
    ensures
        forall|i: int| 0 <= i < pct_byte(b).len() ==> pct_byte(b)[i] < 128,
{
}

proof fn lemma_pct_encoded_ascii(s: Seq<u8>)
    ensures
        forall|i: int| 0 <= i < pct_encoded(s).len() ==> pct_encoded(s)[i] < 128,
    decreases s.len(),
{
    if s.len() > 0 {
        lemma_pct_byte_ascii(s[0]);
        lemma_pct_encoded_ascii(s.subrange(1, s.len() as int));
        let a = pct_byte(s[0]);
        let c = pct_encoded(s.subrange(1, s.len() as int));
        assert forall|i: int| 0 <= i < (a + c).len() implies (a + c)[i] < 128 by {
            if i >= a.len() {
                assert((a + c)[i] == c[i - a.len()]);
            }
        }
    }
}

/// Percent-decoding undoes percent-encoding.
pub proof fn lemma_pct_round_trip(s: Seq<u8>)
    ensures
        pct_decoded(pct_encoded(s)) == s,
    decreases s.len(),
{
    if s.len() == 0 {
        assert(pct_encoded(s) =~= Seq::<u8>::empty());
        assert(s =~= Seq::<u8>::empty());
    } else {
        let rest = s.subrange(1, s.len() as int);
        let e = pct_encoded(s);
        let a = pct_byte(s[0]);
        lemma_pct_round_trip(rest);
        assert(e == a + pct_encoded(rest));
        if is_alnum(s[0]) {
            assert(e[0] == s[0]);
            assert(e.subrange(1, e.len() as int) =~= pct_encoded(rest));
        } else {
            let hi = (s[0] / 16) as u8;
            let lo = (s[0] % 16) as u8;
            assert(e[0] == 37u8);
            assert(e[1] == hex_upper(hi));
            assert(e[2] == hex_upper(lo));
            assert(hex_val(hex_upper(hi)) == hi);
            assert(hex_val(hex_upper(lo)) == lo);
            assert(e.subrange(3, e.len() as int) =~= pct_encoded(rest));
        }
        assert(seq![s[0]] + rest =~= s);
    }
}

proof fn lemma_ascii_chars(b: Seq<u8>)
    requires
        forall|i: int| 0 <= i < b.len() ==> b[i] < 128,
    ensures
        all_ascii(ascii_chars(b)),
        ascii_bytes(ascii_chars(b)) == b,
{
    assert(ascii_bytes(ascii_chars(b)) =~= b);
}

/// Every operation list survives a trip through its token unchanged.
pub proof fn lemma_round_trip(ops: Seq<Operation>)
    ensures
        decode_spec(encode_spec(ops)) == Ok::<Seq<Operation>, SpecDecodeError>(ops),
{
    let b = ops_bytes(ops);
    lemma_pct_encoded_ascii(b);
    lemma_ascii_chars(pct_encoded(b));
    lemma_pct_encoded_form(b);
    lemma_pct_round_trip(b);
    lemma_parse_ops_bytes(ops);
}

/// Equal operation lists have the same token.
pub proof fn lemma_encode_deterministic(a: Seq<Operation>, b: Seq<Operation>)
    requires
        a == b,
    ensures
        encode_spec(a) == encode_spec(b),
{
}

/// Decoding yields no stray operations: whatever a token decodes to is read
/// from the token's whole blob, record by record, and re-encodes to that blob.
pub proof fn lemma_decode_no_garbage(t: Seq<char>)
    ensures
        decode_spec(t) is Ok ==> ops_bytes(decode_spec(t)->Ok_0) == pct_decoded(ascii_bytes(t)),
{
    lemma_parse_ops_inverse(pct_decoded(ascii_bytes(t)));
}

/// A token is made of ASCII letters, digits and `%XX` triples only, so it is
/// a single URL path segment; it is empty only for the empty list.
pub proof fn lemma_token_charset(ops: Seq<Operation>)
    ensures
        all_ascii(encode_spec(ops)),
        pct_well_formed(ascii_bytes(encode_spec(ops))),
        forall|i: int| 0 <= i < encode_spec(ops).len() ==>
            is_alnum(#[trigger] ascii_bytes(encode_spec(ops))[i]) || ascii_bytes(encode_spec(ops))[i] == 37,
        ops.len() > 0 ==> encode_spec(ops).len() > 0,
{
    let b = ops_bytes(ops);
    lemma_pct_encoded_ascii(b);
    lemma_ascii_chars(pct_encoded(b));
    lemma_pct_encoded_form(b);
    if ops.len() > 0 {
        lemma_ops_bytes_front(ops);
        assert(b.len() > 0);
        assert(pct_encoded(b).len() >= pct_byte(b[0]).len());
    }
}

proof fn lemma_pct_encoded_form(s: Seq<u8>)
    ensures
        pct_well_formed(pct_encoded(s)),
        forall|i: int| 0 <= i < pct_encoded(s).len() ==> is_alnum(#[trigger] pct_encoded(s)[i]) || pct_encoded(s)[i] == 37,
    decreases s.len(),
{
    if s.len() > 0 {
        let rest = s.subrange(1, s.len() as int);
        lemma_pct_encoded_form(rest);
        let a = pct_byte(s[0]);
        let c = pct_encoded(rest);
        let e = a + c;
        assert(e == pct_encoded(s));
        assert forall|i: int| 0 <= i < e.len() implies (is_alnum(#[trigger] e[i]) || e[i] == 37) && (e[i] == 37 ==> i + 2
            < e.len() && is_hex(e[i + 1]) && is_hex(e[i + 2])) by {
            if i >= a.len() {
                assert(e[i] == c[i - a.len()]);
                if e[i] == 37 {
                    assert(e[i + 1] == c[i - a.len() + 1]);
                    assert(e[i + 2] == c[i - a.len() + 2]);
                }
            }
        }
    } else {
        assert(pct_encoded(s).len() == 0);
    }
}

} // verus!
