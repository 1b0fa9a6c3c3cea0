//! The payload of one note: the line ranges and the vectors of one blob.
//!
//! ```text
//! magic   : [u8;4]        = b"VGRP"
//! version : u16 LE        = 1
//! dim     : u16 LE
//! n       : u32 LE        (number of chunks)
//! ranges  : [u32;2*n] LE  (start_line, end_line per chunk)
//! vecs    : [f32;n*dim] LE
//! ```
//!
//! A vector component is carried as the 32 bits of its IEEE 754 encoding.

use vstd::arithmetic::power::*;
use vstd::prelude::*;
use vstd::slice::*;

use crate::number::{law_le_reads_back, law_le_writes_back, le, le_value, lemma_le_bounds, lemma_le_len, push_le, read_le};

verus! {

pub const SCHEMA: u16 = 1;

/// How many bytes stand before the ranges.
pub const HEADER_BYTES: usize = 12;

/// What a payload holds.
pub struct Payload {
    pub dim: usize,
    /// First and last line of each chunk, counted from 1.
    pub ranges: Vec<(u32, u32)>,
    /// The vectors of the chunks, one after the other.
    pub bits: Vec<u32>,
}

/// The model of a payload.
#[verifier::ext_equal]
pub struct PayloadView {
    pub dim: nat,
    pub ranges: Seq<(u32, u32)>,
    pub bits: Seq<u32>,
}

impl View for Payload {
    type V = PayloadView;

    open spec fn view(&self) -> PayloadView {
        PayloadView { dim: self.dim as nat, ranges: self.ranges@, bits: self.bits@ }
    }
}

/// Why bytes are no payload.
#[derive(Debug, Clone, Copy, PartialEq, Eq, Structural)]
pub enum PayloadError {
    /// Too short for a header, or without the magic at the start.
    Magic,
    /// Written by another version of the format.
    Schema(u16),
    /// Shorter than the header says.
    Truncated,
}

/// The magic at the start: `VGRP`.
pub open spec fn magic() -> Seq<u8> {
    seq![0x56u8, 0x47u8, 0x52u8, 0x50u8]
}

/// The bytes of a sequence of ranges.
pub open spec fn range_bytes(ranges: Seq<(u32, u32)>) -> Seq<u8>
    decreases ranges.len(),
{
    if ranges.len() == 0 {
        Seq::empty()
    } else {
        range_bytes(ranges.drop_last()) + le(ranges.last().0 as nat, 4) + le(
            ranges.last().1 as nat,
            4,
        )
    }
}

/// The bytes of a sequence of words.
pub open spec fn word_bytes(bits: Seq<u32>) -> Seq<u8>
    decreases bits.len(),
{
    if bits.len() == 0 {
        Seq::empty()
    } else {
        word_bytes(bits.drop_last()) + le(bits.last() as nat, 4)
    }
}

/// The header of a payload with `n` chunks.
pub open spec fn header(dim: nat, n: nat) -> Seq<u8> {
    magic() + le(SCHEMA as nat, 2) + le(dim, 2) + le(n, 4)
}

/// The bytes of a payload.
pub open spec fn packed(dim: nat, ranges: Seq<(u32, u32)>, bits: Seq<u32>) -> Seq<u8> {
    header(dim, ranges.len()) + range_bytes(ranges) + word_bytes(bits)
}

/// The number in the `n` bytes at `at`.
pub open spec fn field(b: Seq<u8>, at: int, n: int) -> nat {
    le_value(b.subrange(at, at + n))
}

/// Whether the bytes hold a header.
pub open spec fn has_header(b: Seq<u8>) -> bool {
    b.len() >= HEADER_BYTES && b.take(4) == magic()
}

/// How many bytes a payload with this header takes at least.
pub open spec fn needed(dim: nat, n: nat) -> nat {
    HEADER_BYTES as nat + 8 * n + 4 * (n * dim)
}

/// What bytes hold as a payload.
pub open spec fn unpacked(b: Seq<u8>) -> Result<PayloadView, PayloadError> {
    if !has_header(b) {
        Err(PayloadError::Magic)
    } else if field(b, 4, 2) != SCHEMA {
        Err(PayloadError::Schema(field(b, 4, 2) as u16))
    } else {
        let dim = field(b, 6, 2);
        let n = field(b, 8, 4);
        if b.len() < needed(dim, n) {
            Err(PayloadError::Truncated)
        } else {
            Ok(
                PayloadView {
                    dim,
                    ranges: Seq::new(
                        n,
                        |i: int| (field(b, 12 + 8 * i, 4) as u32, field(b, 16 + 8 * i, 4) as u32),
                    ),
                    bits: Seq::new(n * dim, |i: int| field(b, 12 + 8 * n + 4 * i, 4) as u32),
                },
            )
        }
    }
}

/// Where the ranges stand in their bytes.
proof fn lemma_range_bytes(ranges: Seq<(u32, u32)>)
    ensures
        range_bytes(ranges).len() == 8 * ranges.len(),
        forall|i: int|
            #![trigger ranges[i]]
            0 <= i < ranges.len() ==> range_bytes(ranges).subrange(8 * i, 8 * i + 4) == le(
                ranges[i].0 as nat,
                4,
            ) && range_bytes(ranges).subrange(8 * i + 4, 8 * i + 8) == le(ranges[i].1 as nat, 4),
    decreases ranges.len(),
{
    if ranges.len() > 0 {
        let init = ranges.drop_last();
        lemma_range_bytes(init);
        lemma_le_len(ranges.last().0 as nat, 4);
        lemma_le_len(ranges.last().1 as nat, 4);
        let all = range_bytes(ranges);
        assert forall|i: int|
            #![trigger ranges[i]]
            0 <= i < ranges.len() implies all.subrange(8 * i, 8 * i + 4) == le(
            ranges[i].0 as nat,
            4,
        ) && all.subrange(8 * i + 4, 8 * i + 8) == le(ranges[i].1 as nat, 4) by {
            if i < init.len() {
                assert(init[i] == ranges[i]);
                assert(all.subrange(8 * i, 8 * i + 4) == range_bytes(init).subrange(
                    8 * i,
                    8 * i + 4,
                ));
                assert(all.subrange(8 * i + 4, 8 * i + 8) == range_bytes(init).subrange(
                    8 * i + 4,
                    8 * i + 8,
                ));
            } else {
                assert(all.subrange(8 * i, 8 * i + 4) == le(ranges[i].0 as nat, 4));
                assert(all.subrange(8 * i + 4, 8 * i + 8) == le(ranges[i].1 as nat, 4));
            }
        }
    }
}

/// Where the words stand in their bytes.
pub proof fn lemma_word_bytes(bits: Seq<u32>)
    ensures
        word_bytes(bits).len() == 4 * bits.len(),
        forall|i: int|
            #![trigger bits[i]]
            0 <= i < bits.len() ==> word_bytes(bits).subrange(4 * i, 4 * i + 4) == le(
                bits[i] as nat,
                4,
            ),
    decreases bits.len(),
{
    if bits.len() > 0 {
        let init = bits.drop_last();
        lemma_word_bytes(init);
        lemma_le_len(bits.last() as nat, 4);
        let all = word_bytes(bits);
        assert forall|i: int|
            #![trigger bits[i]]
            0 <= i < bits.len() implies all.subrange(4 * i, 4 * i + 4) == le(
            bits[i] as nat,
            4,
        ) by {
            if i < init.len() {
                assert(init[i] == bits[i]);
                assert(all.subrange(4 * i, 4 * i + 4) == word_bytes(init).subrange(
                    4 * i,
                    4 * i + 4,
                ));
            } else {
                assert(all.subrange(4 * i, 4 * i + 4) == le(bits[i] as nat, 4));
            }
        }
    }
}

/// The header of a packed payload gives the dimension and the number of chunks.
pub proof fn law_header_pack(dim: nat, ranges: Seq<(u32, u32)>, bits: Seq<u32>)
    requires
        dim <= u16::MAX,
        ranges.len() <= u32::MAX,
    ensures
        ({
            let b = packed(dim, ranges, bits);
            &&& b.len() == HEADER_BYTES + 8 * ranges.len() + 4 * bits.len()
            &&& has_header(b)
            &&& field(b, 4, 2) == SCHEMA
            &&& field(b, 6, 2) == dim
            &&& field(b, 8, 4) == ranges.len()
        }),
{
    let b = packed(dim, ranges, bits);
    let n = ranges.len();
    lemma_le_len(SCHEMA as nat, 2);
    lemma_le_len(dim, 2);
    lemma_le_len(n, 4);
    lemma_range_bytes(ranges);
    lemma_word_bytes(bits);
    lemma_le_bounds();
    law_le_reads_back(SCHEMA as nat, 2);
    law_le_reads_back(dim, 2);
    law_le_reads_back(n, 4);
    assert(b.take(4) == magic());
    assert(b.subrange(4, 6) == le(SCHEMA as nat, 2));
    assert(b.subrange(6, 8) == le(dim, 2));
    assert(b.subrange(8, 12) == le(n, 4));
}

/// A payload reads as what was packed.
pub proof fn law_unpack_pack(dim: nat, ranges: Seq<(u32, u32)>, bits: Seq<u32>)
    requires
        dim <= u16::MAX,
        ranges.len() <= u32::MAX,
        bits.len() == ranges.len() * dim,
    ensures
        unpacked(packed(dim, ranges, bits)) == Ok::<PayloadView, PayloadError>(
            PayloadView { dim, ranges, bits },
        ),
{
    let b = packed(dim, ranges, bits);
    let n = ranges.len();
    law_header_pack(dim, ranges, bits);
    lemma_range_bytes(ranges);
    lemma_word_bytes(bits);
    lemma_le_len(SCHEMA as nat, 2);
    lemma_le_len(dim, 2);
    lemma_le_len(n, 4);
    lemma_le_bounds();
    match unpacked(b) {
        Ok(v) => {
            assert forall|i: int| 0 <= i < n implies #[trigger] v.ranges[i] == ranges[i] by {
                assert(b.subrange(12 + 8 * i, 16 + 8 * i) == range_bytes(ranges).subrange(
                    8 * i,
                    8 * i + 4,
                ));
                assert(b.subrange(16 + 8 * i, 20 + 8 * i) == range_bytes(ranges).subrange(
                    8 * i + 4,
                    8 * i + 8,
                ));
                law_le_reads_back(ranges[i].0 as nat, 4);
                law_le_reads_back(ranges[i].1 as nat, 4);
                assert(12 + 8 * i + 4 == 16 + 8 * i);
                assert(16 + 8 * i + 4 == 20 + 8 * i);
            }
            assert(v.ranges =~= ranges);
            assert forall|i: int| 0 <= i < n * dim implies #[trigger] v.bits[i] == bits[i] by {
                let at = 12 + 8 * n + 4 * i;
                assert(b.subrange(at, at + 4) == word_bytes(bits).subrange(4 * i, 4 * i + 4));
                law_le_reads_back(bits[i] as nat, 4);
            }
            assert(v.bits =~= bits);
        },
        Err(_) => {},
    }
}

/// Calls `bytemuck::cast_slice` from `[u8; 4]` to `u8`: the words one after the
/// other, byte by byte.
#[verifier::external_body]
fn flatten_words(words: &[[u8; 4]]) -> (r: Vec<u8>)
    ensures
        r@.len() == 4 * words@.len(),
        forall|i: int| 0 <= i < r@.len() ==> #[trigger] r@[i] == words@[i / 4]@[i % 4],
{
    bytemuck::cast_slice::<[u8; 4], u8>(words).to_vec()
}

/// Calls `bytemuck::cast_slice` from `u8` to `[u8; 4]`: the bytes four by four.
/// The call panics where the length is no multiple of four.
#[verifier::external_body]
fn group_words(bytes: &[u8]) -> (r: Vec<[u8; 4]>)
    requires
        bytes@.len() % 4 == 0,
    ensures
        bytes@.len() == 4 * r@.len(),
        forall|i: int|
            0 <= i < r@.len() ==> (#[trigger] r@[i])@ == bytes@.subrange(4 * i, 4 * i + 4),
{
    bytemuck::cast_slice::<u8, [u8; 4]>(bytes).to_vec()
}

/// A word as four bytes, least significant first.
fn word_array(x: u32) -> (r: [u8; 4])
    ensures
        r@ == le(x as nat, 4),
{
    let a: u8 = (x % 256) as u8;
    let b: u8 = (x / 256 % 256) as u8;
    let c: u8 = (x / 256 / 256 % 256) as u8;
    let d: u8 = (x / 256 / 256 / 256 % 256) as u8;
    let r = [a, b, c, d];
    proof {
        reveal_with_fuel(le, 5);
        assert(r@ == le(x as nat, 4));
    }
    r
}

/// The bytes of a sequence of words.
pub fn words_to_bytes(bits: &[u32]) -> (r: Vec<u8>)
    ensures
        r@ == word_bytes(bits@),
{
    let mut words: Vec<[u8; 4]> = Vec::new();
    let mut i: usize = 0;
    while i < bits.len()
        invariant
            i <= bits@.len(),
            words@.len() == i,
            forall|k: int| 0 <= k < i ==> (#[trigger] words@[k])@ == le(bits@[k] as nat, 4),
        decreases bits@.len() - i,
    {
        words.push(word_array(bits[i]));
        i = i + 1;
    }
    let r = flatten_words(words.as_slice());
    proof {
        lemma_word_bytes(bits@);
        let want = word_bytes(bits@);
        assert forall|j: int| 0 <= j < r@.len() implies #[trigger] r@[j] == want[j] by {
            let k = j / 4;
            assert(words@[k]@ == le(bits@[k] as nat, 4));
            assert(want.subrange(4 * k, 4 * k + 4)[j % 4] == want[j]);
        }
        assert(r@ =~= want);
    }
    r
}

/// The words that a run of bytes holds.
pub fn bytes_to_words(bytes: &[u8]) -> (r: Vec<u32>)
    requires
        bytes@.len() % 4 == 0,
    ensures
        4 * r@.len() == bytes@.len(),
        forall|i: int| 0 <= i < r@.len() ==> #[trigger] r@[i] == field(bytes@, 4 * i, 4) as u32,
{
    let words = group_words(bytes);
    let mut out: Vec<u32> = Vec::new();
    let mut i: usize = 0;
    while i < words.len()
        invariant
            i <= words@.len(),
            out@.len() == i,
            bytes@.len() == 4 * words@.len(),
            forall|k: int|
                0 <= k < words@.len() ==> (#[trigger] words@[k])@ == bytes@.subrange(
                    4 * k,
                    4 * k + 4,
                ),
            forall|k: int|
                0 <= k < i ==> #[trigger] out@[k] == field(bytes@, 4 * k, 4) as u32,
        decreases words@.len() - i,
    {
        let w: [u8; 4] = words[i];
        let bytes4 = w.as_slice();
        let x: u64 = read_le(bytes4, 0, 4);
        proof {
            lemma_le_bounds();
            assert(bytes4@.subrange(0, 4) == words@[i as int]@);
        }
        out.push(x as u32);
        i = i + 1;
    }
    out
}

/// Packs the line ranges and the vectors of a blob.
pub fn pack_payload(dim: usize, ranges: &[(u32, u32)], bits: &[u32]) -> (r: Vec<u8>)
    requires
        bits@.len() == ranges@.len() * dim,
    ensures
        r@ == packed(dim as nat, ranges@, bits@),
{
    let mut out: Vec<u8> = Vec::new();
    out.push(0x56);
    out.push(0x47);
    out.push(0x52);
    out.push(0x50);
    assert(out@ == magic());
    push_le(&mut out, SCHEMA as u64, 2);
    push_le(&mut out, dim as u64, 2);
    push_le(&mut out, ranges.len() as u64, 4);
    let ghost head = out@;
    assert(head == header(dim as nat, ranges@.len()));
    let mut i: usize = 0;
    assert(ranges@.take(0) == Seq::<(u32, u32)>::empty());
    assert(head + range_bytes(ranges@.take(0)) == head);
    while i < ranges.len()
        invariant
            i <= ranges@.len(),
            out@ == head + range_bytes(ranges@.take(i as int)),
        decreases ranges@.len() - i,
    {
        let ghost before = out@;
        push_le(&mut out, ranges[i].0 as u64, 4);
        push_le(&mut out, ranges[i].1 as u64, 4);
        proof {
            let now = ranges@.take(i + 1);
            assert(now.drop_last() == ranges@.take(i as int));
            assert(now.last() == ranges@[i as int]);
            assert(out@ == head + range_bytes(now));
        }
        i = i + 1;
    }
    assert(ranges@.take(ranges@.len() as int) == ranges@);
    let mut words = words_to_bytes(bits);
    out.append(&mut words);
    out
}

/// Whether the magic stands at the start.
fn magic_at_start(bytes: &[u8]) -> (r: bool)
    requires
        bytes@.len() >= 4,
    ensures
        r == (bytes@.take(4) == magic()),
{
    let r = bytes[0] == 0x56 && bytes[1] == 0x47 && bytes[2] == 0x52 && bytes[3] == 0x50;
    proof {
        let t = bytes@.take(4);
        if r {
            assert(t =~= magic());
        } else {
            assert(t[0] == bytes@[0] && t[1] == bytes@[1] && t[2] == bytes@[2] && t[3]
                == bytes@[3]);
            assert(magic()[0] == 0x56 && magic()[1] == 0x47 && magic()[2] == 0x52 && magic()[3]
                == 0x50);
        }
    }
    r
}

/// Unpacks the payload of a note.
pub fn unpack_payload(bytes: &[u8]) -> (r: Result<Payload, PayloadError>)
    ensures
        match r {
            Ok(p) => unpacked(bytes@) == Ok::<PayloadView, PayloadError>(p@),
            Err(e) => unpacked(bytes@) == Err::<PayloadView, PayloadError>(e),
        },
        r matches Ok(p) ==> p.bits@.len() == p.ranges@.len() * p.dim,
{
    proof {
        lemma_le_bounds();
    }
    if bytes.len() < HEADER_BYTES || !magic_at_start(bytes) {
        return Err(PayloadError::Magic);
    }
    let version: u64 = read_le(bytes, 4, 2);
    if version != SCHEMA as u64 {
        return Err(PayloadError::Schema(version as u16));
    }
    let dim: u64 = read_le(bytes, 6, 2);
    let n: u64 = read_le(bytes, 8, 4);
    assert(n * dim <= 0xffff_ffff * 0xffff) by (nonlinear_arith)
        requires
            0 <= n <= 0xffff_ffff,
            0 <= dim <= 0xffff,
    ;
    assert(0 <= n * dim) by (nonlinear_arith)
        requires
            0 <= n,
            0 <= dim,
    ;
    let count: u64 = n * dim;
    if (bytes.len() as u64) < 12 + 8 * n + 4 * count {
        return Err(PayloadError::Truncated);
    }
    let n: usize = n as usize;
    let count: usize = count as usize;
    let mut ranges: Vec<(u32, u32)> = Vec::new();
    let mut i: usize = 0;
    while i < n
        invariant
            i <= n,
            n <= u32::MAX,
            12 + 8 * n <= bytes@.len(),
            bytes@.len() <= usize::MAX,
            pow(256, 4) == 0x1_0000_0000,
            ranges@.len() == i,
            forall|k: int|
                0 <= k < i ==> #[trigger] ranges@[k] == (
                    field(bytes@, 12 + 8 * k, 4) as u32,
                    field(bytes@, 16 + 8 * k, 4) as u32,
                ),
        decreases n - i,
    {
        let off: usize = 12 + i * 8;
        let s: u64 = read_le(bytes, off, 4);
        let e: u64 = read_le(bytes, off + 4, 4);
        ranges.push((s as u32, e as u32));
        i = i + 1;
    }
    let at: usize = 12 + 8 * n;
    let src = slice_subrange(bytes, at, at + 4 * count);
    let bits = bytes_to_words(src);
    let p = Payload { dim: dim as usize, ranges, bits };
    proof {
        match unpacked(bytes@) {
            Ok(v) => {
                assert(v.ranges =~= p.ranges@);
                assert forall|k: int| 0 <= k < count implies #[trigger] v.bits[k]
                    == p.bits@[k] by {
                    assert(src@.subrange(4 * k, 4 * k + 4) == bytes@.subrange(
                        at + 4 * k,
                        at + 4 * k + 4,
                    ));
                }
                assert(v.bits =~= p.bits@);
            },
            Err(_) => {},
        }
    }
    Ok(p)
}

/// The number of chunks that a payload's header gives.
pub fn peek_n(bytes: &[u8]) -> (r: Option<u32>)
    ensures
        r == (if has_header(bytes@) {
            Some(field(bytes@, 8, 4) as u32)
        } else {
            None
        }),
{
    if bytes.len() < HEADER_BYTES || !magic_at_start(bytes) {
        return None;
    }
    proof {
        lemma_le_bounds();
    }
    Some(read_le(bytes, 8, 4) as u32)
}

/// The dimension that a payload's header gives; `None` where there is no magic.
pub open spec fn peeked_dim(b: Seq<u8>) -> Option<u16> {
    if b.len() >= 8 && b.take(4) == magic() {
        Some(field(b, 6, 2) as u16)
    } else {
        None
    }
}

/// The dimension that a payload's header gives.
pub fn peek_dim(bytes: &[u8]) -> (r: Option<u16>)
    ensures
        r == peeked_dim(bytes@),
{
    if bytes.len() < 8 || !magic_at_start(bytes) {
        return None;
    }
    proof {
        lemma_le_bounds();
    }
    Some(read_le(bytes, 6, 2) as u16)
}

/// Where everything stands in a payload: the four letters `VGRP`, version 1 in two
/// bytes, the dimension in two and the number of chunks in four, all least
/// significant byte first; from byte 12 on eight bytes for the lines of each chunk;
/// behind them four bytes for each component of the vectors, and nothing else.
pub proof fn law_payload_layout(dim: nat, ranges: Seq<(u32, u32)>, bits: Seq<u32>)
    requires
        dim <= u16::MAX,
        ranges.len() <= u32::MAX,
    ensures
        ({
            let b = packed(dim, ranges, bits);
            let n = ranges.len();
            &&& b.len() == 12 + 8 * n + 4 * bits.len()
            &&& b[0] == 'V' as int && b[1] == 'G' as int && b[2] == 'R' as int && b[3] == 'P' as int
            &&& b[4] == 1 && b[5] == 0
            &&& b[6] + 256 * b[7] == dim
            &&& b[8] + 256 * b[9] + 0x1_0000 * b[10] + 0x100_0000 * b[11] == n
            &&& forall|i: int|
                #![trigger ranges[i]]
                0 <= i < n ==> le_value(b.subrange(12 + 8 * i, 16 + 8 * i)) == ranges[i].0
                    && le_value(b.subrange(16 + 8 * i, 20 + 8 * i)) == ranges[i].1
            &&& forall|i: int|
                #![trigger bits[i]]
                0 <= i < bits.len() ==> le_value(
                    b.subrange(12 + 8 * n + 4 * i, 16 + 8 * n + 4 * i),
                ) == bits[i]
        }),
{
    let b = packed(dim, ranges, bits);
    let n = ranges.len();
    law_header_pack(dim, ranges, bits);
    lemma_range_bytes(ranges);
    lemma_word_bytes(bits);
    lemma_le_len(SCHEMA as nat, 2);
    lemma_le_len(dim, 2);
    lemma_le_len(n, 4);
    lemma_le_bounds();
    assert(b[0] == b.take(4)[0] && b[1] == b.take(4)[1] && b[2] == b.take(4)[2] && b[3] == b.take(
        4,
    )[3]);
    reveal_with_fuel(le_value, 5);
    let v = b.subrange(4, 6);
    assert(v.drop_first()[0] == b[5]);
    let d = b.subrange(6, 8);
    assert(d.drop_first()[0] == b[7]);
    let c = b.subrange(8, 12);
    assert(c.drop_first()[0] == b[9]);
    assert(c.drop_first().drop_first()[0] == b[10]);
    assert(c.drop_first().drop_first().drop_first()[0] == b[11]);
    assert forall|i: int|
        #![trigger ranges[i]]
        0 <= i < n implies le_value(b.subrange(12 + 8 * i, 16 + 8 * i)) == ranges[i].0
        && le_value(b.subrange(16 + 8 * i, 20 + 8 * i)) == ranges[i].1 by {
        assert(b.subrange(12 + 8 * i, 16 + 8 * i) == range_bytes(ranges).subrange(
            8 * i,
            8 * i + 4,
        ));
        assert(b.subrange(16 + 8 * i, 20 + 8 * i) == range_bytes(ranges).subrange(
            8 * i + 4,
            8 * i + 8,
        ));
        law_le_reads_back(ranges[i].0 as nat, 4);
        law_le_reads_back(ranges[i].1 as nat, 4);
    }
    assert forall|i: int|
        #![trigger bits[i]]
        0 <= i < bits.len() implies le_value(b.subrange(12 + 8 * n + 4 * i, 16 + 8 * n + 4 * i))
        == bits[i] by {
        assert(b.subrange(12 + 8 * n + 4 * i, 16 + 8 * n + 4 * i) == word_bytes(bits).subrange(
            4 * i,
            4 * i + 4,
        ));
        law_le_reads_back(bits[i] as nat, 4);
    }
}

/// Bytes that are read as a payload start with the payload that they are read as;
/// what stands behind it makes no difference.
pub proof fn law_pack_unpack(b: Seq<u8>, more: Seq<u8>)
    requires
        unpacked(b) is Ok,
    ensures
        ({
            let p = unpacked(b)->Ok_0;
            &&& p.dim <= u16::MAX
            &&& p.ranges.len() <= u32::MAX
            &&& p.bits.len() == p.ranges.len() * p.dim
            &&& packed(p.dim, p.ranges, p.bits).len() <= b.len()
            &&& b.take(packed(p.dim, p.ranges, p.bits).len() as int) == packed(
                p.dim,
                p.ranges,
                p.bits,
            )
            &&& unpacked(b + more) == unpacked(b)
        }),
{
    let p = unpacked(b)->Ok_0;
    let n = p.ranges.len();
    lemma_le_bounds();
    lemma_reads_field(b, more, 4, 2);
    lemma_reads_field(b, more, 6, 2);
    lemma_reads_field(b, more, 8, 4);
    assert(p.dim == field(b, 6, 2) && n == field(b, 8, 4));
    law_header_pack(p.dim, p.ranges, p.bits);
    lemma_range_bytes(p.ranges);
    lemma_word_bytes(p.bits);
    lemma_le_len(SCHEMA as nat, 2);
    lemma_le_len(p.dim, 2);
    lemma_le_len(n, 4);
    let w = packed(p.dim, p.ranges, p.bits);
    assert(b.take(12) =~= header(p.dim, n)) by {
        assert(b.take(12) =~= b.take(4) + b.subrange(4, 6) + b.subrange(6, 8) + b.subrange(8, 12));
    }
    assert forall|i: int| 0 <= i < 8 * n implies #[trigger] range_bytes(p.ranges)[i] == b[12 + i] by {
        let k = i / 8;
        let at = 12 + 8 * k;
        lemma_reads_field(b, more, at, 4);
        lemma_reads_field(b, more, at + 4, 4);
        assert(p.ranges[k] == (field(b, at, 4) as u32, field(b, 16 + 8 * k, 4) as u32));
        if i % 8 < 4 {
            assert(range_bytes(p.ranges).subrange(8 * k, 8 * k + 4)[i % 8] == range_bytes(
                p.ranges,
            )[i]);
            assert(b.subrange(at, at + 4)[i % 8] == b[12 + i]);
        } else {
            assert(range_bytes(p.ranges).subrange(8 * k + 4, 8 * k + 8)[i % 8 - 4] == range_bytes(
                p.ranges,
            )[i]);
            assert(b.subrange(at + 4, at + 8)[i % 8 - 4] == b[12 + i]);
        }
    }
    assert forall|i: int| 0 <= i < 4 * p.bits.len() implies #[trigger] word_bytes(p.bits)[i] == b[12
        + 8 * n + i] by {
        let k = i / 4;
        let at = 12 + 8 * n + 4 * k;
        lemma_reads_field(b, more, at, 4);
        assert(p.bits[k] == field(b, at, 4) as u32);
        assert(word_bytes(p.bits).subrange(4 * k, 4 * k + 4)[i % 4] == word_bytes(p.bits)[i]);
        assert(b.subrange(at, at + 4)[i % 4] == b[12 + 8 * n + i]);
    }
    assert(b.take(w.len() as int) =~= w) by {
        assert forall|i: int| 0 <= i < w.len() implies b[i] == w[i] by {
            if i < 12 {
                assert(b.take(12)[i] == b[i]);
            } else if i < 12 + 8 * n {
                assert(w[i] == range_bytes(p.ranges)[i - 12]);
            } else {
                assert(w[i] == word_bytes(p.bits)[i - 12 - 8 * n]);
            }
        }
    }
    assert((b + more).take(4) == b.take(4));
    let q = unpacked(b + more)->Ok_0;
    assert(unpacked(b + more) is Ok);
    assert(q.ranges =~= p.ranges) by {
        assert forall|i: int| 0 <= i < n implies #[trigger] q.ranges[i] == p.ranges[i] by {
            lemma_reads_field(b, more, 12 + 8 * i, 4);
            lemma_reads_field(b, more, 16 + 8 * i, 4);
        }
    }
    assert(q.bits =~= p.bits) by {
        assert forall|i: int| 0 <= i < n * p.dim implies #[trigger] q.bits[i] == p.bits[i] by {
            lemma_reads_field(b, more, 12 + 8 * n + 4 * i, 4);
        }
    }
}

/// A field is its bytes, and what stands behind the bytes does not change it.
proof fn lemma_reads_field(b: Seq<u8>, more: Seq<u8>, at: int, n: int)
    requires
        0 <= at,
        0 <= n,
        at + n <= b.len(),
    ensures
        b.subrange(at, at + n) == le(field(b, at, n), n as nat),
        field(b, at, n) < pow(256, n as nat),
        field(b + more, at, n) == field(b, at, n),
{
    law_le_writes_back(b.subrange(at, at + n));
    assert((b + more).subrange(at, at + n) == b.subrange(at, at + n));
}

/// Bytes are refused as a payload for one of three reasons, the first that holds:
/// they lack the header or its four letters; the version is not 1; there are fewer
/// of them than the dimension and the number of chunks call for.
pub proof fn law_payload_errors(b: Seq<u8>)
    ensures
        b.len() < 12 || b[0] != 'V' as int || b[1] != 'G' as int || b[2] != 'R' as int || b[3]
            != 'P' as int <==> unpacked(b) == Err::<PayloadView, PayloadError>(PayloadError::Magic),
        unpacked(b) is Err && unpacked(b)->Err_0 is Schema ==> b.len() >= 12 && (b[4] != 1 || b[5]
            != 0) && unpacked(b)->Err_0->Schema_0 == b[4] + 256 * b[5],
        unpacked(b) is Ok ==> b[4] == 1 && b[5] == 0,
        unpacked(b) == Err::<PayloadView, PayloadError>(PayloadError::Truncated) ==> b.len() >= 12
            && b[4] == 1 && b[5] == 0 && {
            let dim = b[6] + 256 * b[7];
            let n = b[8] + 256 * b[9] + 0x1_0000 * b[10] + 0x100_0000 * b[11];
            b.len() < 12 + 8 * n + 4 * (n * dim)
        },
{
    if b.len() >= 12 {
        reveal_with_fuel(le_value, 5);
        let m = b.take(4);
        assert(m[0] == b[0] && m[1] == b[1] && m[2] == b[2] && m[3] == b[3]);
        assert(magic()[0] == 0x56 && magic()[1] == 0x47 && magic()[2] == 0x52 && magic()[3]
            == 0x50);
        if b[0] == 0x56 && b[1] == 0x47 && b[2] == 0x52 && b[3] == 0x50 {
            assert(m =~= magic());
        }
        let v = b.subrange(4, 6);
        assert(v.drop_first()[0] == b[5]);
        let d = b.subrange(6, 8);
        assert(d.drop_first()[0] == b[7]);
        let c = b.subrange(8, 12);
        assert(c.drop_first()[0] == b[9]);
        assert(c.drop_first().drop_first()[0] == b[10]);
        assert(c.drop_first().drop_first().drop_first()[0] == b[11]);
    }
}

/// The dimension and the number of chunks that the start of a payload shows are
/// those of the whole payload.
pub proof fn law_peek_shows_payload(b: Seq<u8>)
    requires
        unpacked(b) is Ok,
    ensures
        has_header(b),
        field(b, 8, 4) == unpacked(b)->Ok_0.ranges.len(),
        peeked_dim(b) is Some,
        peeked_dim(b)->Some_0 == unpacked(b)->Ok_0.dim,
{
    lemma_le_bounds();
    lemma_reads_field(b, Seq::empty(), 6, 2);
}

} // verus!
