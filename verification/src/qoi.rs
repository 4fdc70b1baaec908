use crate::error::CodecError;
use crate::util::be32_spec;
use crate::util::from_be32_spec;
use crate::util::push_be32;
use crate::util::read_be32;
use vstd::prelude::*;

verus! {

// ------------------------------------------------------------------
// Pixels and the index hash
// ------------------------------------------------------------------

/// One RGBA pixel.
#[derive(Clone, Copy, Debug, PartialEq, Eq, Structural)]
pub struct Pix {
    pub r: u8,
    pub g: u8,
    pub b: u8,
    pub a: u8,
}

/// The fixed initial "previous pixel" register of both codec directions.
pub open spec fn init_pix() -> Pix {
    Pix { r: 0, g: 0, b: 0, a: 255 }
}

/// The all-zero pixel that fills the seen table at initialization.  Note
/// that this differs from `init_pix`: the zero-alpha slot is real.
pub open spec fn zero_pix() -> Pix {
    Pix { r: 0, g: 0, b: 0, a: 0 }
}

/// The QOI index hash `(3R + 5G + 7B + 11A) mod 64`.
pub open spec fn hash_spec(p: Pix) -> int {
    (3 * (p.r as int) + 5 * (p.g as int) + 7 * (p.b as int) + 11 * (p.a as int)) % 64
}

/// Compute the index hash of a pixel.
pub fn hash(c: Pix) -> (r: usize)
    ensures
        r == hash_spec(c),
        r < 64,
{
    ((c.r as usize) * 3 + (c.g as usize) * 5 + (c.b as usize) * 7 + (c.a as usize) * 11) % 64
}

/// The wrap-around signed difference of two bytes, in `[-128, 127]`,
/// congruent to `x - y` modulo 256.
pub open spec fn delta(x: u8, y: u8) -> int {
    let d = x - y;
    if d < -128 {
        d + 256
    } else if d > 127 {
        d - 256
    } else {
        d
    }
}

/// Bytewise wrap-around addition of a signed amount.
pub open spec fn byte_add(x: u8, d: int) -> u8 {
    ((x + d) % 256) as u8
}

/// Adding a channel's wrap-around delta back onto the old byte restores
/// the new byte, also across the `255 -> 0` boundary.
pub proof fn lemma_byte_add_delta(x: u8, y: u8)
    ensures
        byte_add(y, delta(x, y)) == x,
{
    let d = delta(x, y);
    assert(y + d == x || y + d == x - 256 || y + d == x + 256);
    if y + d == x {
        assert((y + d) % 256 == x as int);
    } else if y + d == x - 256 {
        assert((x - 256) % 256 == x as int) by (nonlinear_arith)
            requires
                0 <= x < 256,
        ;
    } else {
        assert((x + 256) % 256 == x as int) by (nonlinear_arith)
            requires
                0 <= x < 256,
        ;
    }
}

fn wrap_delta(x: u8, y: u8) -> (r: i16)
    ensures
        r == delta(x, y),
{
    let d = x as i16 - y as i16;
    if d < -128 {
        d + 256
    } else if d > 127 {
        d - 256
    } else {
        d
    }
}

/// The wrap-around channel deltas of `pix` against `last_pix`, red,
/// green and blue in that order.
pub fn dr_dg_db(pix: Pix, last_pix: Pix) -> (r: (i16, i16, i16))
    ensures
        r.0 == delta(pix.r, last_pix.r),
        r.1 == delta(pix.g, last_pix.g),
        r.2 == delta(pix.b, last_pix.b),
{
    (wrap_delta(pix.r, last_pix.r), wrap_delta(pix.g, last_pix.g), wrap_delta(pix.b, last_pix.b))
}

// ------------------------------------------------------------------
// Chunks and their on-wire form
// ------------------------------------------------------------------

/// One QOI chunk.  Field widths and ranges are semantic; the wire form
/// applies the biases.
#[derive(Clone, Copy, Debug, PartialEq, Eq, Structural)]
pub enum Chunk {
    Rgb { r: u8, g: u8, b: u8 },
    Rgba { r: u8, g: u8, b: u8, a: u8 },
    Index { loc: u8 },
    Diff { dr: i8, dg: i8, db: i8 },
    Luma { dg: i8, dr_dg: i8, db_dg: i8 },
    Run { length: u8 },
}

/// The field ranges that every chunk on the wire satisfies.
pub open spec fn chunk_wf(c: Chunk) -> bool {
    match c {
        Chunk::Rgb { .. } => true,
        Chunk::Rgba { .. } => true,
        Chunk::Index { loc } => loc < 64,
        Chunk::Diff { dr, dg, db } => -2 <= dr <= 1 && -2 <= dg <= 1 && -2 <= db <= 1,
        Chunk::Luma { dg, dr_dg, db_dg } => -32 <= dg <= 31 && -8 <= dr_dg <= 7 && -8 <= db_dg
            <= 7,
        Chunk::Run { length } => 1 <= length <= 62,
    }
}

/// The on-wire bytes of one chunk: the exact inverse of the parser's
/// table, with the biases applied.
pub open spec fn assemble_chunk_spec(c: Chunk) -> Seq<u8> {
    match c {
        Chunk::Rgb { r, g, b } => seq![0xFEu8, r, g, b],
        Chunk::Rgba { r, g, b, a } => seq![0xFFu8, r, g, b, a],
        Chunk::Index { loc } => seq![loc & 0x3F],
        Chunk::Diff { dr, dg, db } => seq![
            (0x40u8 | (((dr + 2) as u8) << 4) | (((dg + 2) as u8) << 2) | ((db + 2) as u8)),
        ],
        Chunk::Luma { dg, dr_dg, db_dg } => seq![
            (0x80u8 | ((dg + 32) as u8)),
            ((((dr_dg + 8) as u8) << 4) | ((db_dg + 8) as u8)),
        ],
        Chunk::Run { length } => seq![(0xC0u8 | ((length - 1) as u8))],
    }
}

/// Parse one chunk at position `i` of `bytes`: the chunk and the
/// position just past it, or `None` when the input ends inside the
/// chunk.  The eight-bit tags `0xFE` and `0xFF` take precedence over
/// the two-bit dispatch.
pub open spec fn parse_chunk_spec(bytes: Seq<u8>, i: int) -> Option<(Chunk, int)> {
    if i < 0 || i >= bytes.len() {
        None
    } else {
        let tag = bytes[i];
        if tag == 0xFE {
            if i + 4 <= bytes.len() {
                Some((Chunk::Rgb { r: bytes[i + 1], g: bytes[i + 2], b: bytes[i + 3] }, i + 4))
            } else {
                None
            }
        } else if tag == 0xFF {
            if i + 5 <= bytes.len() {
                Some(
                    (
                        Chunk::Rgba {
                            r: bytes[i + 1],
                            g: bytes[i + 2],
                            b: bytes[i + 3],
                            a: bytes[i + 4],
                        },
                        i + 5,
                    ),
                )
            } else {
                None
            }
        } else if tag >> 6 == 0 {
            Some((Chunk::Index { loc: tag }, i + 1))
        } else if tag >> 6 == 1 {
            Some(
                (
                    Chunk::Diff {
                        dr: (((tag >> 4) & 3) - 2) as i8,
                        dg: (((tag >> 2) & 3) - 2) as i8,
                        db: ((tag & 3) - 2) as i8,
                    },
                    i + 1,
                ),
            )
        } else if tag >> 6 == 2 {
            if i + 2 <= bytes.len() {
                let n = bytes[i + 1];
                Some(
                    (
                        Chunk::Luma {
                            dg: ((tag & 0x3F) - 32) as i8,
                            dr_dg: ((n >> 4) - 8) as i8,
                            db_dg: ((n & 0x0F) - 8) as i8,
                        },
                        i + 2,
                    ),
                )
            } else {
                None
            }
        } else {
            Some((Chunk::Run { length: ((tag & 0x3F) + 1) as u8 }, i + 1))
        }
    }
}

/// Parsing the assembled bytes of a well-formed chunk, in place inside a
/// larger stream, yields that chunk again.
pub proof fn lemma_parse_assemble_at(bytes: Seq<u8>, i: int, c: Chunk)
    requires
        chunk_wf(c),
        0 <= i,
        i + assemble_chunk_spec(c).len() <= bytes.len(),
        bytes.subrange(i, i + assemble_chunk_spec(c).len() as int) == assemble_chunk_spec(c),
    ensures
        parse_chunk_spec(bytes, i) == Some((c, i + assemble_chunk_spec(c).len() as int)),
{
    let w = assemble_chunk_spec(c);
    assert(forall|k: int| 0 <= k < w.len() ==> bytes[i + k] == #[trigger] w[k]) by {
        assert(forall|k: int|
            0 <= k < w.len() ==> #[trigger] w[k] == bytes.subrange(i, i + w.len() as int)[k]);
    }
    match c {
        Chunk::Rgb { r, g, b } => {
            assert(bytes[i] == w[0]);
        },
        Chunk::Rgba { r, g, b, a } => {
            assert(bytes[i] == w[0]);
        },
        Chunk::Index { loc } => {
            let t = bytes[i];
            assert(t == w[0]);
            assert(t == (loc & 0x3F));
            assert(loc & 0x3F == loc && loc != 0xFE && loc != 0xFF && (loc >> 6) == 0)
                by (bit_vector)
                requires
                    loc < 64u8,
            ;
        },
        Chunk::Diff { dr, dg, db } => {
            let x = (dr + 2) as u8;
            let y = (dg + 2) as u8;
            let z = (db + 2) as u8;
            let t = bytes[i];
            assert(t == w[0]);
            assert(t == (0x40u8 | (x << 4) | (y << 2) | z));
            assert((0x40u8 | (x << 4) | (y << 2) | z) != 0xFE && (0x40u8 | (x << 4) | (y << 2)
                | z) != 0xFF && ((0x40u8 | (x << 4) | (y << 2) | z) >> 6) == 1 && (((0x40u8 | (x
            << 4) | (y << 2) | z) >> 4) & 3) == x && (((0x40u8 | (x << 4) | (y << 2) | z) >> 2)
                & 3) == y && ((0x40u8 | (x << 4) | (y << 2) | z) & 3) == z) by (bit_vector)
                requires
                    x <= 3u8,
                    y <= 3u8,
                    z <= 3u8,
            ;
            assert((((t >> 4) & 3) - 2) as i8 == dr);
            assert((((t >> 2) & 3) - 2) as i8 == dg);
            assert(((t & 3) - 2) as i8 == db);
        },
        Chunk::Luma { dg, dr_dg, db_dg } => {
            let u = (dg + 32) as u8;
            let v = (dr_dg + 8) as u8;
            let s = (db_dg + 8) as u8;
            let t = bytes[i];
            let n = bytes[i + 1];
            assert(t == w[0] && n == w[1]);
            assert(t == (0x80u8 | u));
            assert(n == ((v << 4) | s));
            assert((0x80u8 | u) != 0xFE && (0x80u8 | u) != 0xFF && ((0x80u8 | u) >> 6) == 2 && ((
            0x80u8 | u) & 0x3F) == u) by (bit_vector)
                requires
                    u <= 63u8,
            ;
            assert((((v << 4) | s) >> 4) == v && (((v << 4) | s) & 0x0F) == s) by (bit_vector)
                requires
                    v <= 15u8,
                    s <= 15u8,
            ;
            assert(((t & 0x3F) - 32) as i8 == dg);
            assert(((n >> 4) - 8) as i8 == dr_dg);
            assert(((n & 0x0F) - 8) as i8 == db_dg);
        },
        Chunk::Run { length } => {
            let w1 = (length - 1) as u8;
            let t = bytes[i];
            assert(t == w[0]);
            assert(t == (0xC0u8 | w1));
            assert((0xC0u8 | w1) != 0xFE && (0xC0u8 | w1) != 0xFF && ((0xC0u8 | w1) >> 6) == 3
                && ((0xC0u8 | w1) & 0x3F) == w1) by (bit_vector)
                requires
                    w1 <= 61u8,
            ;
            assert(((t & 0x3F) + 1) as u8 == length);
        },
    }
}

/// Parsing the on-wire bytes of a well-formed chunk yields that chunk
/// and consumes exactly its bytes.
pub proof fn lemma_parse_assemble(c: Chunk)
    requires
        chunk_wf(c),
    ensures
        parse_chunk_spec(assemble_chunk_spec(c), 0) == Some(
            (c, assemble_chunk_spec(c).len() as int),
        ),
{
    let w = assemble_chunk_spec(c);
    assert(w.subrange(0, w.len() as int) =~= w);
    lemma_parse_assemble_at(w, 0, c);
}

/// Every parsed chunk is well-formed, and re-assembling it reproduces
/// exactly the bytes it was parsed from: the wire form is canonical.
pub proof fn lemma_assemble_parse(bytes: Seq<u8>, i: int)
    requires
        parse_chunk_spec(bytes, i) is Some,
    ensures
        ({
            let (c, j) = parse_chunk_spec(bytes, i).unwrap();
            &&& chunk_wf(c)
            &&& i < j <= bytes.len()
            &&& assemble_chunk_spec(c) == bytes.subrange(i, j)
        }),
{
    let (c, j) = parse_chunk_spec(bytes, i).unwrap();
    let tag = bytes[i];
    if tag == 0xFE {
        assert(assemble_chunk_spec(c) =~= bytes.subrange(i, j));
    } else if tag == 0xFF {
        assert(assemble_chunk_spec(c) =~= bytes.subrange(i, j));
    } else if tag >> 6 == 0 {
        assert(tag < 64 && (tag & 0x3F) == tag) by (bit_vector)
            requires
                tag >> 6 == 0u8,
        ;
        assert(assemble_chunk_spec(c) =~= bytes.subrange(i, j));
    } else if tag >> 6 == 1 {
        let x = (tag >> 4) & 3;
        let y = (tag >> 2) & 3;
        let z = tag & 3;
        assert(x <= 3 && y <= 3 && z <= 3 && (0x40u8 | (x << 4) | (y << 2) | z) == tag)
            by (bit_vector)
            requires
                tag >> 6 == 1u8,
                x == (tag >> 4) & 3,
                y == (tag >> 2) & 3,
                z == tag & 3,
        ;
        assert(c == Chunk::Diff { dr: (x - 2) as i8, dg: (y - 2) as i8, db: (z - 2) as i8 });
        assert(chunk_wf(c));
        assert(((x - 2) as i8 + 2) as u8 == x);
        assert(((y - 2) as i8 + 2) as u8 == y);
        assert(((z - 2) as i8 + 2) as u8 == z);
        assert(assemble_chunk_spec(c) =~= bytes.subrange(i, j));
    } else if tag >> 6 == 2 {
        let n = bytes[i + 1];
        let u = tag & 0x3F;
        let v = n >> 4;
        let s = n & 0x0F;
        assert(u <= 63 && (0x80u8 | u) == tag) by (bit_vector)
            requires
                tag >> 6 == 2u8,
                tag != 0xFEu8,
                tag != 0xFFu8,
                u == tag & 0x3F,
        ;
        assert(v <= 15 && s <= 15 && ((v << 4) | s) == n) by (bit_vector)
            requires
                v == n >> 4,
                s == n & 0x0F,
        ;
        assert(c == Chunk::Luma {
            dg: (u - 32) as i8,
            dr_dg: (v - 8) as i8,
            db_dg: (s - 8) as i8,
        });
        assert(chunk_wf(c));
        assert(((u - 32) as i8 + 32) as u8 == u);
        assert(((v - 8) as i8 + 8) as u8 == v);
        assert(((s - 8) as i8 + 8) as u8 == s);
        assert(assemble_chunk_spec(c) =~= bytes.subrange(i, j));
    } else {
        let w1 = tag & 0x3F;
        assert(tag >> 6 == 3) by (bit_vector)
            requires
                tag >> 6 != 0u8,
                tag >> 6 != 1u8,
                tag >> 6 != 2u8,
        ;
        assert(w1 <= 61 && (0xC0u8 | w1) == tag) by (bit_vector)
            requires
                tag >> 6 == 3u8,
                tag != 0xFEu8,
                tag != 0xFFu8,
                w1 == tag & 0x3F,
        ;
        assert(c == Chunk::Run { length: (w1 + 1) as u8 });
        assert(chunk_wf(c));
        assert((((w1 + 1) as u8) - 1) as u8 == w1);
        assert(assemble_chunk_spec(c) =~= bytes.subrange(i, j));
    }
}

/// The on-wire bytes of a chunk sequence, in order.
pub open spec fn assemble_seq_spec(chunks: Seq<Chunk>) -> Seq<u8>
    decreases chunks.len(),
{
    if chunks.len() == 0 {
        Seq::empty()
    } else {
        assemble_chunk_spec(chunks[0]) + assemble_seq_spec(chunks.skip(1))
    }
}

/// Parse chunks from `i` to the end of the input; `None` when the input
/// ends inside some chunk.
pub open spec fn parse_all_spec(bytes: Seq<u8>, i: int) -> Option<Seq<Chunk>>
    decreases bytes.len() - i,
{
    if i < 0 || i > bytes.len() {
        None
    } else if i == bytes.len() {
        Some(Seq::empty())
    } else {
        match parse_chunk_spec(bytes, i) {
            None => None,
            Some((c, j)) => match parse_all_spec(bytes, j) {
                None => None,
                Some(rest) => Some(seq![c] + rest),
            },
        }
    }
}

/// Canonical chunk shape: concatenating the re-assembled form of every
/// chunk parsed from an accepted byte stream reproduces that stream
/// byte-for-byte.
pub proof fn lemma_assemble_parse_all(bytes: Seq<u8>, i: int)
    requires
        0 <= i <= bytes.len(),
        parse_all_spec(bytes, i) is Some,
    ensures
        assemble_seq_spec(parse_all_spec(bytes, i).unwrap()) == bytes.skip(i),
    decreases bytes.len() - i,
{
    if i == bytes.len() {
        assert(bytes.skip(i) =~= Seq::<u8>::empty());
    } else {
        let (c, j) = parse_chunk_spec(bytes, i).unwrap();
        lemma_assemble_parse(bytes, i);
        let rest = parse_all_spec(bytes, j).unwrap();
        lemma_assemble_parse_all(bytes, j);
        let all = parse_all_spec(bytes, i).unwrap();
        assert(all == seq![c] + rest);
        assert(all[0] == c);
        assert(all.skip(1) =~= rest);
        assert(assemble_seq_spec(all) == assemble_chunk_spec(c) + assemble_seq_spec(rest));
        assert(bytes.skip(i) =~= bytes.subrange(i, j) + bytes.skip(j));
    }
}

// ------------------------------------------------------------------
// Codec state
// ------------------------------------------------------------------

/// The running state shared by the interpreter and the compressor: the
/// previous pixel and the 64-slot seen table.
#[verifier::ext_equal]
pub struct CodecState {
    pub prev: Pix,
    pub seen: Seq<Pix>,
}

/// Both directions start alike: previous pixel `(0,0,0,255)`, seen
/// table all zero.
pub open spec fn init_state() -> CodecState {
    CodecState { prev: init_pix(), seen: Seq::new(64, |k: int| zero_pix()) }
}

/// The state after a pixel `p` was emitted by a non-run step: `p`
/// becomes the previous pixel and takes its seen-table slot.
pub open spec fn step_pixel(st: CodecState, p: Pix) -> CodecState {
    CodecState { prev: p, seen: st.seen.update(hash_spec(p), p) }
}

/// The pixel one chunk decodes to in state `st`.
pub open spec fn chunk_pixel(st: CodecState, c: Chunk) -> Pix {
    match c {
        Chunk::Rgb { r, g, b } => Pix { r, g, b, a: st.prev.a },
        Chunk::Rgba { r, g, b, a } => Pix { r, g, b, a },
        Chunk::Index { loc } => st.seen[loc as int],
        Chunk::Diff { dr, dg, db } => Pix {
            r: byte_add(st.prev.r, dr as int),
            g: byte_add(st.prev.g, dg as int),
            b: byte_add(st.prev.b, db as int),
            a: st.prev.a,
        },
        Chunk::Luma { dg, dr_dg, db_dg } => Pix {
            r: byte_add(st.prev.r, dr_dg + dg),
            g: byte_add(st.prev.g, dg as int),
            b: byte_add(st.prev.b, db_dg + dg),
            a: st.prev.a,
        },
        Chunk::Run { .. } => st.prev,
    }
}

/// Interpret one chunk: the successor state and the emitted pixels.
/// After every emitted pixel the seen table holds it at its hash slot.
pub open spec fn dec_chunk_spec(st: CodecState, c: Chunk) -> (CodecState, Seq<Pix>) {
    let p = chunk_pixel(st, c);
    (
        step_pixel(st, p),
        match c {
            Chunk::Run { length } => Seq::new(length as nat, |k: int| p),
            _ => seq![p],
        },
    )
}

/// `wrapping_add_signed` agrees with the codec's wrap-around byte
/// addition.
pub proof fn lemma_wrapping_is_byte_add(x: u8, d: i8)
    ensures
        vstd::wrapping::u8_specs::wrapping_add_signed(x, d) == byte_add(x, d as int),
{
    if x + d > 255 {
        assert((x + d) % 256 == x + d - 256) by (nonlinear_arith)
            requires
                256 <= x + d < 512,
        ;
    } else if x + d < 0 {
        assert((x + d) % 256 == x + d + 256) by (nonlinear_arith)
            requires
                -256 <= x + d < 0,
        ;
    } else {
        assert((x + d) % 256 == x + d) by (nonlinear_arith)
            requires
                0 <= x + d < 256,
        ;
    }
}

// ------------------------------------------------------------------
// Executable codec state and the interpreter
// ------------------------------------------------------------------

/// Executable codec state: the previous pixel and the 64-entry seen
/// table.
pub struct QoiState {
    pub prev: Pix,
    pub seen: Vec<Pix>,
}

impl View for QoiState {
    type V = CodecState;

    open spec fn view(&self) -> CodecState {
        CodecState { prev: self.prev, seen: self.seen@ }
    }
}

impl QoiState {
    pub open spec fn wf(&self) -> bool {
        self.seen@.len() == 64
    }

    /// The shared initial state of both codec directions.
    pub fn new() -> (s: QoiState)
        ensures
            s.wf(),
            s@ == init_state(),
    {
        let mut seen: Vec<Pix> = Vec::new();
        let mut k: usize = 0;
        while k < 64
            invariant
                k <= 64,
                seen@.len() == k,
                forall|m: int| 0 <= m < k ==> seen@[m] == zero_pix(),
            decreases 64 - k,
        {
            seen.push(Pix { r: 0, g: 0, b: 0, a: 0 });
            k = k + 1;
        }
        let s = QoiState { prev: Pix { r: 0, g: 0, b: 0, a: 255 }, seen };
        assert(s@.seen =~= init_state().seen);
        assert(s@ =~= init_state());
        s
    }
}

/// Apply one chunk to the running state, appending the emitted pixels
/// to `out`.
fn interpret_chunk(st: &mut QoiState, c: Chunk, out: &mut Vec<Pix>)
    requires
        old(st).wf(),
        chunk_wf(c),
    ensures
        final(st).wf(),
        final(st)@ == dec_chunk_spec(old(st)@, c).0,
        final(out)@ == old(out)@ + dec_chunk_spec(old(st)@, c).1,
{
    match c {
        Chunk::Run { length } => {
            let p = st.prev;
            let mut k: u8 = 0;
            while k < length
                invariant
                    k <= length,
                    out@ == old(out)@ + Seq::new(k as nat, |m: int| p),
                decreases length - k,
            {
                out.push(p);
                assert(out@ =~= old(out)@ + Seq::new((k + 1) as nat, |m: int| p));
                k = k + 1;
            }
            let h = hash(p);
            st.seen.set(h, p);
            st.prev = p;
            assert(st@ =~= dec_chunk_spec(old(st)@, c).0);
        },
        _ => {
            let p: Pix = match c {
                Chunk::Rgb { r, g, b } => Pix { r, g, b, a: st.prev.a },
                Chunk::Rgba { r, g, b, a } => Pix { r, g, b, a },
                Chunk::Index { loc } => st.seen[loc as usize],
                Chunk::Diff { dr, dg, db } => {
                    proof {
                        lemma_wrapping_is_byte_add(st.prev.r, dr);
                        lemma_wrapping_is_byte_add(st.prev.g, dg);
                        lemma_wrapping_is_byte_add(st.prev.b, db);
                    }
                    Pix {
                        r: st.prev.r.wrapping_add_signed(dr),
                        g: st.prev.g.wrapping_add_signed(dg),
                        b: st.prev.b.wrapping_add_signed(db),
                        a: st.prev.a,
                    }
                },
                Chunk::Luma { dg, dr_dg, db_dg } => {
                    proof {
                        lemma_wrapping_is_byte_add(st.prev.r, (dr_dg + dg) as i8);
                        lemma_wrapping_is_byte_add(st.prev.g, dg);
                        lemma_wrapping_is_byte_add(st.prev.b, (db_dg + dg) as i8);
                    }
                    Pix {
                        r: st.prev.r.wrapping_add_signed(dr_dg + dg),
                        g: st.prev.g.wrapping_add_signed(dg),
                        b: st.prev.b.wrapping_add_signed(db_dg + dg),
                        a: st.prev.a,
                    }
                },
                Chunk::Run { .. } => st.prev,
            };
            assert(p == chunk_pixel(st@, c));
            out.push(p);
            let h = hash(p);
            st.seen.set(h, p);
            st.prev = p;
            assert(st@ =~= dec_chunk_spec(old(st)@, c).0);
            assert(out@ =~= old(out)@ + dec_chunk_spec(old(st)@, c).1);
        },
    }
}

// ------------------------------------------------------------------
// The compressor
// ------------------------------------------------------------------

/// How many consecutive pixels equal to `p` stand at position `i`,
/// uncapped.
pub open spec fn count_run(pixels: Seq<Pix>, i: int, p: Pix) -> nat
    decreases pixels.len() - i,
{
    if i < 0 || i >= pixels.len() || pixels[i] != p {
        0
    } else {
        1 + count_run(pixels, i + 1, p)
    }
}

/// The length of the run the compressor takes at `i`: capped at 62.
pub open spec fn capped_run(pixels: Seq<Pix>, i: int, p: Pix) -> nat {
    if count_run(pixels, i, p) > 62 {
        62
    } else {
        count_run(pixels, i, p)
    }
}

/// A run covers equal pixels, stays within the sequence, and is maximal:
/// it ends only at the sequence's end or at a differing pixel.
pub proof fn lemma_count_run(pixels: Seq<Pix>, i: int, p: Pix)
    requires
        0 <= i <= pixels.len(),
    ensures
        count_run(pixels, i, p) <= pixels.len() - i,
        forall|k: int| 0 <= k < count_run(pixels, i, p) ==> #[trigger] pixels[i + k] == p,
        i + count_run(pixels, i, p) == pixels.len() || pixels[i + count_run(pixels, i, p)] != p,
    decreases pixels.len() - i,
{
    if i < pixels.len() && pixels[i] == p {
        lemma_count_run(pixels, i + 1, p);
        let n = count_run(pixels, i, p);
        assert(forall|k: int| 1 <= k < n ==> #[trigger] pixels[i + k] == pixels[(i + 1) + (k - 1)]);
    }
}

/// A stretch of equal pixels in front of a stop is exactly a run: if
/// `pixels[start..j]` all equal `p`, the run at `start` is at least
/// `j - start`, and exactly that when a stop stands at `j`.
pub proof fn lemma_count_run_prefix(pixels: Seq<Pix>, start: int, j: int, p: Pix)
    requires
        0 <= start <= j <= pixels.len(),
        forall|k: int| start <= k < j ==> #[trigger] pixels[k] == p,
    ensures
        count_run(pixels, start, p) >= j - start,
        (j == pixels.len() || pixels[j] != p) ==> count_run(pixels, start, p) == j - start,
    decreases j - start,
{
    if start < j {
        assert(pixels[start] == p);
        lemma_count_run_prefix(pixels, start + 1, j, p);
    } else {
        if j == pixels.len() || pixels[j] != p {
            assert(count_run(pixels, start, p) == 0);
        }
    }
}

/// The chunk the compressor chooses for a pixel `p` that differs from
/// the previous pixel: the first of index hit, small diff, luma, rgb,
/// rgba that is legal — the canonical emission order.
pub open spec fn choose_chunk(st: CodecState, p: Pix) -> Chunk {
    if st.seen[hash_spec(p)] == p {
        Chunk::Index { loc: hash_spec(p) as u8 }
    } else {
        let dr = delta(p.r, st.prev.r);
        let dg = delta(p.g, st.prev.g);
        let db = delta(p.b, st.prev.b);
        if p.a == st.prev.a && -2 <= dr <= 1 && -2 <= dg <= 1 && -2 <= db <= 1 {
            Chunk::Diff { dr: dr as i8, dg: dg as i8, db: db as i8 }
        } else if p.a == st.prev.a && -32 <= dg <= 31 && -8 <= dr - dg <= 7 && -8 <= db - dg
            <= 7 {
            Chunk::Luma { dg: dg as i8, dr_dg: (dr - dg) as i8, db_dg: (db - dg) as i8 }
        } else if p.a == st.prev.a {
            Chunk::Rgb { r: p.r, g: p.g, b: p.b }
        } else {
            Chunk::Rgba { r: p.r, g: p.g, b: p.b, a: p.a }
        }
    }
}

/// The chunk stream the compressor emits for `pixels[i..]` from state
/// `st`.  A pixel equal to the previous one opens a greedy run of up to
/// 62; a run updates neither the previous pixel nor the seen table.
pub open spec fn enc_from(pixels: Seq<Pix>, i: int, st: CodecState) -> Seq<Chunk>
    decreases pixels.len() - i,
    via enc_from_decreases
{
    if i < 0 || i >= pixels.len() {
        Seq::empty()
    } else if pixels[i] == st.prev {
        let n = capped_run(pixels, i, st.prev);
        seq![Chunk::Run { length: n as u8 }] + enc_from(pixels, i + n, st)
    } else {
        seq![choose_chunk(st, pixels[i])] + enc_from(pixels, i + 1, step_pixel(st, pixels[i]))
    }
}

#[via_fn]
proof fn enc_from_decreases(pixels: Seq<Pix>, i: int, st: CodecState) {
    if 0 <= i < pixels.len() && pixels[i] == st.prev {
        lemma_count_run(pixels, i, st.prev);
    }
}

/// Compress a pixel sequence into the canonical QOI chunk stream.
pub fn compress(pixels: &Vec<Pix>) -> (r: Vec<Chunk>)
    ensures
        r@ == enc_from(pixels@, 0, init_state()),
{
    let mut st = QoiState::new();
    let mut out: Vec<Chunk> = Vec::new();
    let mut i: usize = 0;
    while i < pixels.len()
        invariant
            i <= pixels@.len(),
            st.wf(),
            out@ + enc_from(pixels@, i as int, st@) == enc_from(pixels@, 0, init_state()),
        decreases pixels@.len() - i,
    {
        let ghost pre_out = out@;
        let ghost pre_st = st@;
        let ghost pre_i = i as int;
        let p = pixels[i];
        if p == st.prev {
            let start = i;
            i = i + 1;
            let mut n: u8 = 1;
            while i < pixels.len() && n < 62 && pixels[i] == p
                invariant
                    start < i <= pixels@.len(),
                    1 <= n <= 62,
                    n == i - start,
                    forall|k: int| start <= k < i ==> #[trigger] pixels@[k] == p,
                decreases pixels@.len() - i,
            {
                n = n + 1;
                i = i + 1;
            }
            proof {
                lemma_count_run_prefix(pixels@, start as int, i as int, p);
                if i == pixels@.len() || pixels@[i as int] != p {
                    assert(count_run(pixels@, start as int, p) == i - start);
                    assert(capped_run(pixels@, start as int, p) == n);
                } else {
                    assert(n == 62);
                    assert(count_run(pixels@, start as int, p) >= 62);
                    assert(capped_run(pixels@, start as int, p) == 62);
                }
            }
            out.push(Chunk::Run { length: n });
            proof {
                assert(enc_from(pixels@, pre_i, pre_st) == seq![Chunk::Run { length: n }]
                    + enc_from(pixels@, pre_i + capped_run(pixels@, pre_i, p), pre_st));
                assert(pre_i + capped_run(pixels@, pre_i, p) == i as int);
                assert(out@ + enc_from(pixels@, i as int, st@) =~= pre_out + enc_from(
                    pixels@,
                    pre_i,
                    pre_st,
                ));
            }
        } else {
            let h = hash(p);
            let c: Chunk = if st.seen[h] == p {
                Chunk::Index { loc: h as u8 }
            } else {
                let (dr, dg, db) = dr_dg_db(p, st.prev);
                if p.a == st.prev.a && -2 <= dr && dr <= 1 && -2 <= dg && dg <= 1 && -2 <= db
                    && db <= 1 {
                    Chunk::Diff { dr: dr as i8, dg: dg as i8, db: db as i8 }
                } else if p.a == st.prev.a && -32 <= dg && dg <= 31 && -8 <= dr - dg && dr - dg
                    <= 7 && -8 <= db - dg && db - dg <= 7 {
                    Chunk::Luma { dg: dg as i8, dr_dg: (dr - dg) as i8, db_dg: (db - dg) as i8 }
                } else if p.a == st.prev.a {
                    Chunk::Rgb { r: p.r, g: p.g, b: p.b }
                } else {
                    Chunk::Rgba { r: p.r, g: p.g, b: p.b, a: p.a }
                }
            };
            assert(c == choose_chunk(st@, p));
            out.push(c);
            st.seen.set(h, p);
            st.prev = p;
            i = i + 1;
            proof {
                assert(st@ =~= step_pixel(pre_st, p));
                assert(enc_from(pixels@, pre_i, pre_st) == seq![c] + enc_from(
                    pixels@,
                    pre_i + 1,
                    step_pixel(pre_st, p),
                ));
                assert(out@ + enc_from(pixels@, i as int, st@) =~= pre_out + enc_from(
                    pixels@,
                    pre_i,
                    pre_st,
                ));
            }
        }
    }
    assert(out@ =~= out@ + enc_from(pixels@, i as int, st@));
    out
}

// ------------------------------------------------------------------
// Flat RGBA bytes and pixel sequences
// ------------------------------------------------------------------

/// The pixels held by flat row-major RGBA bytes.
pub open spec fn px_seq_of(bytes: Seq<u8>) -> Seq<Pix> {
    Seq::new(
        bytes.len() / 4,
        |k: int|
            Pix { r: bytes[4 * k], g: bytes[4 * k + 1], b: bytes[4 * k + 2], a: bytes[4 * k + 3] },
    )
}

/// The flat row-major RGBA bytes of a pixel sequence.
pub open spec fn bytes_of_px(pixels: Seq<Pix>) -> Seq<u8>
    decreases pixels.len(),
{
    if pixels.len() == 0 {
        Seq::empty()
    } else {
        bytes_of_px(pixels.drop_last()) + seq![
            pixels.last().r,
            pixels.last().g,
            pixels.last().b,
            pixels.last().a,
        ]
    }
}

/// Four bytes per pixel.
pub proof fn lemma_bytes_of_px_len(pixels: Seq<Pix>)
    ensures
        bytes_of_px(pixels).len() == 4 * pixels.len(),
    decreases pixels.len(),
{
    if pixels.len() > 0 {
        lemma_bytes_of_px_len(pixels.drop_last());
    }
}

/// Grouping flat RGBA bytes into pixels and flattening them again is
/// the identity.
pub proof fn lemma_px_bytes_round(bytes: Seq<u8>)
    requires
        bytes.len() % 4 == 0,
    ensures
        bytes_of_px(px_seq_of(bytes)) == bytes,
    decreases bytes.len(),
{
    if bytes.len() == 0 {
        assert(px_seq_of(bytes) =~= Seq::<Pix>::empty());
        assert(bytes_of_px(px_seq_of(bytes)) =~= bytes);
    } else {
        let n = bytes.len() as int;
        assert(n >= 4);
        let front = bytes.take(n - 4);
        assert(front.len() % 4 == 0) by (nonlinear_arith)
            requires
                front.len() == n - 4,
                n % 4 == 0,
                n >= 4,
        ;
        assert((n - 4) / 4 == n / 4 - 1) by (nonlinear_arith)
            requires
                n % 4 == 0,
                n >= 4,
        ;
        assert(4 * (n / 4) == n) by (nonlinear_arith)
            requires
                n % 4 == 0,
        ;
        lemma_px_bytes_round(front);
        let px = px_seq_of(bytes);
        assert(px.len() == n / 4);
        assert(px.drop_last() =~= px_seq_of(front));
        assert(px.last() == Pix { r: bytes[n - 4], g: bytes[n - 3], b: bytes[n - 2], a: bytes[n - 1] });
        assert(bytes_of_px(px) == bytes_of_px(px.drop_last()) + seq![
            bytes[n - 4],
            bytes[n - 3],
            bytes[n - 2],
            bytes[n - 1],
        ]);
        assert(bytes_of_px(px) =~= bytes);
    }
}

/// Group flat RGBA bytes into pixels.
pub fn to_pixels(bytes: &[u8]) -> (r: Vec<Pix>)
    requires
        bytes@.len() % 4 == 0,
    ensures
        r@ == px_seq_of(bytes@),
{
    let quarter = bytes.len() / 4;
    proof {
        assert(4 * (bytes@.len() / 4) == bytes@.len()) by (nonlinear_arith)
            requires
                bytes@.len() % 4 == 0,
        ;
    }
    let mut out: Vec<Pix> = Vec::new();
    let mut k: usize = 0;
    while k < quarter
        invariant
            k <= quarter,
            quarter == bytes@.len() / 4,
            bytes@.len() <= usize::MAX,
            4 * quarter == bytes@.len(),
            out@.len() == k,
            forall|m: int| 0 <= m < k ==> out@[m] == px_seq_of(bytes@)[m],
        decreases quarter - k,
    {
        let base = 4 * k;
        out.push(
            Pix { r: bytes[base], g: bytes[base + 1], b: bytes[base + 2], a: bytes[base + 3] },
        );
        k = k + 1;
    }
    assert(out@ =~= px_seq_of(bytes@));
    out
}

/// Flatten pixels back to row-major RGBA bytes.
pub fn pixels_to_bytes(pixels: &Vec<Pix>) -> (r: Vec<u8>)
    ensures
        r@ == bytes_of_px(pixels@),
{
    let mut out: Vec<u8> = Vec::new();
    let mut k: usize = 0;
    while k < pixels.len()
        invariant
            k <= pixels@.len(),
            out@ == bytes_of_px(pixels@.take(k as int)),
        decreases pixels@.len() - k,
    {
        let p = pixels[k];
        out.push(p.r);
        out.push(p.g);
        out.push(p.b);
        out.push(p.a);
        proof {
            let post = pixels@.take(k + 1);
            assert(post.drop_last() =~= pixels@.take(k as int));
            assert(post.last() == pixels@[k as int]);
            assert(out@ =~= bytes_of_px(post));
        }
        k = k + 1;
    }
    assert(pixels@.take(pixels@.len() as int) =~= pixels@);
    out
}

// ------------------------------------------------------------------
// Framing: header, end marker, decode and encode drivers
// ------------------------------------------------------------------

/// The four magic bytes `"qoif"`.
pub open spec fn qoi_magic_spec() -> Seq<u8> {
    seq![113u8, 111u8, 105u8, 102u8]
}

/// The eight-byte end marker.
pub open spec fn end_marker_spec() -> Seq<u8> {
    seq![0u8, 0u8, 0u8, 0u8, 0u8, 0u8, 0u8, 1u8]
}

/// True when the end marker stands at position `j`.
pub open spec fn is_end_marker(bytes: Seq<u8>, j: int) -> bool {
    0 <= j && j + 8 <= bytes.len() && bytes.subrange(j, j + 8) == end_marker_spec()
}

/// Test for the end marker at position `j`.
pub fn marker_at(bytes: &[u8], j: usize) -> (r: bool)
    ensures
        r == is_end_marker(bytes@, j as int),
{
    if j > bytes.len() || bytes.len() - j < 8 {
        return false;
    }
    let r = bytes[j] == 0 && bytes[j + 1] == 0 && bytes[j + 2] == 0 && bytes[j + 3] == 0
        && bytes[j + 4] == 0 && bytes[j + 5] == 0 && bytes[j + 6] == 0 && bytes[j + 7] == 1;
    proof {
        let s = bytes@.subrange(j as int, j + 8);
        assert(s[0] == bytes@[j as int] && s[1] == bytes@[j + 1] && s[2] == bytes@[j + 2] && s[3]
            == bytes@[j + 3] && s[4] == bytes@[j + 4] && s[5] == bytes@[j + 5] && s[6] == bytes@[j
            + 6] && s[7] == bytes@[j + 7]);
        if r {
            assert(s =~= end_marker_spec());
        } else {
            assert(s != end_marker_spec()) by {
                if s == end_marker_spec() {
                    assert(s[0] == 0 && s[1] == 0 && s[2] == 0 && s[3] == 0 && s[4] == 0 && s[5]
                        == 0 && s[6] == 0 && s[7] == 1);
                }
            }
        }
    }
    r
}

/// Decode chunks from position `j` in state `st` until `need` pixels
/// have been produced: the pixels and the position just past the
/// consumed chunks.  The end marker is detected by lookahead before tag
/// dispatch: meeting it early is `TruncatedRaster`; input ending inside
/// a chunk is `TruncatedStream`; a run driving the count past `need` is
/// `OverrunRaster`.
pub open spec fn dec_body_spec(bytes: Seq<u8>, j: int, st: CodecState, need: nat) -> Result<
    (Seq<Pix>, int),
    CodecError,
>
    decreases bytes.len() - j,
{
    if need == 0 {
        Ok((Seq::empty(), j))
    } else if is_end_marker(bytes, j) {
        Err(CodecError::TruncatedRaster)
    } else {
        match parse_chunk_spec(bytes, j) {
            None => Err(CodecError::TruncatedStream),
            Some((c, j2)) => {
                let (st2, px) = dec_chunk_spec(st, c);
                if px.len() > need {
                    Err(CodecError::OverrunRaster)
                } else {
                    match dec_body_spec(bytes, j2, st2, (need - px.len()) as nat) {
                        Ok((rest, j3)) => Ok((px + rest, j3)),
                        Err(e) => Err(e),
                    }
                }
            },
        }
    }
}

/// Every pixel's alpha is 255.
pub open spec fn all_opaque(pixels: Seq<Pix>) -> bool {
    forall|k: int| 0 <= k < pixels.len() ==> pixels[k].a == 255
}

/// The channels header byte: 3 exactly when every pixel is opaque.
pub open spec fn channels_byte(pixels: Seq<Pix>) -> u8 {
    if all_opaque(pixels) {
        3
    } else {
        4
    }
}

/// The full QOI encoding of a raster: header, canonical chunk stream,
/// end marker.  The colorspace byte is written as 1.
pub open spec fn qoi_encode_spec(w: u32, h: u32, pixels: Seq<Pix>) -> Seq<u8> {
    qoi_magic_spec() + be32_spec(w) + be32_spec(h) + seq![channels_byte(pixels), 1u8]
        + assemble_seq_spec(enc_from(pixels, 0, init_state())) + end_marker_spec()
}

/// What decoding a QOI file yields: dimensions and pixels, or the
/// error the driver reports, each exactly on the inputs described.
pub open spec fn qoi_decode_spec(bytes: Seq<u8>) -> Result<(u32, u32, Seq<Pix>), CodecError> {
    if bytes.len() < 14 {
        Err(CodecError::TruncatedStream)
    } else if bytes.subrange(0, 4) != qoi_magic_spec() {
        Err(CodecError::BadMagic)
    } else {
        let w = from_be32_spec(bytes[4], bytes[5], bytes[6], bytes[7]);
        let h = from_be32_spec(bytes[8], bytes[9], bytes[10], bytes[11]);
        let ch = bytes[12];
        let cs = bytes[13];
        if !(ch == 3 || ch == 4) || !(cs == 0 || cs == 1) {
            Err(CodecError::BadHeaderField)
        } else {
            match dec_body_spec(bytes, 14, init_state(), (w as nat) * (h as nat)) {
                Err(e) => Err(e),
                Ok((px, j)) => if is_end_marker(bytes, j) {
                    Ok((w, h, px))
                } else {
                    Err(CodecError::BadEndMarker)
                },
            }
        }
    }
}

/// A decode result with a pixel prefix prepended to its success case.
pub open spec fn dec_prepend(prefix: Seq<Pix>, r: Result<(Seq<Pix>, int), CodecError>) -> Result<
    (Seq<Pix>, int),
    CodecError,
> {
    match r {
        Ok(t) => Ok((prefix + t.0, t.1)),
        Err(e) => Err(e),
    }
}

/// Parse the chunk at position `i`.
pub fn parse_chunk_at(bytes: &[u8], i: usize) -> (r: Option<(Chunk, usize)>)
    ensures
        (match parse_chunk_spec(bytes@, i as int) {
            Some(t) => r matches Some(u) && u.0 == t.0 && u.1 == t.1,
            None => r is None,
        }),
{
    if i >= bytes.len() {
        return None;
    }
    let tag = bytes[i];
    if tag == 0xFE {
        if bytes.len() - i >= 4 {
            Some((Chunk::Rgb { r: bytes[i + 1], g: bytes[i + 2], b: bytes[i + 3] }, i + 4))
        } else {
            None
        }
    } else if tag == 0xFF {
        if bytes.len() - i >= 5 {
            Some(
                (
                    Chunk::Rgba {
                        r: bytes[i + 1],
                        g: bytes[i + 2],
                        b: bytes[i + 3],
                        a: bytes[i + 4],
                    },
                    i + 5,
                ),
            )
        } else {
            None
        }
    } else if tag >> 6 == 0 {
        Some((Chunk::Index { loc: tag }, i + 1))
    } else if tag >> 6 == 1 {
        let x = (tag >> 4) & 3;
        let y = (tag >> 2) & 3;
        let z = tag & 3;
        proof {
            assert((tag >> 4) & 3 <= 3 && (tag >> 2) & 3 <= 3 && tag & 3 <= 3) by (bit_vector);
        }
        Some((Chunk::Diff { dr: x as i8 - 2, dg: y as i8 - 2, db: z as i8 - 2 }, i + 1))
    } else if tag >> 6 == 2 {
        if bytes.len() - i >= 2 {
            let n = bytes[i + 1];
            let u = tag & 0x3F;
            let v = n >> 4;
            let w = n & 0x0F;
            proof {
                assert(tag & 0x3F <= 63 && n >> 4 <= 15 && n & 0x0F <= 15) by (bit_vector);
            }
            Some(
                (Chunk::Luma { dg: u as i8 - 32, dr_dg: v as i8 - 8, db_dg: w as i8 - 8 }, i + 2),
            )
        } else {
            None
        }
    } else {
        let u = tag & 0x3F;
        proof {
            assert(tag & 0x3F <= 63) by (bit_vector);
        }
        Some((Chunk::Run { length: u + 1 }, i + 1))
    }
}

/// Append the on-wire bytes of a well-formed chunk to `out`.
pub fn assemble_chunk_into(c: Chunk, out: &mut Vec<u8>)
    requires
        chunk_wf(c),
    ensures
        final(out)@ == old(out)@ + assemble_chunk_spec(c),
{
    match c {
        Chunk::Rgb { r, g, b } => {
            out.push(0xFE);
            out.push(r);
            out.push(g);
            out.push(b);
        },
        Chunk::Rgba { r, g, b, a } => {
            out.push(0xFF);
            out.push(r);
            out.push(g);
            out.push(b);
            out.push(a);
        },
        Chunk::Index { loc } => {
            out.push(loc & 0x3F);
        },
        Chunk::Diff { dr, dg, db } => {
            out.push(0x40 | (((dr + 2) as u8) << 4) | (((dg + 2) as u8) << 2) | ((db + 2) as u8));
        },
        Chunk::Luma { dg, dr_dg, db_dg } => {
            out.push(0x80 | ((dg + 32) as u8));
            out.push((((dr_dg + 8) as u8) << 4) | ((db_dg + 8) as u8));
        },
        Chunk::Run { length } => {
            out.push(0xC0 | (length - 1));
        },
    }
    assert(out@ =~= old(out)@ + assemble_chunk_spec(c));
}

/// Assembling one more chunk appends its bytes.
pub proof fn lemma_assemble_seq_snoc(chunks: Seq<Chunk>, c: Chunk)
    ensures
        assemble_seq_spec(chunks.push(c)) == assemble_seq_spec(chunks) + assemble_chunk_spec(c),
    decreases chunks.len(),
{
    let s = chunks.push(c);
    assert(assemble_seq_spec(Seq::<Chunk>::empty()) == Seq::<u8>::empty());
    if chunks.len() == 0 {
        assert(s[0] == c);
        assert(s.skip(1) =~= Seq::<Chunk>::empty());
        assert(assemble_seq_spec(s.skip(1)) == Seq::<u8>::empty());
        assert(assemble_seq_spec(chunks.push(c)) =~= assemble_seq_spec(chunks)
            + assemble_chunk_spec(c));
    } else {
        assert(s[0] == chunks[0]);
        assert(s.skip(1) =~= chunks.skip(1).push(c));
        lemma_assemble_seq_snoc(chunks.skip(1), c);
        assert(assemble_seq_spec(chunks.push(c)) =~= assemble_seq_spec(chunks)
            + assemble_chunk_spec(c));
    }
}

/// Assemble a chunk stream into its on-wire bytes.
pub fn assemble(chunks: &Vec<Chunk>) -> (r: Vec<u8>)
    requires
        forall|k: int| 0 <= k < chunks@.len() ==> chunk_wf(#[trigger] chunks@[k]),
    ensures
        r@ == assemble_seq_spec(chunks@),
{
    let mut out: Vec<u8> = Vec::new();
    let mut k: usize = 0;
    assert(out@ =~= assemble_seq_spec(chunks@.take(0)));
    while k < chunks.len()
        invariant
            k <= chunks@.len(),
            forall|m: int| 0 <= m < chunks@.len() ==> chunk_wf(#[trigger] chunks@[m]),
            out@ == assemble_seq_spec(chunks@.take(k as int)),
        decreases chunks@.len() - k,
    {
        assemble_chunk_into(chunks[k], &mut out);
        proof {
            assert(chunks@.take(k + 1) =~= chunks@.take(k as int).push(chunks@[k as int]));
            lemma_assemble_seq_snoc(chunks@.take(k as int), chunks@[k as int]);
        }
        k = k + 1;
    }
    assert(chunks@.take(chunks@.len() as int) =~= chunks@);
    out
}

/// Run the parser and the interpreter over the body until `target`
/// pixels have been produced.
pub fn decode_body(bytes: &[u8], start: usize, target: u64) -> (r: Result<
    (Vec<Pix>, usize),
    CodecError,
>)
    requires
        start <= bytes@.len(),
    ensures
        (match dec_body_spec(bytes@, start as int, init_state(), target as nat) {
            Ok(t) => r matches Ok(u) && u.0@ == t.0 && u.1 == t.1,
            Err(e) => r matches Err(e2) && e2 == e,
        }),
{
    let mut st = QoiState::new();
    let mut out: Vec<Pix> = Vec::new();
    let mut j: usize = start;
    while (out.len() as u64) < target
        invariant
            st.wf(),
            j <= bytes@.len(),
            out@.len() <= target,
            dec_prepend(
                out@,
                dec_body_spec(bytes@, j as int, st@, (target - out@.len()) as nat),
            ) == dec_body_spec(bytes@, start as int, init_state(), target as nat),
        decreases bytes@.len() - j,
    {
        let ghost pre_out = out@;
        let ghost pre_st = st@;
        let ghost pre_j = j as int;
        let ghost need = (target - out@.len()) as nat;
        if marker_at(bytes, j) {
            return Err(CodecError::TruncatedRaster);
        }
        match parse_chunk_at(bytes, j) {
            None => {
                return Err(CodecError::TruncatedStream);
            },
            Some((c, j2)) => {
                proof {
                    lemma_assemble_parse(bytes@, j as int);
                }
                let emit: u64 = match c {
                    Chunk::Run { length } => length as u64,
                    _ => 1,
                };
                assert(emit == dec_chunk_spec(pre_st, c).1.len());
                if emit > target - (out.len() as u64) {
                    return Err(CodecError::OverrunRaster);
                }
                interpret_chunk(&mut st, c, &mut out);
                j = j2;
                proof {
                    let (st2, px) = dec_chunk_spec(pre_st, c);
                    let inner = dec_body_spec(bytes@, j as int, st2, (need - px.len()) as nat);
                    assert(dec_body_spec(bytes@, pre_j, pre_st, need) == dec_prepend(px, inner));
                    match inner {
                        Ok(t) => {
                            assert(pre_out + (px + t.0) =~= (pre_out + px) + t.0);
                        },
                        Err(e) => {},
                    }
                    assert(dec_prepend(
                        out@,
                        dec_body_spec(bytes@, j as int, st@, (target - out@.len()) as nat),
                    ) == dec_body_spec(bytes@, start as int, init_state(), target as nat));
                }
            },
        }
    }
    proof {
        assert(dec_body_spec(bytes@, j as int, st@, (target - out@.len()) as nat) == Ok::<
            (Seq<Pix>, int),
            CodecError,
        >((Seq::empty(), j as int)));
        assert(out@ + Seq::<Pix>::empty() =~= out@);
    }
    Ok((out, j))
}

/// Decode a QOI file into `(width, height, RGBA bytes)`, validating the
/// header and the end marker.
pub fn parse_img(data: &[u8]) -> (r: Result<(u32, u32, Vec<u8>), CodecError>)
    ensures
        (match qoi_decode_spec(data@) {
            Ok(t) => r matches Ok(u) && u.0 == t.0 && u.1 == t.1 && u.2@ == bytes_of_px(t.2),
            Err(e) => r matches Err(e2) && e2 == e,
        }),
{
    if data.len() < 14 {
        return Err(CodecError::TruncatedStream);
    }
    if !(data[0] == 113 && data[1] == 111 && data[2] == 105 && data[3] == 102) {
        proof {
            let s = data@.subrange(0, 4);
            assert(s[0] == data@[0] && s[1] == data@[1] && s[2] == data@[2] && s[3] == data@[3]);
            if s == qoi_magic_spec() {
                assert(s[0] == 113 && s[1] == 111 && s[2] == 105 && s[3] == 102);
            }
        }
        return Err(CodecError::BadMagic);
    }
    proof {
        assert(data@.subrange(0, 4) =~= qoi_magic_spec());
    }
    let w = read_be32(data, 4);
    let h = read_be32(data, 8);
    let ch = data[12];
    let cs = data[13];
    if !(ch == 3 || ch == 4) || !(cs == 0 || cs == 1) {
        return Err(CodecError::BadHeaderField);
    }
    proof {
        assert((w as int) * (h as int) <= 0xFFFF_FFFF * 0xFFFF_FFFF) by (nonlinear_arith)
            requires
                w <= 0xFFFF_FFFFu32,
                h <= 0xFFFF_FFFFu32,
        ;
    }
    let target: u64 = (w as u64) * (h as u64);
    match decode_body(data, 14, target) {
        Err(e) => Err(e),
        Ok((px, j)) => {
            if marker_at(data, j) {
                let flat = pixels_to_bytes(&px);
                Ok((w, h, flat))
            } else {
                Err(CodecError::BadEndMarker)
            }
        },
    }
}

/// Every chunk the compressor emits is well-formed.
pub proof fn lemma_enc_from_wf(pixels: Seq<Pix>, i: int, st: CodecState)
    ensures
        forall|k: int|
            0 <= k < enc_from(pixels, i, st).len() ==> chunk_wf(#[trigger] enc_from(pixels, i, st)[k]),
    decreases pixels.len() - i,
{
    if 0 <= i < pixels.len() {
        if pixels[i] == st.prev {
            let n = capped_run(pixels, i, st.prev);
            lemma_count_run(pixels, i, st.prev);
            assert(1 <= n <= 62);
            lemma_enc_from_wf(pixels, i + n, st);
            assert(forall|k: int|
                1 <= k < enc_from(pixels, i, st).len() ==> enc_from(pixels, i, st)[k] == enc_from(
                    pixels,
                    i + n,
                    st,
                )[k - 1]);
        } else {
            let p = pixels[i];
            assert(0 <= hash_spec(p) < 64);
            assert(chunk_wf(choose_chunk(st, p)));
            lemma_enc_from_wf(pixels, i + 1, step_pixel(st, p));
            assert(forall|k: int|
                1 <= k < enc_from(pixels, i, st).len() ==> enc_from(pixels, i, st)[k] == enc_from(
                    pixels,
                    i + 1,
                    step_pixel(st, p),
                )[k - 1]);
        }
    }
}

/// Encode `(width, height, RGBA bytes)` as a complete QOI file.
pub fn encode_img(width: u32, height: u32, pixels: Vec<u8>) -> (r: Vec<u8>)
    requires
        pixels@.len() == 4 * (width as int) * (height as int),
    ensures
        r@ == qoi_encode_spec(width, height, px_seq_of(pixels@)),
{
    proof {
        let m = (width as int) * (height as int);
        assert(4 * (width as int) * (height as int) == 4 * m) by (nonlinear_arith)
            requires
                m == (width as int) * (height as int),
        ;
        assert((4 * m) % 4 == 0) by (nonlinear_arith);
    }
    let px = to_pixels(pixels.as_slice());
    let mut out: Vec<u8> = Vec::new();
    out.push(113);
    out.push(111);
    out.push(105);
    out.push(102);
    push_be32(&mut out, width);
    push_be32(&mut out, height);
    let mut opaque = true;
    let mut k: usize = 0;
    while k < px.len()
        invariant
            k <= px@.len(),
            opaque == all_opaque(px@.take(k as int)),
        decreases px@.len() - k,
    {
        if px[k].a != 255 {
            opaque = false;
            proof {
                assert(px@.take(k + 1)[k as int].a != 255);
            }
        }
        proof {
            assert(px@.take(k + 1).take(k as int) =~= px@.take(k as int));
            if opaque {
                assert(forall|m: int| 0 <= m < k + 1 ==> (#[trigger] px@.take(k + 1)[m]).a == 255);
            }
        }
        k = k + 1;
    }
    assert(px@.take(px@.len() as int) =~= px@);
    if opaque {
        out.push(3);
    } else {
        out.push(4);
    }
    out.push(1);
    let chunks = compress(&px);
    proof {
        lemma_enc_from_wf(px@, 0, init_state());
    }
    let mut body = assemble(&chunks);
    out.append(&mut body);
    out.push(0);
    out.push(0);
    out.push(0);
    out.push(0);
    out.push(0);
    out.push(0);
    out.push(0);
    out.push(1);
    assert(out@ =~= qoi_encode_spec(width, height, px_seq_of(pixels@)));
    out
}

// ------------------------------------------------------------------
// Laws of the chunk stream
// ------------------------------------------------------------------

/// The length field of a run chunk; 0 for any other chunk.
pub open spec fn run_length(c: Chunk) -> int {
    match c {
        Chunk::Run { length } => length as int,
        _ => 0,
    }
}

/// After a well-formed chunk is interpreted, the seen table holds the
/// new previous pixel at its hash slot, and every pixel the chunk
/// emitted equals that pixel.
pub proof fn lemma_dec_seen(st: CodecState, c: Chunk)
    requires
        st.seen.len() == 64,
        chunk_wf(c),
    ensures
        ({
            let (st2, px) = dec_chunk_spec(st, c);
            &&& st2.seen[hash_spec(st2.prev)] == st2.prev
            &&& forall|k: int| 0 <= k < px.len() ==> px[k] == st2.prev
        }),
{
}

/// A non-run emission records the emitted pixel at its hash slot; a run
/// leaves a recorded previous pixel recorded.
pub proof fn lemma_enc_seen(st: CodecState, p: Pix)
    requires
        st.seen.len() == 64,
    ensures
        step_pixel(st, p).seen[hash_spec(p)] == p,
{
}

/// Diff, Luma and Rgb are chosen only when the pixel's alpha equals the
/// previous pixel's: besides an index hit, only Rgba may change alpha.
pub proof fn lemma_choose_alpha(st: CodecState, p: Pix)
    ensures
        (choose_chunk(st, p) is Diff || choose_chunk(st, p) is Luma || choose_chunk(st, p)
            is Rgb) ==> p.a == st.prev.a,
{
}

/// The compressor's runs are greedy: two adjacent run chunks occur only
/// when the first is full, of length exactly 62.
pub proof fn lemma_enc_greedy(pixels: Seq<Pix>, i: int, st: CodecState)
    ensures
        ({
            let cs = enc_from(pixels, i, st);
            forall|k: int|
                0 <= k && k + 1 < cs.len() && cs[k] is Run && cs[k + 1] is Run ==> run_length(
                    #[trigger] cs[k],
                ) == 62
        }),
    decreases pixels.len() - i,
{
    let cs = enc_from(pixels, i, st);
    if 0 <= i < pixels.len() {
        if pixels[i] == st.prev {
            let n = capped_run(pixels, i, st.prev);
            lemma_count_run(pixels, i, st.prev);
            let rest = enc_from(pixels, i + n, st);
            lemma_enc_greedy(pixels, i + n, st);
            assert(forall|k: int| 1 <= k < cs.len() ==> #[trigger] cs[k] == rest[k - 1]);
            if cs.len() >= 2 && cs[1] is Run {
                assert(rest[0] is Run);
                assert(i + n < pixels.len());
                assert(pixels[i + n] == st.prev);
                if n < 62 {
                    assert(count_run(pixels, i, st.prev) == n);
                    assert(false);
                }
            }
        } else {
            let p = pixels[i];
            let rest = enc_from(pixels, i + 1, step_pixel(st, p));
            lemma_enc_greedy(pixels, i + 1, step_pixel(st, p));
            assert(forall|k: int| 1 <= k < cs.len() ==> #[trigger] cs[k] == rest[k - 1]);
            assert(!(cs[0] is Run));
        }
    }
}

// ------------------------------------------------------------------
// Round trip: decoding an encoded raster restores it
// ------------------------------------------------------------------

/// Encoder-side state sanity: 64 slots, every slot holds a pixel that
/// hashes to it or the untouched zero pixel, and the previous pixel is
/// recorded unless it is still the never-emitted initial pixel.
pub open spec fn enc_inv(st: CodecState) -> bool {
    &&& st.seen.len() == 64
    &&& forall|k: int|
        0 <= k < 64 ==> hash_spec(#[trigger] st.seen[k]) == k || st.seen[k] == zero_pix()
    &&& (st.seen[hash_spec(st.prev)] == st.prev || (st.prev == init_pix() && st.seen[hash_spec(
        init_pix(),
    )] == zero_pix()))
}

/// The simulation relation between the compressor's state and the
/// interpreter's: equal previous pixels, and agreement on every slot
/// whose encoder entry hashes to it — exactly the slots an index hit
/// can refer to.
pub open spec fn st_rel(se: CodecState, sd: CodecState) -> bool {
    &&& sd.seen.len() == 64
    &&& se.prev == sd.prev
    &&& forall|k: int|
        0 <= k < 64 && hash_spec(#[trigger] se.seen[k]) == k ==> sd.seen[k] == se.seen[k]
}

proof fn lemma_hash_corners()
    ensures
        hash_spec(init_pix()) == 53,
        hash_spec(zero_pix()) == 0,
{
}

/// One non-run step of the simulation: the chunk the compressor chooses
/// decodes to the same pixel, and the successor states stay related.
proof fn lemma_sim_nonrun(se: CodecState, sd: CodecState, p: Pix)
    requires
        enc_inv(se),
        st_rel(se, sd),
        p != se.prev,
    ensures
        chunk_wf(choose_chunk(se, p)),
        !(choose_chunk(se, p) is Run),
        chunk_pixel(sd, choose_chunk(se, p)) == p,
        dec_chunk_spec(sd, choose_chunk(se, p)).0 == step_pixel(sd, p),
        dec_chunk_spec(sd, choose_chunk(se, p)).1 == seq![p],
        enc_inv(step_pixel(se, p)),
        st_rel(step_pixel(se, p), step_pixel(sd, p)),
{
    let c = choose_chunk(se, p);
    let h = hash_spec(p);
    assert(0 <= h < 64);
    if se.seen[h] == p {
        assert(c == Chunk::Index { loc: h as u8 });
        assert(hash_spec(se.seen[h]) == h);
        assert(sd.seen[h] == se.seen[h]);
        assert(chunk_pixel(sd, c) == p);
    } else {
        let dr = delta(p.r, se.prev.r);
        let dg = delta(p.g, se.prev.g);
        let db = delta(p.b, se.prev.b);
        lemma_byte_add_delta(p.r, se.prev.r);
        lemma_byte_add_delta(p.g, se.prev.g);
        lemma_byte_add_delta(p.b, se.prev.b);
        if p.a == se.prev.a && -2 <= dr <= 1 && -2 <= dg <= 1 && -2 <= db <= 1 {
            assert(chunk_pixel(sd, c) == p);
        } else if p.a == se.prev.a && -32 <= dg <= 31 && -8 <= dr - dg <= 7 && -8 <= db - dg
            <= 7 {
            assert((dr - dg) as i8 + dg as i8 == dr);
            assert(chunk_pixel(sd, c) == p);
        } else if p.a == se.prev.a {
            assert(chunk_pixel(sd, c) == p);
        } else {
            assert(chunk_pixel(sd, c) == p);
        }
    }
    let se2 = step_pixel(se, p);
    let sd2 = step_pixel(sd, p);
    assert(se2.seen.len() == 64 && sd2.seen.len() == 64);
    assert forall|k: int| 0 <= k < 64 implies hash_spec(#[trigger] se2.seen[k]) == k
        || se2.seen[k] == zero_pix() by {
        if k != h {
            assert(se2.seen[k] == se.seen[k]);
        }
    }
    assert forall|k: int|
        0 <= k < 64 && hash_spec(#[trigger] se2.seen[k]) == k implies sd2.seen[k]
        == se2.seen[k] by {
        if k != h {
            assert(se2.seen[k] == se.seen[k] && sd2.seen[k] == sd.seen[k]);
        }
    }
}

/// One run step of the simulation: the decoder's extra seen-table write
/// of the shared previous pixel preserves the relation.
proof fn lemma_sim_run(se: CodecState, sd: CodecState)
    requires
        enc_inv(se),
        st_rel(se, sd),
    ensures
        enc_inv(se),
        st_rel(se, step_pixel(sd, sd.prev)),
{
    let h = hash_spec(sd.prev);
    assert(0 <= h < 64);
    let sd2 = step_pixel(sd, sd.prev);
    lemma_hash_corners();
    assert forall|k: int|
        0 <= k < 64 && hash_spec(#[trigger] se.seen[k]) == k implies sd2.seen[k]
        == se.seen[k] by {
        if k == h {
            if se.seen[h] == se.prev {
            } else {
                assert(se.prev == init_pix());
                assert(h == 53);
                assert(se.seen[53] == zero_pix());
                assert(hash_spec(se.seen[53]) == 0);
            }
        } else {
            assert(sd2.seen[k] == sd.seen[k]);
        }
    }
}

/// The first on-wire byte of any well-formed chunk other than
/// `Index{0}` is nonzero.
proof fn lemma_first_byte_nonzero(c: Chunk)
    requires
        chunk_wf(c),
        c != (Chunk::Index { loc: 0 }),
    ensures
        assemble_chunk_spec(c)[0] != 0,
{
    match c {
        Chunk::Rgb { .. } => {
        },
        Chunk::Rgba { .. } => {
        },
        Chunk::Index { loc } => {
            assert(loc & 0x3F == loc) by (bit_vector)
                requires
                    loc < 64u8,
            ;
        },
        Chunk::Diff { dr, dg, db } => {
            let x = (dr + 2) as u8;
            let y = (dg + 2) as u8;
            let z = (db + 2) as u8;
            assert((0x40u8 | (x << 4) | (y << 2) | z) != 0) by (bit_vector);
        },
        Chunk::Luma { dg, .. } => {
            let u = (dg + 32) as u8;
            assert((0x80u8 | u) != 0) by (bit_vector);
        },
        Chunk::Run { length } => {
            let u = (length - 1) as u8;
            assert((0xC0u8 | u) != 0) by (bit_vector);
        },
    }
}

/// After an `Index{0}` emission the compressor never emits `Index{0}`
/// again at once: the pixel would equal the new previous pixel and open
/// a run instead.
proof fn lemma_no_adjacent_index0(pixels: Seq<Pix>, i: int, st: CodecState)
    requires
        0 <= i < pixels.len(),
        st.seen.len() == 64,
        pixels[i] != st.prev,
        choose_chunk(st, pixels[i]) == (Chunk::Index { loc: 0 }),
        enc_from(pixels, i + 1, step_pixel(st, pixels[i])).len() > 0,
    ensures
        enc_from(pixels, i + 1, step_pixel(st, pixels[i]))[0] != (Chunk::Index { loc: 0 }),
{
    let p = pixels[i];
    let h = hash_spec(p);
    assert(0 <= h < 64);
    assert(st.seen[h] == p && h == 0);
    let st2 = step_pixel(st, p);
    let rest = enc_from(pixels, i + 1, st2);
    assert(i + 1 < pixels.len());
    if pixels[i + 1] == st2.prev {
        assert(rest[0] is Run);
    } else {
        let q = pixels[i + 1];
        assert(rest[0] == choose_chunk(st2, q));
        if choose_chunk(st2, q) == (Chunk::Index { loc: 0 }) {
            assert(hash_spec(q) == 0 && st2.seen[0] == q);
            assert(st2.seen[0] == p);
            assert(false);
        }
    }
}

/// While pixels remain, the bytes at the head of the remaining encoded
/// body never form the end marker.
proof fn lemma_no_marker(bytes: Seq<u8>, pixels: Seq<Pix>, i: int, j: int, se: CodecState)
    requires
        0 <= i < pixels.len(),
        0 <= j <= bytes.len(),
        enc_inv(se),
        bytes.subrange(j, bytes.len() as int) == assemble_seq_spec(enc_from(pixels, i, se))
            + end_marker_spec(),
    ensures
        !is_end_marker(bytes, j),
{
    let cs = enc_from(pixels, i, se);
    assert(cs.len() > 0);
    let c1 = cs[0];
    lemma_enc_from_wf(pixels, i, se);
    assert(chunk_wf(c1));
    let w1 = assemble_chunk_spec(c1);
    let rest_cs = cs.skip(1);
    assert(assemble_seq_spec(cs) == w1 + assemble_seq_spec(rest_cs));
    let tail = bytes.subrange(j, bytes.len() as int);
    assert(tail.len() == bytes.len() - j);
    assert(w1.len() >= 1);
    assert(bytes[j] == w1[0]) by {
        assert(tail[0] == w1[0]);
        assert(tail[0] == bytes[j]);
    }
    if c1 != (Chunk::Index { loc: 0 }) {
        lemma_first_byte_nonzero(c1);
        if is_end_marker(bytes, j) {
            assert(bytes.subrange(j, j + 8)[0] == bytes[j]);
            assert(bytes[j] == 0);
        }
    } else {
        // The head byte is 0; refute the marker via the second byte or
        // the marker's own shape.
        assert(bytes[j] == 0) by {
            assert(w1[0] == 0u8 & 0x3F);
            assert(0u8 & 0x3F == 0) by (bit_vector);
        }
        // c1 is an index emission, so this step was a non-run step.
        assert(pixels[i] != se.prev && choose_chunk(se, pixels[i]) == c1) by {
            if pixels[i] == se.prev {
                assert(cs[0] is Run);
                lemma_count_run(pixels, i, se.prev);
            }
        }
        if rest_cs.len() == 0 {
            // Only the marker follows the single zero byte.
            assert(tail =~= w1 + end_marker_spec());
            assert(tail.len() == 9);
            if is_end_marker(bytes, j) {
                assert(bytes.subrange(j, j + 8)[7] == bytes[j + 7]);
                assert(tail[7] == bytes[j + 7]);
                assert(tail[7] == end_marker_spec()[6]);
                assert(end_marker_spec()[7] == 1u8);
            }
        } else {
            assert(enc_from(pixels, i + 1, step_pixel(se, pixels[i])) =~= rest_cs);
            lemma_no_adjacent_index0(pixels, i, se);
            let c2 = rest_cs[0];
            assert(c2 != (Chunk::Index { loc: 0 }));
            assert(chunk_wf(c2)) by {
                assert(rest_cs[0] == cs[1]);
            }
            lemma_first_byte_nonzero(c2);
            let w2 = assemble_chunk_spec(c2);
            assert(assemble_seq_spec(rest_cs) == w2 + assemble_seq_spec(rest_cs.skip(1)));
            assert(w1.len() == 1);
            assert(bytes[j + 1] == w2[0]) by {
                assert(tail[1] == (w1 + (w2 + assemble_seq_spec(rest_cs.skip(1))
                    + end_marker_spec()))[1]);
                assert(tail =~= w1 + w2 + assemble_seq_spec(rest_cs.skip(1)) + end_marker_spec());
                assert(tail[1] == w2[0]);
                assert(tail[1] == bytes[j + 1]);
            }
            if is_end_marker(bytes, j) {
                assert(bytes.subrange(j, j + 8)[1] == bytes[j + 1]);
                assert(bytes[j + 1] == 0);
            }
        }
    }
}

/// The heart of the round trip: decoding the assembled compressor
/// output from related states yields exactly the remaining pixels and
/// stops at the end marker.
proof fn lemma_body_round_trip(
    bytes: Seq<u8>,
    pixels: Seq<Pix>,
    i: int,
    j: int,
    se: CodecState,
    sd: CodecState,
)
    requires
        0 <= i <= pixels.len(),
        0 <= j <= bytes.len(),
        enc_inv(se),
        st_rel(se, sd),
        bytes.subrange(j, bytes.len() as int) == assemble_seq_spec(enc_from(pixels, i, se))
            + end_marker_spec(),
    ensures
        dec_body_spec(bytes, j, sd, (pixels.len() - i) as nat) == Ok::<(Seq<Pix>, int), CodecError>(
            (pixels.skip(i), bytes.len() - 8),
        ),
    decreases pixels.len() - i,
{
    let cs = enc_from(pixels, i, se);
    let tail = bytes.subrange(j, bytes.len() as int);
    if i == pixels.len() {
        assert(cs =~= Seq::<Chunk>::empty());
        assert(assemble_seq_spec(cs) == Seq::<u8>::empty());
        assert(tail =~= end_marker_spec());
        assert(bytes.len() - j == 8);
        assert(pixels.skip(i) =~= Seq::<Pix>::empty());
        assert(dec_body_spec(bytes, j, sd, 0) == Ok::<(Seq<Pix>, int), CodecError>(
            (Seq::empty(), j),
        ));
    } else {
        let need = (pixels.len() - i) as nat;
        assert(need > 0);
        lemma_no_marker(bytes, pixels, i, j, se);
        let c1 = cs[0];
        lemma_enc_from_wf(pixels, i, se);
        assert(chunk_wf(c1));
        let w1 = assemble_chunk_spec(c1);
        let rest_cs = cs.skip(1);
        assert(assemble_seq_spec(cs) == w1 + assemble_seq_spec(rest_cs));
        let j2 = j + w1.len() as int;
        assert(j2 <= bytes.len()) by {
            assert(tail.len() == w1.len() + assemble_seq_spec(rest_cs).len()
                + end_marker_spec().len());
        }
        assert(bytes.subrange(j, j2) =~= w1) by {
            assert(forall|k: int|
                0 <= k < w1.len() ==> tail[k] == #[trigger] (w1 + assemble_seq_spec(rest_cs)
                    + end_marker_spec())[k]);
            assert(tail =~= w1 + assemble_seq_spec(rest_cs) + end_marker_spec());
            assert(forall|k: int| 0 <= k < w1.len() ==> #[trigger] w1[k] == tail[k]);
            assert(forall|k: int|
                0 <= k < w1.len() ==> #[trigger] bytes.subrange(j, j2)[k] == bytes[j + k]
                    && tail[k] == bytes[j + k]);
        }
        lemma_parse_assemble_at(bytes, j, c1);
        assert(parse_chunk_spec(bytes, j) == Some((c1, j2)));
        assert(bytes.subrange(j2, bytes.len() as int) =~= assemble_seq_spec(rest_cs)
            + end_marker_spec()) by {
            assert(tail =~= w1 + (assemble_seq_spec(rest_cs) + end_marker_spec()));
            assert(forall|k: int|
                0 <= k < tail.len() - w1.len() ==> #[trigger] bytes.subrange(
                    j2,
                    bytes.len() as int,
                )[k] == bytes[j2 + k] && tail[w1.len() + k] == bytes[j2 + k]);
        }
        if pixels[i] == se.prev {
            let n = capped_run(pixels, i, se.prev) as int;
            lemma_count_run(pixels, i, se.prev);
            assert(1 <= n <= 62);
            assert(i + n <= pixels.len());
            assert(c1 == Chunk::Run { length: n as u8 });
            assert(rest_cs =~= enc_from(pixels, i + n, se));
            let (st2, px) = dec_chunk_spec(sd, c1);
            assert(px.len() == n);
            assert(px.len() <= need);
            lemma_sim_run(se, sd);
            assert(st_rel(se, st2));
            lemma_body_round_trip(bytes, pixels, i + n, j2, se, st2);
            assert(px =~= pixels.subrange(i, i + n)) by {
                assert(forall|k: int| 0 <= k < n ==> #[trigger] pixels[i + k] == se.prev);
                assert(forall|k: int|
                    0 <= k < n ==> #[trigger] pixels.subrange(i, i + n)[k] == pixels[i + k]);
            }
            assert(px + pixels.skip(i + n) =~= pixels.skip(i));
            assert(dec_body_spec(bytes, j, sd, need) == Ok::<(Seq<Pix>, int), CodecError>(
                (pixels.skip(i), bytes.len() - 8),
            ));
        } else {
            let p = pixels[i];
            lemma_sim_nonrun(se, sd, p);
            assert(c1 == choose_chunk(se, p));
            assert(rest_cs =~= enc_from(pixels, i + 1, step_pixel(se, p)));
            let (st2, px) = dec_chunk_spec(sd, c1);
            assert(st2 == step_pixel(sd, p));
            assert(px == seq![p]);
            assert(px.len() == 1 <= need);
            lemma_body_round_trip(bytes, pixels, i + 1, j2, step_pixel(se, p), step_pixel(sd, p));
            assert(px + pixels.skip(i + 1) =~= pixels.skip(i));
            assert(dec_body_spec(bytes, j, sd, need) == Ok::<(Seq<Pix>, int), CodecError>(
                (pixels.skip(i), bytes.len() - 8),
            ));
        }
    }
}

/// Round trip at the pixel level: decoding the encoding of any raster
/// yields exactly its dimensions and pixels.
pub proof fn lemma_qoi_round_trip(w: u32, h: u32, pixels: Seq<Pix>)
    requires
        pixels.len() == (w as int) * (h as int),
    ensures
        qoi_decode_spec(qoi_encode_spec(w, h, pixels)) == Ok::<(u32, u32, Seq<Pix>), CodecError>(
            (w, h, pixels),
        ),
{
    let bytes = qoi_encode_spec(w, h, pixels);
    let body = assemble_seq_spec(enc_from(pixels, 0, init_state()));
    let header = qoi_magic_spec() + be32_spec(w) + be32_spec(h) + seq![
        channels_byte(pixels),
        1u8,
    ];
    assert(header.len() == 14);
    assert(bytes =~= header + body + end_marker_spec());
    assert(bytes.len() == 14 + body.len() + 8);
    assert(forall|k: int| 0 <= k < 14 ==> bytes[k] == #[trigger] header[k]);
    assert(bytes.subrange(0, 4) =~= qoi_magic_spec());
    crate::util::lemma_be32_round_trip(w);
    crate::util::lemma_be32_round_trip(h);
    assert(bytes[4] == be32_spec(w)[0] && bytes[5] == be32_spec(w)[1] && bytes[6] == be32_spec(
        w,
    )[2] && bytes[7] == be32_spec(w)[3]);
    assert(from_be32_spec(bytes[4], bytes[5], bytes[6], bytes[7]) == w);
    assert(from_be32_spec(bytes[8], bytes[9], bytes[10], bytes[11]) == h);
    assert(bytes[12] == channels_byte(pixels) && bytes[13] == 1u8);
    assert(bytes[12] == 3 || bytes[12] == 4);
    let se0 = init_state();
    lemma_hash_corners();
    assert(enc_inv(se0)) by {
        assert(forall|k: int| 0 <= k < 64 ==> #[trigger] se0.seen[k] == zero_pix());
        assert(hash_spec(se0.seen[hash_spec(init_pix())]) == 0);
        assert(se0.seen[53] == zero_pix());
    }
    assert(st_rel(se0, se0));
    assert(bytes.subrange(14, bytes.len() as int) =~= body + end_marker_spec()) by {
        assert(forall|k: int|
            0 <= k < bytes.len() - 14 ==> #[trigger] bytes.subrange(14, bytes.len() as int)[k]
                == bytes[14 + k]);
        assert(forall|k: int|
            0 <= k < bytes.len() - 14 ==> #[trigger] (body + end_marker_spec())[k] == (header + body
                + end_marker_spec())[14 + k]);
    }
    lemma_body_round_trip(bytes, pixels, 0, 14, se0, se0);
    assert(dec_body_spec(bytes, 14, se0, (w as nat) * (h as nat)) == Ok::<
        (Seq<Pix>, int),
        CodecError,
    >((pixels.skip(0), bytes.len() - 8))) by {
        assert((w as nat) * (h as nat) == pixels.len());
    }
    assert(pixels.skip(0) =~= pixels);
    assert(is_end_marker(bytes, bytes.len() - 8)) by {
        assert(bytes.subrange(bytes.len() - 8, bytes.len() as int) =~= end_marker_spec());
    }
}

/// Round trip at the byte level: re-decoding reproduces the raster's
/// RGBA bytes exactly.
pub proof fn lemma_qoi_round_trip_bytes(w: u32, h: u32, rgba: Seq<u8>)
    requires
        rgba.len() == 4 * (w as int) * (h as int),
    ensures
        ({
            let r = qoi_decode_spec(qoi_encode_spec(w, h, px_seq_of(rgba)));
            &&& r matches Ok(t)
            &&& t.0 == w
            &&& t.1 == h
            &&& bytes_of_px(t.2) == rgba
        }),
{
    let m = (w as int) * (h as int);
    assert(4 * (w as int) * (h as int) == 4 * m) by (nonlinear_arith)
        requires
            m == (w as int) * (h as int),
    ;
    assert((4 * m) / 4 == m && (4 * m) % 4 == 0) by (nonlinear_arith);
    assert(px_seq_of(rgba).len() == m);
    lemma_qoi_round_trip(w, h, px_seq_of(rgba));
    lemma_px_bytes_round(rgba);
}

/// The encoder writes channels 3 exactly when every pixel is opaque.
pub proof fn lemma_encode_channels(w: u32, h: u32, pixels: Seq<Pix>)
    ensures
        qoi_encode_spec(w, h, pixels)[12] == 3 <==> all_opaque(pixels),
{
    let header = qoi_magic_spec() + be32_spec(w) + be32_spec(h) + seq![
        channels_byte(pixels),
        1u8,
    ];
    assert(header.len() == 14);
    assert(header[12] == channels_byte(pixels));
    assert(qoi_encode_spec(w, h, pixels)[12] == header[12]);
}

/// A successful body decode produces exactly the requested number of
/// pixels.
pub proof fn lemma_dec_body_len(bytes: Seq<u8>, j: int, st: CodecState, need: nat)
    ensures
        (match dec_body_spec(bytes, j, st, need) {
            Ok(t) => t.0.len() == need,
            Err(_) => true,
        }),
    decreases bytes.len() - j,
{
    if need != 0 && !is_end_marker(bytes, j) {
        match parse_chunk_spec(bytes, j) {
            None => {},
            Some((c, j2)) => {
                let (st2, px) = dec_chunk_spec(st, c);
                if px.len() <= need {
                    lemma_dec_body_len(bytes, j2, st2, (need - px.len()) as nat);
                }
            },
        }
    }
}

/// A successfully decoded raster holds exactly `width * height` pixels.
pub proof fn lemma_decode_dimensions(bytes: Seq<u8>)
    ensures
        (match qoi_decode_spec(bytes) {
            Ok(t) => t.2.len() == (t.0 as int) * (t.1 as int),
            Err(_) => true,
        }),
{
    if bytes.len() >= 14 && bytes.subrange(0, 4) == qoi_magic_spec() {
        let w = from_be32_spec(bytes[4], bytes[5], bytes[6], bytes[7]);
        let h = from_be32_spec(bytes[8], bytes[9], bytes[10], bytes[11]);
        lemma_dec_body_len(bytes, 14, init_state(), (w as nat) * (h as nat));
    }
}

} // verus!
