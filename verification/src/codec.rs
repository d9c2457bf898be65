use vstd::prelude::*;

verus! {

use crate::canvas::Pixel;
use crate::canvas::Board;
use crate::history::History;
use crate::BOARD_HEIGHT;
use crate::BOARD_WIDTH;

// The checkpoint format: little-endian fixed-width integers and
// length-prefixed sequences, no padding. A history is the count of its
// boards, each board in turn (row count, then each row as pixel count and
// that many color/owner pairs, then the observed height), and finally the
// scan cursor.

/// The value of the four bytes at `i`, read little-endian.
pub open spec fn le4_at(b: Seq<u8>, i: int) -> int {
    b[i] + 0x100 * b[i + 1] + 0x10000 * b[i + 2] + 0x1000000 * b[i + 3]
}

/// The value of the eight bytes at `i`, read little-endian.
pub open spec fn le8_at(b: Seq<u8>, i: int) -> int {
    le4_at(b, i) + 0x1_0000_0000 * le4_at(b, i + 4)
}

/// A 32-bit integer as four little-endian bytes.
pub open spec fn enc_u32(x: u32) -> Seq<u8> {
    seq![
        (x % 0x100) as u8,
        ((x / 0x100) % 0x100) as u8,
        ((x / 0x10000) % 0x100) as u8,
        ((x / 0x1000000) % 0x100) as u8,
    ]
}

/// A 64-bit integer as eight little-endian bytes.
pub open spec fn enc_u64(x: u64) -> Seq<u8> {
    enc_u32((x % 0x1_0000_0000) as u32) + enc_u32((x / 0x1_0000_0000) as u32)
}

/// Four little-endian bytes read back as the value they were made from.
proof fn lemma_le4_of_enc(x: u32)
    ensures
        le4_at(enc_u32(x), 0) == x,
{
    vstd::arithmetic::div_mod::lemma_fundamental_div_mod(x as int, 0x100);
    vstd::arithmetic::div_mod::lemma_fundamental_div_mod(x as int / 0x100, 0x100);
    vstd::arithmetic::div_mod::lemma_fundamental_div_mod(x as int / 0x10000, 0x100);
    assert(x as int / 0x100 / 0x100 == x as int / 0x10000) by {
        vstd::arithmetic::div_mod::lemma_div_denominator(x as int, 0x100, 0x100);
    }
    assert(x as int / 0x10000 / 0x100 == x as int / 0x1000000) by {
        vstd::arithmetic::div_mod::lemma_div_denominator(x as int, 0x10000, 0x100);
    }
    assert(x as int / 0x1000000 < 0x100);
    assert(x as int / 0x1000000 % 0x100 == x as int / 0x1000000) by {
        vstd::arithmetic::div_mod::lemma_small_mod((x as int / 0x1000000) as nat, 0x100);
    }
}

/// Two value sequences with equal concatenations and equally long heads are
/// equal piecewise.
proof fn lemma_concat_split<T>(a1: Seq<T>, b1: Seq<T>, a2: Seq<T>, b2: Seq<T>)
    requires
        a1 + b1 == a2 + b2,
        a1.len() == a2.len(),
    ensures
        a1 == a2,
        b1 == b2,
{
    assert((a1 + b1).len() == a1.len() + b1.len());
    assert((a2 + b2).len() == a2.len() + b2.len());
    assert(b1.len() == b2.len());
    assert(a1 =~= a2) by {
        assert(forall|i: int| 0 <= i < a1.len() ==> (a1 + b1)[i] == #[trigger] a1[i]);
        assert(forall|i: int| 0 <= i < a2.len() ==> (a2 + b2)[i] == #[trigger] a2[i]);
    }
    assert(b1 =~= b2) by {
        assert(forall|i: int|
            0 <= i < b1.len() ==> (a1 + b1)[a1.len() + i] == #[trigger] b1[i]);
        assert(forall|i: int|
            0 <= i < b2.len() ==> (a2 + b2)[a2.len() + i] == #[trigger] b2[i]);
    }
}

/// The four bytes at `i` re-encode to themselves.
proof fn lemma_le4_inverse(b: Seq<u8>, i: int)
    requires
        0 <= i,
        i + 4 <= b.len(),
    ensures
        0 <= le4_at(b, i) < 0x1_0000_0000,
        enc_u32(le4_at(b, i) as u32) == b.subrange(i, i + 4),
{
    let b0 = b[i] as int;
    let b1 = b[i + 1] as int;
    let b2 = b[i + 2] as int;
    let b3 = b[i + 3] as int;
    let x = le4_at(b, i);
    assert(x == b0 + 0x100 * (b1 + 0x100 * (b2 + 0x100 * b3)));
    vstd::arithmetic::div_mod::lemma_fundamental_div_mod_converse(
        x,
        0x100,
        b1 + 0x100 * (b2 + 0x100 * b3),
        b0,
    );
    vstd::arithmetic::div_mod::lemma_fundamental_div_mod_converse(
        b1 + 0x100 * (b2 + 0x100 * b3),
        0x100,
        b2 + 0x100 * b3,
        b1,
    );
    vstd::arithmetic::div_mod::lemma_fundamental_div_mod_converse(b2 + 0x100 * b3, 0x100, b3, b2);
    assert(x / 0x100 / 0x100 == x / 0x10000) by {
        vstd::arithmetic::div_mod::lemma_div_denominator(x, 0x100, 0x100);
    }
    assert(x / 0x10000 / 0x100 == x / 0x1000000) by {
        vstd::arithmetic::div_mod::lemma_div_denominator(x, 0x10000, 0x100);
    }
    vstd::arithmetic::div_mod::lemma_small_mod(b3 as nat, 0x100);
    assert(enc_u32(x as u32) =~= b.subrange(i, i + 4));
}

/// Appends the four little-endian bytes of `x`.
fn push_u32(out: &mut Vec<u8>, x: u32)
    ensures
        final(out)@ == old(out)@ + enc_u32(x),
{
    out.push((x % 0x100) as u8);
    out.push((x / 0x100 % 0x100) as u8);
    out.push((x / 0x10000 % 0x100) as u8);
    out.push((x / 0x1000000 % 0x100) as u8);
    assert(out@ =~= old(out)@ + enc_u32(x));
}

/// Appends the eight little-endian bytes of `x`.
fn push_u64(out: &mut Vec<u8>, x: u64)
    ensures
        final(out)@ == old(out)@ + enc_u64(x),
{
    push_u32(out, (x % 0x1_0000_0000) as u32);
    push_u32(out, (x / 0x1_0000_0000) as u32);
    assert(out@ =~= old(out)@ + enc_u64(x));
}

/// Reads the u32 at `pos`; fails exactly where fewer than four bytes remain.
fn read_u32(bytes: &Vec<u8>, pos: usize) -> (r: Option<(u32, usize)>)
    ensures
        r is Some <==> pos + 4 <= bytes@.len(),
        r matches Some((x, p2)) ==> {
            &&& p2 == pos + 4
            &&& x == le4_at(bytes@, pos as int)
            &&& enc_u32(x) == bytes@.subrange(pos as int, pos as int + 4)
        },
{
    if bytes.len() < 4 || pos > bytes.len() - 4 {
        return None;
    }
    let b0 = bytes[pos];
    let b1 = bytes[pos + 1];
    let b2 = bytes[pos + 2];
    let b3 = bytes[pos + 3];
    let x = b0 as u32 + 0x100 * (b1 as u32) + 0x10000 * (b2 as u32) + 0x1000000 * (b3 as u32);
    proof {
        lemma_le4_inverse(bytes@, pos as int);
    }
    Some((x, pos + 4))
}

/// Reads the u64 at `pos`; fails exactly where fewer than eight bytes remain.
pub(crate) fn read_u64_at(bytes: &Vec<u8>, pos: usize) -> (r: Option<(u64, usize)>)
    ensures
        r is Some <==> pos + 8 <= bytes@.len(),
        r matches Some((x, p2)) ==> {
            &&& p2 == pos + 8
            &&& x == le8_at(bytes@, pos as int)
            &&& enc_u64(x) == bytes@.subrange(pos as int, pos as int + 8)
        },
{
    let (lo, mid) = match read_u32(bytes, pos) {
        Some(v) => v,
        None => {
            return None;
        },
    };
    let (hi, p2) = match read_u32(bytes, mid) {
        Some(v) => v,
        None => {
            return None;
        },
    };
    let x = lo as u64 + 0x1_0000_0000u64 * (hi as u64);
    proof {
        vstd::arithmetic::div_mod::lemma_fundamental_div_mod_converse(
            x as int,
            0x1_0000_0000,
            hi as int,
            lo as int,
        );
        assert(enc_u64(x) =~= bytes@.subrange(pos as int, pos as int + 8));
    }
    Some((x, p2))
}

/// The pixel whose eight little-endian bytes sit at `i`.
pub open spec fn spec_pixel_at(b: Seq<u8>, i: int) -> Pixel {
    Pixel { color: le4_at(b, i) as u32, owner_id: le4_at(b, i + 4) as u32 }
}

/// A pixel as its color bytes followed by its owner bytes.
pub open spec fn enc_pixel(p: Pixel) -> Seq<u8> {
    enc_u32(p.color) + enc_u32(p.owner_id)
}

/// The pixels of one row, back to back.
pub open spec fn enc_pixels(r: Seq<Pixel>) -> Seq<u8>
    decreases r.len(),
{
    if r.len() == 0 {
        Seq::empty()
    } else {
        enc_pixels(r.drop_last()) + enc_pixel(r.last())
    }
}

/// One row: its pixel count, then its pixels.
pub open spec fn enc_row(r: Seq<Pixel>) -> Seq<u8> {
    enc_u32(r.len() as u32) + enc_pixels(r)
}

/// The rows of one grid, back to back.
pub open spec fn enc_rows(g: Seq<Seq<Pixel>>) -> Seq<u8>
    decreases g.len(),
{
    if g.len() == 0 {
        Seq::empty()
    } else {
        enc_rows(g.drop_last()) + enc_row(g.last())
    }
}

/// One board: its row count, its rows, then the height it was observed at.
pub open spec fn enc_board(b: Board) -> Seq<u8> {
    enc_u32(b.grid().len() as u32) + enc_rows(b.grid()) + enc_u64(b.block_height)
}

/// The boards of a history, back to back.
pub open spec fn enc_boards(bs: Seq<Board>) -> Seq<u8>
    decreases bs.len(),
{
    if bs.len() == 0 {
        Seq::empty()
    } else {
        enc_boards(bs.drop_last()) + enc_board(bs.last())
    }
}

/// A whole history: its board count, its boards, then the scan cursor.
pub open spec fn enc_history(h: History) -> Seq<u8> {
    enc_u32(h.boards@.len() as u32) + enc_boards(h.boards@) + enc_u64(h.last_fetched_block)
}

/// How many bytes one full-dimension board encodes to.
pub open spec fn board_enc_len() -> int {
    4 + (4 + 8 * BOARD_WIDTH) * BOARD_HEIGHT + 8
}

/// A history the checkpoint format can represent: boards of full canvas
/// dimensions, and a count that fits the format's 32-bit field.
pub open spec fn spec_encodable(h: History) -> bool {
    &&& h.boards@.len() <= 0xFFFF_FFFF
    &&& forall|k: int| 0 <= k < h.boards@.len() ==> (#[trigger] h.boards@[k]).wf_dims()
}

/// Reads the pixel at `pos`; fails exactly where fewer than eight bytes remain.
fn read_pixel(bytes: &Vec<u8>, pos: usize) -> (r: Option<(Pixel, usize)>)
    ensures
        r is Some <==> pos + 8 <= bytes@.len(),
        r matches Some((p, p2)) ==> {
            &&& p2 == pos + 8
            &&& p == spec_pixel_at(bytes@, pos as int)
            &&& enc_pixel(p) == bytes@.subrange(pos as int, pos as int + 8)
        },
{
    let (color, mid) = match read_u32(bytes, pos) {
        Some(v) => v,
        None => {
            return None;
        },
    };
    let (owner_id, p2) = match read_u32(bytes, mid) {
        Some(v) => v,
        None => {
            return None;
        },
    };
    let p = Pixel { color, owner_id };
    proof {
        assert(enc_pixel(p) =~= bytes@.subrange(pos as int, pos as int + 8));
    }
    Some((p, p2))
}

/// Reads one full row at `pos`: its count must be exactly the canvas width
/// and all its pixels must be present.
fn read_row(bytes: &Vec<u8>, pos: usize) -> (r: Option<(Vec<Pixel>, usize)>)
    ensures
        r is Some <==> (pos + 4 <= bytes@.len() && le4_at(bytes@, pos as int) == BOARD_WIDTH && pos
            + 4 + 8 * BOARD_WIDTH <= bytes@.len()),
        r matches Some((row, p2)) ==> {
            &&& row@.len() == BOARD_WIDTH
            &&& p2 == pos + 4 + 8 * BOARD_WIDTH
            &&& forall|j: int|
                0 <= j < BOARD_WIDTH ==> row@[j] == spec_pixel_at(
                    bytes@,
                    pos + 4 + 8 * j,
                )
            &&& enc_row(row@) == bytes@.subrange(pos as int, pos + 4 + 8 * BOARD_WIDTH)
        },
{
    let (n, start) = match read_u32(bytes, pos) {
        Some(v) => v,
        None => {
            return None;
        },
    };
    if n != BOARD_WIDTH {
        return None;
    }
    if bytes.len() < 400 || start > bytes.len() - 400 {
        return None;
    }
    let mut row: Vec<Pixel> = Vec::new();
    let mut cur = start;
    let mut j: u32 = 0;
    while j < BOARD_WIDTH
        invariant
            0 <= j <= BOARD_WIDTH,
            start == pos + 4,
            start + 400 <= bytes@.len(),
            cur == start + 8 * j,
            row@.len() == j,
            forall|jj: int|
                0 <= jj < j ==> row@[jj] == spec_pixel_at(bytes@, start + 8 * jj),
            enc_pixels(row@) == bytes@.subrange(start as int, cur as int),
        decreases BOARD_WIDTH - j,
    {
        let (p, c2) = match read_pixel(bytes, cur) {
            Some(v) => v,
            None => {
                return None;
            },
        };
        proof {
            let prev = row@;
            assert(prev.push(p).drop_last() =~= prev);
            assert(bytes@.subrange(start as int, c2 as int) =~= bytes@.subrange(
                start as int,
                cur as int,
            ) + bytes@.subrange(cur as int, c2 as int));
        }
        row.push(p);
        cur = c2;
        j = j + 1;
    }
    proof {
        assert(row@.len() as u32 == n);
        assert(enc_row(row@) =~= bytes@.subrange(pos as int, pos + 4 + 8 * BOARD_WIDTH));
    }
    Some((row, cur))
}

/// Decodes one whole buffer as one row, as the row values of a state query
/// response are encoded: the buffer must hold exactly one full row.
pub fn decode_row_vec(bytes: &Vec<u8>) -> (r: Option<Vec<Pixel>>)
    ensures
        r is Some <==> (bytes@.len() == 4 + 8 * BOARD_WIDTH && le4_at(bytes@, 0) == BOARD_WIDTH),
        r matches Some(row) ==> {
            &&& row@.len() == BOARD_WIDTH
            &&& forall|j: int|
                0 <= j < BOARD_WIDTH ==> row@[j] == spec_pixel_at(bytes@, 4 + 8 * j)
            &&& enc_row(row@) == bytes@
        },
{
    match read_row(bytes, 0) {
        Some((row, p2)) => {
            if p2 == bytes.len() {
                proof {
                    assert(bytes@.subrange(0, bytes@.len() as int) =~= bytes@);
                }
                Some(row)
            } else {
                None
            }
        },
        None => None,
    }
}

/// No two 32-bit values share an encoding.
proof fn lemma_enc_u32_injective(x1: u32, x2: u32)
    requires
        enc_u32(x1) == enc_u32(x2),
    ensures
        x1 == x2,
{
    lemma_le4_of_enc(x1);
    lemma_le4_of_enc(x2);
}

/// No two 64-bit values share an encoding.
proof fn lemma_enc_u64_injective(x1: u64, x2: u64)
    requires
        enc_u64(x1) == enc_u64(x2),
    ensures
        x1 == x2,
{
    lemma_concat_split(
        enc_u32((x1 % 0x1_0000_0000) as u32),
        enc_u32((x1 / 0x1_0000_0000) as u32),
        enc_u32((x2 % 0x1_0000_0000) as u32),
        enc_u32((x2 / 0x1_0000_0000) as u32),
    );
    lemma_enc_u32_injective((x1 % 0x1_0000_0000) as u32, (x2 % 0x1_0000_0000) as u32);
    lemma_enc_u32_injective((x1 / 0x1_0000_0000) as u32, (x2 / 0x1_0000_0000) as u32);
    vstd::arithmetic::div_mod::lemma_fundamental_div_mod(x1 as int, 0x1_0000_0000);
    vstd::arithmetic::div_mod::lemma_fundamental_div_mod(x2 as int, 0x1_0000_0000);
}

/// No two pixels share an encoding.
proof fn lemma_enc_pixel_injective(p1: Pixel, p2: Pixel)
    requires
        enc_pixel(p1) == enc_pixel(p2),
    ensures
        p1 == p2,
{
    lemma_concat_split(enc_u32(p1.color), enc_u32(p1.owner_id), enc_u32(p2.color), enc_u32(p2.owner_id));
    lemma_enc_u32_injective(p1.color, p2.color);
    lemma_enc_u32_injective(p1.owner_id, p2.owner_id);
}

/// A row of pixels encodes to eight bytes per pixel.
proof fn lemma_enc_pixels_len(r: Seq<Pixel>)
    ensures
        enc_pixels(r).len() == 8 * r.len(),
    decreases r.len(),
{
    if r.len() > 0 {
        lemma_enc_pixels_len(r.drop_last());
    }
}

/// Equally long pixel rows with equal encodings are equal.
proof fn lemma_enc_pixels_injective(r1: Seq<Pixel>, r2: Seq<Pixel>)
    requires
        enc_pixels(r1) == enc_pixels(r2),
        r1.len() == r2.len(),
    ensures
        r1 == r2,
    decreases r1.len(),
{
    if r1.len() > 0 {
        lemma_enc_pixels_len(r1.drop_last());
        lemma_enc_pixels_len(r2.drop_last());
        lemma_concat_split(
            enc_pixels(r1.drop_last()),
            enc_pixel(r1.last()),
            enc_pixels(r2.drop_last()),
            enc_pixel(r2.last()),
        );
        lemma_enc_pixels_injective(r1.drop_last(), r2.drop_last());
        lemma_enc_pixel_injective(r1.last(), r2.last());
        assert(r1 =~= r2) by {
            assert(forall|i: int|
                0 <= i < r1.len() - 1 ==> #[trigger] r1[i] == r1.drop_last()[i]);
            assert(forall|i: int|
                0 <= i < r2.len() - 1 ==> #[trigger] r2[i] == r2.drop_last()[i]);
        }
    } else {
        assert(r1 =~= r2);
    }
}

/// No two rows share an encoding.
proof fn lemma_enc_row_injective(r1: Seq<Pixel>, r2: Seq<Pixel>)
    requires
        enc_row(r1) == enc_row(r2),
        r1.len() <= 0xFFFF_FFFF,
        r2.len() <= 0xFFFF_FFFF,
    ensures
        r1 == r2,
{
    lemma_concat_split(
        enc_u32(r1.len() as u32),
        enc_pixels(r1),
        enc_u32(r2.len() as u32),
        enc_pixels(r2),
    );
    lemma_enc_u32_injective(r1.len() as u32, r2.len() as u32);
    lemma_enc_pixels_injective(r1, r2);
}

/// A full-width grid encodes to a fixed count of bytes per row.
proof fn lemma_enc_rows_len(g: Seq<Seq<Pixel>>)
    requires
        forall|i: int| 0 <= i < g.len() ==> (#[trigger] g[i]).len() == BOARD_WIDTH,
    ensures
        enc_rows(g).len() == (4 + 8 * BOARD_WIDTH) * g.len(),
    decreases g.len(),
{
    if g.len() > 0 {
        assert(forall|i: int|
            0 <= i < g.len() - 1 ==> (#[trigger] g.drop_last()[i]).len() == BOARD_WIDTH);
        lemma_enc_rows_len(g.drop_last());
        lemma_enc_pixels_len(g.last());
        let k = (4 + 8 * BOARD_WIDTH) as int;
        assert(k * g.len() == k * (g.len() - 1) + k) by (nonlinear_arith);
    }
}

/// Equally tall full-width grids with equal encodings are equal.
proof fn lemma_enc_rows_injective(g1: Seq<Seq<Pixel>>, g2: Seq<Seq<Pixel>>)
    requires
        enc_rows(g1) == enc_rows(g2),
        g1.len() == g2.len(),
        forall|i: int| 0 <= i < g1.len() ==> (#[trigger] g1[i]).len() == BOARD_WIDTH,
        forall|i: int| 0 <= i < g2.len() ==> (#[trigger] g2[i]).len() == BOARD_WIDTH,
    ensures
        g1 == g2,
    decreases g1.len(),
{
    if g1.len() > 0 {
        assert(forall|i: int|
            0 <= i < g1.len() - 1 ==> (#[trigger] g1.drop_last()[i]).len() == BOARD_WIDTH);
        assert(forall|i: int|
            0 <= i < g2.len() - 1 ==> (#[trigger] g2.drop_last()[i]).len() == BOARD_WIDTH);
        lemma_enc_rows_len(g1.drop_last());
        lemma_enc_rows_len(g2.drop_last());
        lemma_concat_split(
            enc_rows(g1.drop_last()),
            enc_row(g1.last()),
            enc_rows(g2.drop_last()),
            enc_row(g2.last()),
        );
        lemma_enc_rows_injective(g1.drop_last(), g2.drop_last());
        lemma_enc_row_injective(g1.last(), g2.last());
        assert(g1 =~= g2) by {
            assert(forall|i: int|
                0 <= i < g1.len() - 1 ==> #[trigger] g1[i] == g1.drop_last()[i]);
            assert(forall|i: int|
                0 <= i < g2.len() - 1 ==> #[trigger] g2[i] == g2.drop_last()[i]);
        }
    } else {
        assert(g1 =~= g2);
    }
}

/// No two full-dimension boards share an encoding: the picture and the height
/// are both pinned down by the bytes.
proof fn lemma_enc_board_injective(b1: Board, b2: Board)
    requires
        enc_board(b1) == enc_board(b2),
        b1.wf_dims(),
        b2.wf_dims(),
    ensures
        b1.grid() == b2.grid(),
        b1.block_height == b2.block_height,
{
    assert(enc_board(b1) =~= enc_u32(b1.grid().len() as u32) + (enc_rows(b1.grid()) + enc_u64(
        b1.block_height,
    )));
    assert(enc_board(b2) =~= enc_u32(b2.grid().len() as u32) + (enc_rows(b2.grid()) + enc_u64(
        b2.block_height,
    )));
    lemma_concat_split(
        enc_u32(b1.grid().len() as u32),
        enc_rows(b1.grid()) + enc_u64(b1.block_height),
        enc_u32(b2.grid().len() as u32),
        enc_rows(b2.grid()) + enc_u64(b2.block_height),
    );
    lemma_enc_rows_len(b1.grid());
    lemma_enc_rows_len(b2.grid());
    lemma_concat_split(
        enc_rows(b1.grid()),
        enc_u64(b1.block_height),
        enc_rows(b2.grid()),
        enc_u64(b2.block_height),
    );
    lemma_enc_rows_injective(b1.grid(), b2.grid());
    lemma_enc_u64_injective(b1.block_height, b2.block_height);
}

/// A sequence of full-dimension boards encodes to a fixed count of bytes per
/// board.
proof fn lemma_enc_boards_len(bs: Seq<Board>)
    requires
        forall|i: int| 0 <= i < bs.len() ==> (#[trigger] bs[i]).wf_dims(),
    ensures
        enc_boards(bs).len() == board_enc_len() * bs.len(),
    decreases bs.len(),
{
    if bs.len() > 0 {
        assert(forall|i: int| 0 <= i < bs.len() - 1 ==> (#[trigger] bs.drop_last()[i]).wf_dims());
        lemma_enc_boards_len(bs.drop_last());
        assert(bs.last().wf_dims());
        lemma_enc_rows_len(bs.last().grid());
        assert(enc_board(bs.last()).len() == board_enc_len());
        let k = board_enc_len();
        assert(k * bs.len() == k * (bs.len() - 1) + k) by (nonlinear_arith);
    }
}

/// Inside a full-width grid's encoding, row `i` occupies its fixed slot.
proof fn lemma_enc_rows_slice(g: Seq<Seq<Pixel>>, i: int)
    requires
        forall|k: int| 0 <= k < g.len() ==> (#[trigger] g[k]).len() == BOARD_WIDTH,
        0 <= i < g.len(),
    ensures
        enc_rows(g).subrange((4 + 8 * BOARD_WIDTH) * i, (4 + 8 * BOARD_WIDTH) * (i + 1))
            == enc_row(g[i]),
    decreases g.len(),
{
    let w = (4 + 8 * BOARD_WIDTH) as int;
    assert(forall|k: int|
        0 <= k < g.len() - 1 ==> (#[trigger] g.drop_last()[k]).len() == BOARD_WIDTH);
    lemma_enc_rows_len(g.drop_last());
    lemma_enc_pixels_len(g.last());
    assert(w * (i + 1) == w * i + w) by (nonlinear_arith);
    assert(w * i >= 0) by (nonlinear_arith)
        requires
            w > 0,
            i >= 0,
    {
    }
    if i == g.len() - 1 {
        assert(enc_rows(g).subrange(w * i, w * (i + 1)) =~= enc_row(g[i]));
    } else {
        lemma_enc_rows_slice(g.drop_last(), i);
        assert(w * (i + 1) <= w * (g.len() - 1)) by (nonlinear_arith)
            requires
                w > 0,
                i + 1 <= g.len() - 1,
        {
        }
        assert(enc_rows(g).subrange(w * i, w * (i + 1)) =~= enc_rows(g.drop_last()).subrange(
            w * i,
            w * (i + 1),
        ));
        assert(g.drop_last()[i] == g[i]);
    }
}

/// Inside a history's board section, board `i` occupies its fixed slot.
proof fn lemma_enc_boards_slice(bs: Seq<Board>, i: int)
    requires
        forall|k: int| 0 <= k < bs.len() ==> (#[trigger] bs[k]).wf_dims(),
        0 <= i < bs.len(),
    ensures
        enc_boards(bs).subrange(board_enc_len() * i, board_enc_len() * (i + 1)) == enc_board(
            bs[i],
        ),
    decreases bs.len(),
{
    let w = board_enc_len();
    assert(forall|k: int| 0 <= k < bs.len() - 1 ==> (#[trigger] bs.drop_last()[k]).wf_dims());
    lemma_enc_boards_len(bs.drop_last());
    assert(bs.last().wf_dims());
    lemma_enc_rows_len(bs.last().grid());
    assert(enc_board(bs.last()).len() == w);
    assert(w * (i + 1) == w * i + w) by (nonlinear_arith);
    assert(w * i >= 0) by (nonlinear_arith)
        requires
            w > 0,
            i >= 0,
    {
    }
    if i == bs.len() - 1 {
        assert(enc_boards(bs).subrange(w * i, w * (i + 1)) =~= enc_board(bs[i]));
    } else {
        lemma_enc_boards_slice(bs.drop_last(), i);
        assert(w * (i + 1) <= w * (bs.len() - 1)) by (nonlinear_arith)
            requires
                w > 0,
                i + 1 <= bs.len() - 1,
        {
        }
        assert(enc_boards(bs).subrange(w * i, w * (i + 1)) =~= enc_boards(bs.drop_last()).subrange(
            w * i,
            w * (i + 1),
        ));
        assert(bs.drop_last()[i] == bs[i]);
    }
}

/// Equally long sequences of full-dimension boards with equal encodings show
/// the same pictures at the same heights.
proof fn lemma_enc_boards_injective(bs1: Seq<Board>, bs2: Seq<Board>)
    requires
        enc_boards(bs1) == enc_boards(bs2),
        bs1.len() == bs2.len(),
        forall|i: int| 0 <= i < bs1.len() ==> (#[trigger] bs1[i]).wf_dims(),
        forall|i: int| 0 <= i < bs2.len() ==> (#[trigger] bs2[i]).wf_dims(),
    ensures
        forall|i: int|
            0 <= i < bs1.len() ==> (#[trigger] bs1[i]).grid() == bs2[i].grid() && bs1[i].block_height
                == bs2[i].block_height,
    decreases bs1.len(),
{
    if bs1.len() > 0 {
        assert(forall|i: int| 0 <= i < bs1.len() - 1 ==> (#[trigger] bs1.drop_last()[i]).wf_dims());
        assert(forall|i: int| 0 <= i < bs2.len() - 1 ==> (#[trigger] bs2.drop_last()[i]).wf_dims());
        lemma_enc_boards_len(bs1.drop_last());
        lemma_enc_boards_len(bs2.drop_last());
        lemma_enc_rows_len(bs1.last().grid());
        lemma_enc_rows_len(bs2.last().grid());
        lemma_concat_split(
            enc_boards(bs1.drop_last()),
            enc_board(bs1.last()),
            enc_boards(bs2.drop_last()),
            enc_board(bs2.last()),
        );
        lemma_enc_boards_injective(bs1.drop_last(), bs2.drop_last());
        lemma_enc_board_injective(bs1.last(), bs2.last());
        assert(forall|i: int|
            0 <= i < bs1.len() - 1 ==> #[trigger] bs1[i] == bs1.drop_last()[i]);
        assert(forall|i: int|
            0 <= i < bs2.len() - 1 ==> #[trigger] bs2[i] == bs2.drop_last()[i]);
    }
}

/// Checkpoint bytes determine the history: two histories of full-dimension
/// boards with the same encoding record the same pictures at the same
/// heights and the same cursor. Together with `decode_history`'s contract, a
/// checkpoint that parses parses to exactly the history it was written for.
#[verifier::rlimit(100)]
pub proof fn lemma_checkpoint_determines_history(h1: History, h2: History)
    requires
        enc_history(h1) == enc_history(h2),
        h1.boards@.len() <= 0xFFFF_FFFF,
        h2.boards@.len() <= 0xFFFF_FFFF,
        forall|i: int| 0 <= i < h1.boards@.len() ==> (#[trigger] h1.boards@[i]).wf_dims(),
        forall|i: int| 0 <= i < h2.boards@.len() ==> (#[trigger] h2.boards@[i]).wf_dims(),
    ensures
        h1.boards@.len() == h2.boards@.len(),
        forall|i: int|
            0 <= i < h1.boards@.len() ==> (#[trigger] h1.boards@[i]).grid() == h2.boards@[i].grid()
                && h1.boards@[i].block_height == h2.boards@[i].block_height,
        h1.last_fetched_block == h2.last_fetched_block,
{
    assert(enc_history(h1) =~= enc_u32(h1.boards@.len() as u32) + (enc_boards(h1.boards@)
        + enc_u64(h1.last_fetched_block)));
    assert(enc_history(h2) =~= enc_u32(h2.boards@.len() as u32) + (enc_boards(h2.boards@)
        + enc_u64(h2.last_fetched_block)));
    lemma_concat_split(
        enc_u32(h1.boards@.len() as u32),
        enc_boards(h1.boards@) + enc_u64(h1.last_fetched_block),
        enc_u32(h2.boards@.len() as u32),
        enc_boards(h2.boards@) + enc_u64(h2.last_fetched_block),
    );
    lemma_enc_u32_injective(h1.boards@.len() as u32, h2.boards@.len() as u32);
    lemma_enc_boards_len(h1.boards@);
    lemma_enc_boards_len(h2.boards@);
    lemma_concat_split(
        enc_boards(h1.boards@),
        enc_u64(h1.last_fetched_block),
        enc_boards(h2.boards@),
        enc_u64(h2.last_fetched_block),
    );
    lemma_enc_boards_injective(h1.boards@, h2.boards@);
    lemma_enc_u64_injective(h1.last_fetched_block, h2.last_fetched_block);
}

/// Where a full row cannot be read at `cur`, after `i` full rows were read
/// from `pos + 4` on, no full-dimension board's encoding covers `pos`.
#[verifier::rlimit(100)]
#[verifier::spinoff_prover]
proof fn lemma_no_board_fits_here(bytes: Seq<u8>, pos: int, g: Seq<Seq<Pixel>>, cur: int, i: int)
    requires
        0 <= pos,
        0 <= i < BOARD_HEIGHT,
        g.len() == i,
        forall|k: int| 0 <= k < i ==> (#[trigger] g[k]).len() == BOARD_WIDTH,
        enc_rows(g) == bytes.subrange(pos + 4, cur),
        pos + 4 <= cur <= bytes.len(),
        !(cur + 4 <= bytes.len() && le4_at(bytes, cur) == BOARD_WIDTH && cur + 4 + 8 * BOARD_WIDTH
            <= bytes.len()),
    ensures
        forall|b: Board|
            b.wf_dims() && pos + board_enc_len() <= bytes.len() && #[trigger] enc_board(b)
                == bytes.subrange(pos, pos + board_enc_len()) ==> false,
{
    let w = (4 + 8 * BOARD_WIDTH) as int;
    assert(w == 404);
    assert(board_enc_len() == 20212);
    lemma_enc_rows_len(g);
    assert(cur == pos + 4 + w * i);
    assert forall|b: Board|
        b.wf_dims() && pos + board_enc_len() <= bytes.len() && #[trigger] enc_board(b)
            == bytes.subrange(pos, pos + board_enc_len()) implies false by {
        lemma_enc_rows_len(b.grid());
        let es = enc_board(b);
        assert(es == enc_u32(b.grid().len() as u32) + enc_rows(b.grid()) + enc_u64(
            b.block_height,
        ));
        assert(es.len() == 20212);
        assert(forall|t: int|
            0 <= t < 20212 ==> bytes[pos + t] == #[trigger] es[t]) by {
            assert(forall|t: int|
                0 <= t < 20212 ==> #[trigger] es[t] == bytes.subrange(pos, pos + 20212)[t]);
        }
        assert(forall|t: int|
            0 <= t < 20200 ==> #[trigger] enc_rows(b.grid())[t] == es[4 + t]);
        lemma_enc_rows_slice(b.grid(), i);
        assert(w * i + w == w * (i + 1)) by (nonlinear_arith);
        assert(0 <= w * i && w * (i + 1) <= w * BOARD_HEIGHT) by (nonlinear_arith)
            requires
                0 <= i < BOARD_HEIGHT,
                w > 0,
        {
        }
        assert(w * BOARD_HEIGHT == 20200);
        let rowbytes = enc_row(b.grid()[i]);
        assert(forall|t: int|
            0 <= t < w ==> #[trigger] rowbytes[t] == enc_rows(b.grid())[w * i + t]) by {
            assert(forall|t: int|
                0 <= t < w ==> #[trigger] rowbytes[t] == enc_rows(b.grid()).subrange(
                    w * i,
                    w * (i + 1),
                )[t]);
        }
        assert(b.grid()[i].len() == BOARD_WIDTH);
        lemma_enc_pixels_len(b.grid()[i]);
        assert(forall|t: int|
            0 <= t < 4 ==> #[trigger] rowbytes[t] == enc_u32(BOARD_WIDTH)[t]);
        assert forall|k: int| 0 <= k < 4 implies bytes[cur + k] == enc_u32(BOARD_WIDTH)[k] by {
            assert(cur + k == pos + (4 + (w * i + k)));
            assert(bytes[pos + (4 + (w * i + k))] == es[4 + (w * i + k)]);
            assert(es[4 + (w * i + k)] == enc_rows(b.grid())[w * i + k]);
            assert(enc_rows(b.grid())[w * i + k] == rowbytes[k]);
            assert(rowbytes[k] == enc_u32(BOARD_WIDTH)[k]);
        }
        assert(bytes[cur] == enc_u32(BOARD_WIDTH)[0]);
        assert(bytes[cur + 1] == enc_u32(BOARD_WIDTH)[1]);
        assert(bytes[cur + 2] == enc_u32(BOARD_WIDTH)[2]);
        assert(bytes[cur + 3] == enc_u32(BOARD_WIDTH)[3]);
        lemma_le4_of_enc(BOARD_WIDTH);
        assert(le4_at(bytes, cur) == BOARD_WIDTH);
        assert(cur + 4 + 8 * BOARD_WIDTH <= bytes.len());
    }
}

/// Reads one board at `pos`: row count, the rows, then the observed height.
fn read_board(bytes: &Vec<u8>, pos: usize) -> (r: Option<(Board, usize)>)
    ensures
        r matches Some((b, p2)) ==> {
            &&& pos < p2 <= bytes@.len()
            &&& p2 == pos + board_enc_len()
            &&& b.wf_dims()
            &&& enc_board(b) == bytes@.subrange(pos as int, p2 as int)
        },
        forall|b: Board|
            b.wf_dims() && pos + board_enc_len() <= bytes@.len() && #[trigger] enc_board(b)
                == bytes@.subrange(pos as int, pos + board_enc_len()) ==> r is Some,
{
    let (n, start) = match read_u32(bytes, pos) {
        Some(v) => v,
        None => {
            proof {
                assert(board_enc_len() == 20212);
            }
            return None;
        },
    };
    if n != BOARD_HEIGHT {
        proof {
            assert(board_enc_len() == 20212);
            assert forall|b: Board|
                b.wf_dims() && pos + board_enc_len() <= bytes@.len() && #[trigger] enc_board(b)
                    == bytes@.subrange(pos as int, pos + board_enc_len()) implies false by {
                let es = enc_board(b);
                assert(es == enc_u32(b.grid().len() as u32) + enc_rows(b.grid()) + enc_u64(
                    b.block_height,
                ));
                assert(forall|t: int|
                    0 <= t < 4 ==> bytes@[pos + t] == #[trigger] es[t]) by {
                    assert(forall|t: int|
                        0 <= t < 4 ==> #[trigger] es[t] == bytes@.subrange(
                            pos as int,
                            pos + 20212,
                        )[t]);
                }
                assert(enc_u32(b.grid().len() as u32) =~= bytes@.subrange(
                    pos as int,
                    pos as int + 4,
                ));
                lemma_enc_u32_injective(n, b.grid().len() as u32);
            }
        }
        return None;
    }
    let mut pixels: Vec<Vec<Pixel>> = Vec::new();
    let ghost mut g: Seq<Seq<Pixel>> = Seq::empty();
    let mut cur = start;
    let mut i: u32 = 0;
    while i < BOARD_HEIGHT
        invariant
            0 <= i <= BOARD_HEIGHT,
            start == pos + 4,
            pos + 4 <= cur <= bytes@.len(),
            pixels@.len() == i,
            g.len() == i,
            forall|k: int| 0 <= k < i ==> g[k] == (#[trigger] pixels@[k])@,
            forall|k: int| 0 <= k < i ==> (#[trigger] g[k]).len() == BOARD_WIDTH,
            enc_rows(g) == bytes@.subrange(start as int, cur as int),
        decreases BOARD_HEIGHT - i,
    {
        let (row, c2) = match read_row(bytes, cur) {
            Some(v) => v,
            None => {
                proof {
                    lemma_no_board_fits_here(bytes@, pos as int, g, cur as int, i as int);
                }
                return None;
            },
        };
        proof {
            let g2 = g.push(row@);
            assert(g2.drop_last() =~= g);
            assert(bytes@.subrange(start as int, c2 as int) =~= bytes@.subrange(
                start as int,
                cur as int,
            ) + bytes@.subrange(cur as int, c2 as int));
            g = g2;
        }
        pixels.push(row);
        cur = c2;
        i = i + 1;
    }
    proof {
        lemma_enc_rows_len(g);
        assert(cur == pos + 4 + (4 + 8 * BOARD_WIDTH) * (BOARD_HEIGHT as int));
        assert(cur == pos + 20204);
    }
    let (block_height, p2) = match read_u64_at(bytes, cur) {
        Some(v) => v,
        None => {
            assert(board_enc_len() == 20212);
            return None;
        },
    };
    let b = Board { pixels, block_height };
    proof {
        assert(b.grid() =~= g);
        assert(b.grid().len() as u32 == n);
        assert(p2 == pos + board_enc_len());
        assert(enc_board(b) =~= bytes@.subrange(pos as int, p2 as int));
    }
    Some((b, p2))
}

/// Serializes a history into checkpoint bytes: exactly `enc_history`.
pub fn encode_history(h: &History) -> (out: Vec<u8>)
    requires
        spec_encodable(*h),
    ensures
        out@ == enc_history(*h),
{
    let mut out: Vec<u8> = Vec::new();
    push_u32(&mut out, h.boards.len() as u32);
    let mut i: usize = 0;
    while i < h.boards.len()
        invariant
            0 <= i <= h.boards@.len(),
            spec_encodable(*h),
            out@ == enc_u32(h.boards@.len() as u32) + enc_boards(h.boards@.take(i as int)),
        decreases h.boards@.len() - i,
    {
        encode_board_into(&mut out, &h.boards[i]);
        proof {
            let t2 = h.boards@.take(i + 1);
            assert(t2.drop_last() =~= h.boards@.take(i as int));
            assert(t2.last() == h.boards@[i as int]);
        }
        i = i + 1;
    }
    proof {
        assert(h.boards@.take(h.boards@.len() as int) =~= h.boards@);
    }
    push_u64(&mut out, h.last_fetched_block);
    out
}

/// Appends one board's encoding.
fn encode_board_into(out: &mut Vec<u8>, b: &Board)
    requires
        b.wf_dims(),
    ensures
        final(out)@ == old(out)@ + enc_board(*b),
{
    push_u32(out, BOARD_HEIGHT);
    let ghost base = out@;
    let mut i: usize = 0;
    while i < b.pixels.len()
        invariant
            b.wf_dims(),
            0 <= i <= b.pixels@.len(),
            out@ == base + enc_rows(b.grid().take(i as int)),
        decreases b.pixels@.len() - i,
    {
        assert(b.pixels@[i as int]@ == b.grid()[i as int]);
        encode_row_into(out, &b.pixels[i]);
        proof {
            let t2 = b.grid().take(i + 1);
            assert(t2.drop_last() =~= b.grid().take(i as int));
            assert(t2.last() == b.grid()[i as int]);
        }
        i = i + 1;
    }
    proof {
        assert(b.grid().take(b.grid().len() as int) =~= b.grid());
        assert(b.grid().len() as u32 == BOARD_HEIGHT);
    }
    push_u64(out, b.block_height);
    assert(out@ =~= old(out)@ + enc_board(*b));
}

/// Appends one row's encoding.
fn encode_row_into(out: &mut Vec<u8>, row: &Vec<Pixel>)
    requires
        row@.len() == BOARD_WIDTH,
    ensures
        final(out)@ == old(out)@ + enc_row(row@),
{
    push_u32(out, row.len() as u32);
    let ghost base = out@;
    let mut j: usize = 0;
    while j < row.len()
        invariant
            0 <= j <= row@.len(),
            out@ == base + enc_pixels(row@.take(j as int)),
        decreases row@.len() - j,
    {
        let p = row[j];
        push_u32(out, p.color);
        push_u32(out, p.owner_id);
        proof {
            let t2 = row@.take(j + 1);
            assert(t2.drop_last() =~= row@.take(j as int));
            assert(t2.last() == row@[j as int]);
            assert(enc_pixels(t2) == enc_pixels(row@.take(j as int)) + enc_pixel(row@[j as int]));
            assert(out@ =~= base + enc_pixels(t2));
        }
        j = j + 1;
    }
    proof {
        assert(row@.take(row@.len() as int) =~= row@);
        assert(out@ =~= old(out)@ + enc_row(row@));
    }
}

/// Where a history's encoding equals these bytes, its board count is the one
/// the first field spells and the total length follows from it.
proof fn lemma_count_field(bytes: Seq<u8>, n: u32, h: History)
    requires
        spec_encodable(h),
        enc_history(h) == bytes,
        enc_u32(n) == bytes.subrange(0, 4),
    ensures
        h.boards@.len() == n,
        bytes.len() == 4 + board_enc_len() * (n as int) + 8,
{
    lemma_enc_boards_len(h.boards@);
    let eh = enc_history(h);
    assert(eh == enc_u32(h.boards@.len() as u32) + enc_boards(h.boards@) + enc_u64(
        h.last_fetched_block,
    ));
    assert(enc_u32(h.boards@.len() as u32) =~= bytes.subrange(0, 4)) by {
        assert(forall|t: int|
            0 <= t < 4 ==> #[trigger] bytes.subrange(0, 4)[t] == eh[t]);
    }
    lemma_enc_u32_injective(n, h.boards@.len() as u32);
}

/// Where no board can be read at `cur`, after `i` whole boards were read from
/// offset 4 on, no encodable history's encoding equals these bytes.
#[verifier::rlimit(100)]
#[verifier::spinoff_prover]
proof fn lemma_no_history_fits(bytes: Seq<u8>, n: u32, boards: Seq<Board>, cur: int, i: int)
    requires
        enc_u32(n) == bytes.subrange(0, 4),
        0 <= i < n,
        boards.len() == i,
        forall|k: int| 0 <= k < i ==> (#[trigger] boards[k]).wf_dims(),
        enc_boards(boards) == bytes.subrange(4, cur),
        4 <= cur <= bytes.len(),
        forall|b: Board|
            b.wf_dims() && cur + board_enc_len() <= bytes.len() && #[trigger] enc_board(b)
                == bytes.subrange(cur, cur + board_enc_len()) ==> false,
    ensures
        forall|h: History| spec_encodable(h) ==> #[trigger] enc_history(h) != bytes,
{
    let l = board_enc_len();
    assert(l == 20212);
    lemma_enc_boards_len(boards);
    assert(cur == 4 + l * i);
    assert forall|h: History| spec_encodable(h) implies #[trigger] enc_history(h) != bytes by {
        if enc_history(h) == bytes {
            let hb = h.boards@;
            let eh = enc_history(h);
            lemma_count_field(bytes, n, h);
            lemma_enc_boards_len(hb);
            assert(eh == enc_u32(hb.len() as u32) + enc_boards(hb) + enc_u64(
                h.last_fetched_block,
            ));
            lemma_enc_boards_slice(hb, i);
            assert(l * (i + 1) == l * i + l) by (nonlinear_arith);
            assert(0 <= l * i && l * (i + 1) <= l * (n as int)) by (nonlinear_arith)
                requires
                    0 <= i < n,
                    l > 0,
            {
            }
            assert(hb[i].wf_dims());
            let bb = enc_board(hb[i]);
            assert(bb.len() == l) by {
                lemma_enc_rows_len(hb[i].grid());
            }
            assert forall|t: int| 0 <= t < l implies #[trigger] bb[t] == bytes[cur + t] by {
                assert(bb[t] == enc_boards(hb).subrange(l * i, l * (i + 1))[t]);
                assert(bb[t] == enc_boards(hb)[l * i + t]);
                assert(enc_boards(hb)[l * i + t] == eh[4 + (l * i + t)]);
                assert(cur + t == 4 + (l * i + t));
            }
            assert(bb =~= bytes.subrange(cur, cur + l));
            assert(false);
        }
    }
}

/// Parses checkpoint bytes back into a history. Success means the bytes are
/// exactly the encoding of the returned history, whose boards all have full
/// canvas dimensions; failure means no such history encodes to these bytes.
pub fn decode_history(bytes: &Vec<u8>) -> (r: Option<History>)
    ensures
        r matches Some(h) ==> {
            &&& enc_history(h) == bytes@
            &&& spec_encodable(h)
        },
        r is None ==> forall|h: History|
            spec_encodable(h) ==> #[trigger] enc_history(h) != bytes@,
{
    let (n, start) = match read_u32(bytes, 0) {
        Some(v) => v,
        None => {
            proof {
                assert forall|h: History| spec_encodable(h) implies #[trigger] enc_history(h)
                    != bytes@ by {
                    assert(enc_history(h).len() >= 12);
                }
            }
            return None;
        },
    };
    let mut boards: Vec<Board> = Vec::new();
    let mut cur = start;
    let mut i: u32 = 0;
    while i < n
        invariant
            0 <= i <= n,
            start == 4,
            4 <= cur <= bytes@.len(),
            boards@.len() == i,
            enc_u32(n) == bytes@.subrange(0, 4),
            forall|k: int| 0 <= k < i ==> (#[trigger] boards@[k]).wf_dims(),
            enc_boards(boards@) == bytes@.subrange(start as int, cur as int),
        decreases n - i,
    {
        let (b, c2) = match read_board(bytes, cur) {
            Some(v) => v,
            None => {
                proof {
                    lemma_no_history_fits(bytes@, n, boards@, cur as int, i as int);
                }
                return None;
            },
        };
        proof {
            let t2 = boards@.push(b);
            assert(t2.drop_last() =~= boards@);
            assert(bytes@.subrange(start as int, c2 as int) =~= bytes@.subrange(
                start as int,
                cur as int,
            ) + bytes@.subrange(cur as int, c2 as int));
        }
        boards.push(b);
        cur = c2;
        i = i + 1;
    }
    proof {
        lemma_enc_boards_len(boards@);
        assert(cur == 4 + board_enc_len() * (n as int));
    }
    let (last_fetched_block, p2) = match read_u64_at(bytes, cur) {
        Some(v) => v,
        None => {
            proof {
                assert forall|h2: History| spec_encodable(h2) implies #[trigger] enc_history(h2)
                    != bytes@ by {
                    if enc_history(h2) == bytes@ {
                        lemma_count_field(bytes@, n, h2);
                    }
                }
            }
            return None;
        },
    };
    if p2 != bytes.len() {
        proof {
            assert forall|h2: History| spec_encodable(h2) implies #[trigger] enc_history(h2)
                != bytes@ by {
                if enc_history(h2) == bytes@ {
                    lemma_count_field(bytes@, n, h2);
                }
            }
        }
        return None;
    }
    let h = History { boards, last_fetched_block };
    proof {
        assert(h.boards@.len() as u32 == n);
        assert(enc_history(h) =~= bytes@.subrange(0, bytes@.len() as int));
        assert(bytes@.subrange(0, bytes@.len() as int) =~= bytes@);
    }
    Some(h)
}

} // verus!
