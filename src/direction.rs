use vstd::arithmetic::div_mod::lemma_fundamental_div_mod_converse;
use vstd::prelude::*;

verus! {

/// Direction code of a move to the layer above (layer index minus one).
pub const DIR_UP_L: u8 = 0b00100000;

/// Direction code of a move to the layer below (layer index plus one).
pub const DIR_DOWN_L: u8 = 0b11000000;

pub const DIR_LEFT: u8 = 0b10000000;

pub const DIR_RIGHT: u8 = 0b01100000;

pub const DIR_UP: u8 = 0b01000000;

pub const DIR_DOWN: u8 = 0b10100000;

/// The 3-bit direction code held in the top bits of a direction/layer byte.
pub open spec fn dir_code(d: u8) -> int {
    d as int / 32
}

/// The 5-bit layer index held in the bottom bits of a direction/layer byte.
pub open spec fn layer_of(d: u8) -> int {
    d as int % 32
}

/// The direction/layer byte with direction code `d` and layer `l`.
pub open spec fn dir_layer(d: int, l: int) -> u8 {
    (d * 32 + l) as u8
}

/// The reversed direction, same layer.
pub open spec fn rev(d: u8) -> u8 {
    dir_layer(7 - dir_code(d), layer_of(d))
}

/// The direction of `d` on the layer of `l`.
pub open spec fn with_layer(d: u8, l: u8) -> u8 {
    dir_layer(dir_code(d), layer_of(l))
}

/// Reverses the direction, keeping the layer bits intact.
pub fn dir_rev(dir: u8) -> (r: u8)
    ensures
        r == rev(dir),
        dir_code(r) == 7 - dir_code(dir),
        layer_of(r) == layer_of(dir),
{
    proof {
        assert((dir ^ 0b11100000u8) / 32 == 7 - dir / 32 && (dir ^ 0b11100000u8) % 32 == dir % 32
            && (dir ^ 0b11100000u8) == (7 - dir / 32) * 32 + dir % 32) by (bit_vector);
    }
    dir ^ 0b11100000
}

/// The direction code of `dir` with the layer bits of `layer`.
pub fn dir_with_layer(dir: u8, layer: u8) -> (r: u8)
    ensures
        r == with_layer(dir, layer),
        dir_code(r) == dir_code(dir),
        layer_of(r) == layer_of(layer),
{
    proof {
        assert((dir & 0b11100000u8) | (layer & 0b11111u8) == (dir / 32) * 32 + layer % 32
            && ((dir / 32) * 32 + layer % 32) / 32 == dir / 32 && ((dir / 32) * 32 + layer % 32)
            % 32 == layer % 32) by (bit_vector);
    }
    (dir & 0b11100000) | (layer & 0b11111)
}

/// Whether the two direction/layer bytes carry the same direction code.
pub open spec fn same_dir(a: u8, b: u8) -> bool {
    dir_code(a) == dir_code(b)
}

/// A signal travelling along `b` strikes a block facing `a` on a side face:
/// the block's direction is neither the signal's nor its reverse.
pub open spec fn side(a: u8, b: u8) -> bool {
    dir_code(a) != dir_code(b) && dir_code(a) != 7 - dir_code(b)
}

/// Returns true if a and b point in the same direction.
pub fn is_same_dir(a: u8, b: u8) -> (r: bool)
    ensures
        r == same_dir(a, b),
{
    proof {
        assert(((a & 0b11100000u8) == (b & 0b11100000u8)) == (a / 32 == b / 32)) by (bit_vector);
    }
    (a & 0b11100000) == (b & 0b11100000)
}

/// Returns true if a and b have different orientations: with `a` a block's
/// direction and `b` a signal's, the signal is a side-signal.
pub fn is_side(a: u8, b: u8) -> (r: bool)
    ensures
        r == side(a, b),
{
    !(is_same_dir(a, b) || is_same_dir(a, dir_rev(b)))
}

/// Number of chunk columns (and rows) before the chunk coordinates wrap.
pub open spec fn chunk_span() -> int {
    0x1_0000_0000
}

/// Number of cell columns (and rows) before the cell coordinates wrap.
pub open spec fn plane_span() -> int {
    0x10_0000_0000
}

/// The chunk column held in the low 32 bits of a chunk key.
pub open spec fn chunk_x(c: u64) -> int {
    c as int % chunk_span()
}

/// The chunk row held in the high 32 bits of a chunk key.
pub open spec fn chunk_y(c: u64) -> int {
    c as int / chunk_span()
}

/// The cell column of an in-chunk index in a chunk, in `[0, plane_span())`.
pub open spec fn cell_x(c: u64, i: u8) -> int {
    chunk_x(c) * 16 + i as int % 16
}

/// The cell row of an in-chunk index in a chunk, in `[0, plane_span())`.
pub open spec fn cell_y(c: u64, i: u8) -> int {
    chunk_y(c) * 16 + i as int / 16
}

/// Chunk key and in-chunk index of the cell at column `x` and row `y`.
pub open spec fn at_cell(x: int, y: int) -> (u64, u8) {
    ((y / 16 * chunk_span() + x / 16) as u64, ((y % 16) * 16 + x % 16) as u8)
}

/// The position one step along the direction of `dl`, with `dl`'s layer changed
/// for the two layer directions; `None` where a layer move leaves `[0, 31]` or
/// the direction code is none of the six.
pub open spec fn advance(dl: u8, c: u64, i: u8) -> Option<(u8, u64, u8)> {
    let x = cell_x(c, i);
    let y = cell_y(c, i);
    let p = plane_span();
    if dir_code(dl) == 4 {
        Some((dl, at_cell((x + p - 1) % p, y).0, at_cell((x + p - 1) % p, y).1))
    } else if dir_code(dl) == 3 {
        Some((dl, at_cell((x + 1) % p, y).0, at_cell((x + 1) % p, y).1))
    } else if dir_code(dl) == 2 {
        Some((dl, at_cell(x, (y + p - 1) % p).0, at_cell(x, (y + p - 1) % p).1))
    } else if dir_code(dl) == 5 {
        Some((dl, at_cell(x, (y + 1) % p).0, at_cell(x, (y + 1) % p).1))
    } else if dir_code(dl) == 1 {
        if layer_of(dl) == 0 {
            None
        } else {
            Some(((dl - 1) as u8, c, i))
        }
    } else if dir_code(dl) == 6 {
        if layer_of(dl) == 31 {
            None
        } else {
            Some(((dl + 1) as u8, c, i))
        }
    } else {
        None
    }
}

proof fn lemma_split16(q: int, r: int)
    requires
        0 <= r < 16,
    ensures
        (q * 16 + r) / 16 == q,
        (q * 16 + r) % 16 == r,
{
    assert((q * 16 + r) / 16 == q && (q * 16 + r) % 16 == r) by (nonlinear_arith)
        requires
            0 <= r < 16,
    ;
}

proof fn lemma_split_key(hi: int, lo: int)
    requires
        0 <= lo < chunk_span(),
    ensures
        (hi * chunk_span() + lo) / chunk_span() == hi,
        (hi * chunk_span() + lo) % chunk_span() == lo,
{
    assert((hi * 0x1_0000_0000 + lo) / 0x1_0000_0000 == hi && (hi * 0x1_0000_0000 + lo)
        % 0x1_0000_0000 == lo) by (nonlinear_arith)
        requires
            0 <= lo < 0x1_0000_0000,
    ;
}

/// The cell of a chunk key and index, read back through `at_cell`, is that key and index.
proof fn lemma_at_cell_of(c: u64, i: u8)
    ensures
        at_cell(cell_x(c, i), cell_y(c, i)) == (c, i),
        0 <= cell_x(c, i) < plane_span(),
        0 <= cell_y(c, i) < plane_span(),
{
    let cx = chunk_x(c);
    let cy = chunk_y(c);
    lemma_split16(cx, i as int % 16);
    lemma_split16(cy, i as int / 16);
    assert(c as int == cy * chunk_span() + cx);
    assert(i as int == (i as int / 16) * 16 + i as int % 16);
}

/// Same as `pos_move`, but leaves the given values as they are.
pub fn pos_moved(dir_layer: u8, pos_chunk: u64, pos_inner: u8) -> (r: Option<(u8, u64, u8)>)
    ensures
        r == advance(dir_layer, pos_chunk, pos_inner),
{
    let mut d = dir_layer;
    let mut c = pos_chunk;
    let mut i = pos_inner;
    if pos_move(&mut d, &mut c, &mut i) {
        Some((d, c, i))
    } else {
        None
    }
}

fn step_left(c: u64, i: u8) -> (r: (u64, u8))
    ensures
        r == at_cell((cell_x(c, i) + plane_span() - 1) % plane_span(), cell_y(c, i)),
{
    let lx = i % 16;
    let ly = i / 16;
    let cx = c % 0x1_0000_0000;
    let cy = c / 0x1_0000_0000;
    proof {
        lemma_split16(cy as int, ly as int);
    }
    if lx == 0 {
        let ncx = if cx == 0 {
            0xFFFF_FFFFu64
        } else {
            cx - 1
        };
        proof {
            lemma_split16(ncx as int, 15);
            lemma_split16(ly as int, 15);
            assert((cell_x(c, i) + plane_span() - 1) % plane_span() == ncx * 16 + 15);
        }
        (cy * 0x1_0000_0000 + ncx, ly * 16 + 15)
    } else {
        proof {
            lemma_split16(cx as int, lx - 1);
            lemma_split16(ly as int, lx - 1);
            assert((cell_x(c, i) + plane_span() - 1) % plane_span() == cx * 16 + lx - 1);
        }
        (c, i - 1)
    }
}

fn step_right(c: u64, i: u8) -> (r: (u64, u8))
    ensures
        r == at_cell((cell_x(c, i) + 1) % plane_span(), cell_y(c, i)),
{
    let lx = i % 16;
    let ly = i / 16;
    let cx = c % 0x1_0000_0000;
    let cy = c / 0x1_0000_0000;
    proof {
        lemma_split16(cy as int, ly as int);
    }
    if lx == 15 {
        let ncx = if cx == 0xFFFF_FFFF {
            0u64
        } else {
            cx + 1
        };
        proof {
            lemma_split16(ncx as int, 0);
            lemma_split16(ly as int, 0);
            assert((cell_x(c, i) + 1) % plane_span() == ncx * 16);
        }
        (cy * 0x1_0000_0000 + ncx, ly * 16)
    } else {
        proof {
            lemma_split16(cx as int, lx + 1);
            lemma_split16(ly as int, lx + 1);
            assert((cell_x(c, i) + 1) % plane_span() == cx * 16 + lx + 1);
        }
        (c, i + 1)
    }
}

fn step_up(c: u64, i: u8) -> (r: (u64, u8))
    ensures
        r == at_cell(cell_x(c, i), (cell_y(c, i) + plane_span() - 1) % plane_span()),
{
    let lx = i % 16;
    let ly = i / 16;
    let cx = c % 0x1_0000_0000;
    let cy = c / 0x1_0000_0000;
    proof {
        lemma_split16(cx as int, lx as int);
    }
    if ly == 0 {
        let ncy = if cy == 0 {
            0xFFFF_FFFFu64
        } else {
            cy - 1
        };
        proof {
            lemma_split16(ncy as int, 15);
            lemma_split16(15, lx as int);
            assert((cell_y(c, i) + plane_span() - 1) % plane_span() == ncy * 16 + 15);
        }
        (ncy * 0x1_0000_0000 + cx, 15 * 16 + lx)
    } else {
        proof {
            lemma_split16(cy as int, ly - 1);
            lemma_split16(ly - 1, lx as int);
            assert((cell_y(c, i) + plane_span() - 1) % plane_span() == cy * 16 + ly - 1);
        }
        (c, i - 16)
    }
}

fn step_down(c: u64, i: u8) -> (r: (u64, u8))
    ensures
        r == at_cell(cell_x(c, i), (cell_y(c, i) + 1) % plane_span()),
{
    let lx = i % 16;
    let ly = i / 16;
    let cx = c % 0x1_0000_0000;
    let cy = c / 0x1_0000_0000;
    proof {
        lemma_split16(cx as int, lx as int);
    }
    if ly == 15 {
        let ncy = if cy == 0xFFFF_FFFF {
            0u64
        } else {
            cy + 1
        };
        proof {
            lemma_split16(ncy as int, 0);
            lemma_split16(0, lx as int);
            assert((cell_y(c, i) + 1) % plane_span() == ncy * 16);
        }
        (ncy * 0x1_0000_0000 + cx, lx)
    } else {
        proof {
            lemma_split16(cy as int, ly + 1);
            lemma_split16(ly + 1, lx as int);
            assert((cell_y(c, i) + 1) % plane_span() == cy * 16 + ly + 1);
        }
        (c, i + 16)
    }
}

/// Moves one cell or layer according to the direction code of `dir_layer`.
/// The direction is kept; the layer, chunk and in-chunk index may change.
/// Returns false, changing nothing, where the new position would be out of bounds.
pub fn pos_move(dir_layer: &mut u8, pos_chunk: &mut u64, pos_inner: &mut u8) -> (r: bool)
    ensures
        r == advance(*old(dir_layer), *old(pos_chunk), *old(pos_inner)) is Some,
        r ==> advance(*old(dir_layer), *old(pos_chunk), *old(pos_inner)) == Some(
            (*final(dir_layer), *final(pos_chunk), *final(pos_inner)),
        ),
        !r ==> *final(dir_layer) == *old(dir_layer) && *final(pos_chunk) == *old(pos_chunk)
            && *final(pos_inner) == *old(pos_inner),
{
    let dir = *dir_layer / 32;
    let layer = *dir_layer % 32;
    let moved = if dir == 4 {
        step_left(*pos_chunk, *pos_inner)
    } else if dir == 3 {
        step_right(*pos_chunk, *pos_inner)
    } else if dir == 2 {
        step_up(*pos_chunk, *pos_inner)
    } else if dir == 5 {
        step_down(*pos_chunk, *pos_inner)
    } else if dir == 1 {
        // up (layer)
        if layer == 0 {
            return false;
        }
        *dir_layer = *dir_layer - 1;
        return true;
    } else if dir == 6 {
        // down (layer)
        if layer == 31 {
            return false;
        }
        *dir_layer = *dir_layer + 1;
        return true;
    } else {
        return false;
    };
    *pos_chunk = moved.0;
    *pos_inner = moved.1;
    true
}

/// Chunk key and in-chunk index of the tile at `(x, y)`: the chunk coordinates
/// are `floor(x / 16)` and `floor(y / 16)` taken as 32-bit values (x in the low
/// half of the key, y in the high half), the in-chunk index is
/// `(y mod 16) * 16 + (x mod 16)`.
pub open spec fn locate(x: int, y: int) -> (u64, u8) {
    (
        ((y / 16) % chunk_span() * chunk_span() + (x / 16) % chunk_span()) as u64,
        ((y % 16) * 16 + x % 16) as u8,
    )
}

/// Reads a cell coordinate in `[0, plane_span())` as a signed value.
pub open spec fn signed_cell(g: int) -> int {
    if g >= plane_span() / 2 {
        g - plane_span()
    } else {
        g
    }
}

/// The tile column that a chunk key and in-chunk index stand for.
pub open spec fn tile_x(c: u64, i: u8) -> int {
    signed_cell(cell_x(c, i))
}

/// The tile row that a chunk key and in-chunk index stand for.
pub open spec fn tile_y(c: u64, i: u8) -> int {
    signed_cell(cell_y(c, i))
}

/// Chunk coordinate (taken as 32 bits) and in-chunk coordinate of a tile coordinate.
fn split_coord(v: i64) -> (r: (u64, u8))
    ensures
        r.0 as int == (v / 16) % chunk_span(),
        r.1 as int == v % 16,
{
    if v >= 0 {
        let u = v as u64;
        ((u / 16) % 0x1_0000_0000, (u % 16) as u8)
    } else {
        let n = (-(v + 1)) as u64;
        let q = n / 16;
        let m = n % 16;
        proof {
            lemma_fundamental_div_mod_converse(n as int, 16, q as int, m as int);
            lemma_fundamental_div_mod_converse(v as int, 16, -(q as int) - 1, 15 - m);
            let k = q as int % chunk_span();
            lemma_fundamental_div_mod_converse(q as int, chunk_span(), q as int / chunk_span(), k);
            lemma_fundamental_div_mod_converse(
                -(q as int) - 1,
                chunk_span(),
                -(q as int / chunk_span()) - 1,
                chunk_span() - 1 - k,
            );
        }
        (0xFFFF_FFFF - q % 0x1_0000_0000, (15 - m) as u8)
    }
}

/// Chunk key and in-chunk index of the tile at `(x, y)`.
pub fn locate_tile(x: i64, y: i64) -> (r: (u64, u8))
    ensures
        r == locate(x as int, y as int),
{
    let (cx, lx) = split_coord(x);
    let (cy, ly) = split_coord(y);
    (cy * 0x1_0000_0000 + cx, ly * 16 + lx)
}

proof fn lemma_cell_of_locate(v: int)
    ensures
        ((v / 16) % chunk_span()) * 16 + v % 16 == v % plane_span(),
{
    let q = v / 16;
    let r = v % 16;
    let a = q % chunk_span();
    let b = q / chunk_span();
    assert(v == q * 16 + r);
    assert(q == b * chunk_span() + a);
    assert(v == b * plane_span() + (a * 16 + r)) by (nonlinear_arith)
        requires
            v == q * 16 + r,
            q == b * chunk_span() + a,
            chunk_span() == 0x1_0000_0000,
            plane_span() == 0x10_0000_0000,
    ;
    lemma_fundamental_div_mod_converse(v, plane_span(), b, a * 16 + r);
}

/// Locating a tile and reading the tile back from its chunk key and in-chunk
/// index gives the same tile, for every tile whose chunk coordinates fit in 32
/// signed bits.
pub proof fn lemma_locate_inverse(x: int, y: int)
    requires
        -plane_span() / 2 <= x < plane_span() / 2,
        -plane_span() / 2 <= y < plane_span() / 2,
    ensures
        tile_x(locate(x, y).0, locate(x, y).1) == x,
        tile_y(locate(x, y).0, locate(x, y).1) == y,
{
    let (c, i) = locate(x, y);
    let cx = (x / 16) % chunk_span();
    let cy = (y / 16) % chunk_span();
    lemma_split_key(cy, cx);
    lemma_split16(y % 16, x % 16);
    lemma_cell_of_locate(x);
    lemma_cell_of_locate(y);
    if x < 0 {
        lemma_fundamental_div_mod_converse(x, plane_span(), -1, x + plane_span());
    } else {
        lemma_fundamental_div_mod_converse(x, plane_span(), 0, x);
    }
    if y < 0 {
        lemma_fundamental_div_mod_converse(y, plane_span(), -1, y + plane_span());
    } else {
        lemma_fundamental_div_mod_converse(y, plane_span(), 0, y);
    }
}

} // verus!
