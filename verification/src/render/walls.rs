//! Integer side of the wall and floor rendering: which wallpaper variation a
//! wall block shows, and the CPU copy of a texture that the floor casting
//! samples pixel by pixel.
//!
//! Every wall of the `Normal` zone shows the base wallpaper (index 0) or one
//! of its variations (1 and up). A block "wants" a variation by a fixed,
//! deterministic dice roll on its coordinates (the same block always gets the
//! same answer, so nothing flickers between frames), but only gets one when
//! neither the block above nor the block to its left already took one: two
//! variations never end up side by side.
use vstd::prelude::*;
use crate::map::{
    BlockMap, Zone, spec_is_solid, spec_zone_of_block, zone_of_block,
};

verus! {

/// Change this number to reshuffle which block gets which variation.
pub const SCATTER_SEED: u64 = 2;

/// Out of `VARIANT_CHANCE_OUT_OF` blocks, `VARIANT_CHANCE_HITS` want a
/// variation (before the neighbour check).
pub const VARIANT_CHANCE_OUT_OF: u64 = 10;

pub const VARIANT_CHANCE_HITS: u64 = 6;

/// Deterministic hash of block coordinates (a variant of the MurmurHash3
/// finalizer): multiply-xor mixing of both coordinates and the seed.
pub open spec fn spec_hash_block(row: u64, col: u64) -> u64 {
    let h0 = row.wrapping_mul(0x9E37_79B9_7F4A_7C15u64) ^ col.wrapping_mul(0xC2B2_AE3D_27D4_EB4Fu64)
        ^ SCATTER_SEED;
    let h1 = h0 ^ (h0 >> 33u64);
    let h2 = h1.wrapping_mul(0xFF51_AFD7_ED55_8CCDu64);
    let h3 = h2 ^ (h2 >> 33u64);
    let h4 = h3.wrapping_mul(0xC4CE_B9FE_1A85_EC53u64);
    h4 ^ (h4 >> 33u64)
}

/// Hash of block coordinates: the same block always gives the same value,
/// and neighbouring blocks show no visible pattern.
pub fn hash_block(row: u64, col: u64) -> (h: u64)
    ensures
        h == spec_hash_block(row, col),
{
    let mut h = row.wrapping_mul(0x9E37_79B9_7F4A_7C15u64) ^ col.wrapping_mul(0xC2B2_AE3D_27D4_EB4Fu64)
        ^ SCATTER_SEED;
    h = h ^ (h >> 33u64);
    h = h.wrapping_mul(0xFF51_AFD7_ED55_8CCDu64);
    h = h ^ (h >> 33u64);
    h = h.wrapping_mul(0xC4CE_B9FE_1A85_EC53u64);
    h = h ^ (h >> 33u64);
    h
}

/// Whether block (row, col) wants a variation: its hash falls in the first
/// `VARIANT_CHANCE_HITS` of every `VARIANT_CHANCE_OUT_OF` values.
pub open spec fn spec_wants_variant(row: usize, col: usize) -> bool {
    spec_hash_block(row as u64, col as u64) % VARIANT_CHANCE_OUT_OF < VARIANT_CHANCE_HITS
}

/// Whether block (row, col) wants a variation, before looking at its
/// neighbours.
pub fn wants_variant(row: usize, col: usize) -> (b: bool)
    ensures
        b == spec_wants_variant(row, col),
{
    hash_block(row as u64, col as u64) % VARIANT_CHANCE_OUT_OF < VARIANT_CHANCE_HITS
}

/// Block (row, col) is a wall of the `Normal` zone.
pub open spec fn is_normal_wall(row: usize, col: usize) -> bool {
    spec_is_solid(row as isize as int, col as isize as int) && spec_zone_of_block(row as int, col as int)
        == Zone::Normal
}

/// Block (row, col) is a wall of the `Normal` zone that wants a variation.
pub open spec fn claims_variant(row: usize, col: usize) -> bool {
    is_normal_wall(row, col) && spec_wants_variant(row, col)
}

/// The texture index a wall block shows, out of `total_len` textures (index
/// 0 is the base wallpaper): the base when there is no variation or the
/// block does not want one, the base also when the block above or the block
/// to the left is a `Normal` wall that wants one, and otherwise the variation
/// `1 + hash % (total_len - 1)`.
pub open spec fn spec_scatter_variant_index(row: usize, col: usize, total_len: usize) -> usize {
    if total_len <= 1 || !spec_wants_variant(row, col) {
        0
    } else if (row >= 1 && claims_variant((row - 1) as usize, col)) || (col >= 1 && claims_variant(
        row,
        (col - 1) as usize,
    )) {
        0
    } else {
        (1 + spec_hash_block(row as u64, col as u64) % ((total_len - 1) as u64)) as usize
    }
}

fn neighbor_claims_variant(row: usize, col: usize) -> (b: bool)
    ensures
        b == claims_variant(row, col),
{
    let is_normal = match zone_of_block(row, col) {
        Zone::Normal => true,
        Zone::Drip => false,
    };
    BlockMap::is_solid_idx(row as isize, col as isize) && is_normal && wants_variant(row, col)
}

/// Which of `total_len` wall textures to paint on the `Normal` zone block
/// (row, col): 0 is the base wallpaper, 1.. are its variations (see the
/// module documentation).
pub fn scatter_variant_index(row: usize, col: usize, total_len: usize) -> (idx: usize)
    ensures
        idx == spec_scatter_variant_index(row, col, total_len),
        idx == 0 || idx < total_len,
{
    if total_len <= 1 || !wants_variant(row, col) {
        return 0;
    }
    if row >= 1 && neighbor_claims_variant(row - 1, col) {
        return 0;
    }
    if col >= 1 && neighbor_claims_variant(row, col - 1) {
        return 0;
    }
    let variant_count = (total_len - 1) as u64;
    let h = hash_block(row as u64, col as u64);
    1 + (h % variant_count) as usize
}

/// Two `Normal` zone walls next to each other (vertically or horizontally)
/// never both show a variation.
pub proof fn lemma_variants_never_touch(row: usize, col: usize, total_len: usize)
    requires
        row < usize::MAX,
        col < usize::MAX,
    ensures
        is_normal_wall(row, col) && is_normal_wall((row + 1) as usize, col) ==> !(
        spec_scatter_variant_index(row, col, total_len) > 0 && spec_scatter_variant_index(
            (row + 1) as usize,
            col,
            total_len,
        ) > 0),
        is_normal_wall(row, col) && is_normal_wall(row, (col + 1) as usize) ==> !(
        spec_scatter_variant_index(row, col, total_len) > 0 && spec_scatter_variant_index(
            row,
            (col + 1) as usize,
            total_len,
        ) > 0),
{
}

/// Which walls show a variation: a block that wants one gets the variation
/// `1 + hash % (total_len - 1)` unless the block above or the block to its
/// left (the ones the scatter looks at, never the block below or to the
/// right) is a `Normal` wall that wants one. It shows the base wallpaper
/// exactly when there is no variation, it does not want one, or one of those
/// two neighbours claims one.
pub proof fn lemma_scatter_choice(row: usize, col: usize, total_len: usize)
    ensures
        total_len > 1 && spec_wants_variant(row, col) && !(row >= 1 && claims_variant(
            (row - 1) as usize,
            col,
        )) && !(col >= 1 && claims_variant(row, (col - 1) as usize)) ==> spec_scatter_variant_index(
            row,
            col,
            total_len,
        ) == 1 + spec_hash_block(row as u64, col as u64) % ((total_len - 1) as u64),
        (spec_scatter_variant_index(row, col, total_len) == 0) == (total_len <= 1 || !spec_wants_variant(
            row,
            col,
        ) || (row >= 1 && claims_variant((row - 1) as usize, col)) || (col >= 1 && claims_variant(
            row,
            (col - 1) as usize,
        ))),
{
}

// ---------------------------------------------------------------------------
// Textures sampled on the CPU
// ---------------------------------------------------------------------------

/// Offset of the first byte of pixel (x, y) in tightly packed RGB24 rows of
/// `w` pixels.
pub open spec fn pixel_offset(w: int, x: int, y: int) -> int {
    (y * w + x) * 3
}

/// Offset of byte `i` of row `y` in rows `pitch` bytes apart.
pub open spec fn row_offset(pitch: int, y: int, i: int) -> int {
    y * pitch + i
}

/// A texture held in memory as RGB24 pixels without row padding, so that the
/// floor casting can read it pixel by pixel.
pub struct PixelTexture {
    w: i32,
    h: i32,
    pixels: Vec<u8>,
}

impl PixelTexture {
    #[verifier::type_invariant]
    spec fn packed(self) -> bool {
        &&& self.w >= 0
        &&& self.h >= 0
        &&& self.pixels@.len() == self.w * self.h * 3
    }

    /// Width in pixels.
    pub closed spec fn spec_width(self) -> int {
        self.w as int
    }

    /// Height in pixels.
    pub closed spec fn spec_height(self) -> int {
        self.h as int
    }

    /// The pixel bytes, row after row, three bytes (R, G, B) per pixel.
    pub closed spec fn bytes(self) -> Seq<u8> {
        self.pixels@
    }

    /// Builds the texture from `h` rows of `w` RGB24 pixels that lie `pitch`
    /// bytes apart in `src` (the layout of a locked surface), dropping the
    /// padding at the end of each row.
    pub fn from_rgb24_rows(w: i32, h: i32, pitch: usize, src: &[u8]) -> (t: Self)
        requires
            w >= 0,
            h >= 0,
            w * 3 <= usize::MAX,
            w * h * 3 <= usize::MAX,
            h > 0 ==> (h - 1) * pitch + w * 3 <= src@.len(),
        ensures
            t.spec_width() == w,
            t.spec_height() == h,
            t.bytes().len() == w * h * 3,
            forall|x: int, y: int, k: int|
                0 <= x < w && 0 <= y < h && 0 <= k < 3 ==> t.bytes()[#[trigger] pixel_offset(
                    w as int,
                    x,
                    y,
                ) + k] == src@[#[trigger] row_offset(pitch as int, y, 3 * x + k)],
    {
        let src_len = src.len();
        let row_bytes = w as usize * 3;
        let rows = h as usize;
        proof {
            assert(row_bytes * rows == w * h * 3) by (nonlinear_arith)
                requires
                    row_bytes == w * 3,
                    rows == h,
            ;
        }
        let mut pixels: Vec<u8> = Vec::new();
        let mut y: usize = 0;
        while y < rows
            invariant
                row_bytes == w * 3,
                rows == h,
                src_len == src@.len(),
                row_bytes * rows == w * h * 3,
                row_bytes * rows <= usize::MAX,
                h > 0 ==> (h - 1) * pitch + w * 3 <= src@.len(),
                y <= rows,
                pixels@.len() == y * row_bytes,
                forall|yy: int, i: int|
                    0 <= yy < y && 0 <= i < row_bytes ==> pixels@[#[trigger] row_offset(
                        row_bytes as int,
                        yy,
                        i,
                    )] == src@[#[trigger] row_offset(pitch as int, yy, i)],
            decreases rows - y,
        {
            proof {
                assert(y * pitch + row_bytes <= src@.len()) by (nonlinear_arith)
                    requires
                        y < rows,
                        rows == h,
                        row_bytes == w * 3,
                        (h - 1) * pitch + w * 3 <= src@.len(),
                        pitch >= 0,
                ;
                assert((y + 1) * row_bytes <= row_bytes * rows) by (nonlinear_arith)
                    requires
                        y < rows,
                        row_bytes >= 0,
                ;
                assert((y + 1) * row_bytes == y * row_bytes + row_bytes) by (nonlinear_arith);
                assert(y * pitch <= src_len);
            }
            let start = y * pitch;
            let mut i: usize = 0;
            while i < row_bytes
                invariant
                    row_bytes == w * 3,
                    y < rows,
                    start == y * pitch,
                    src_len == src@.len(),
                    start + row_bytes <= src@.len(),
                    i <= row_bytes,
                    pixels@.len() == y * row_bytes + i,
                    (y + 1) * row_bytes <= usize::MAX,
                    (y + 1) * row_bytes == y * row_bytes + row_bytes,
                    forall|yy: int, j: int|
                        0 <= yy < y && 0 <= j < row_bytes ==> pixels@[#[trigger] row_offset(
                            row_bytes as int,
                            yy,
                            j,
                        )] == src@[#[trigger] row_offset(pitch as int, yy, j)],
                    forall|j: int|
                        0 <= j < i ==> pixels@[#[trigger] row_offset(row_bytes as int, y as int, j)]
                            == src@[row_offset(pitch as int, y as int, j)],
                decreases row_bytes - i,
            {
                let ghost before = pixels@;
                pixels.push(src[start + i]);
                proof {
                    assert forall|yy: int, j: int|
                        0 <= yy < y && 0 <= j < row_bytes implies pixels@[#[trigger] row_offset(
                            row_bytes as int,
                            yy,
                            j,
                        )] == src@[#[trigger] row_offset(pitch as int, yy, j)] by {
                        assert(row_offset(row_bytes as int, yy, j) < y * row_bytes) by (nonlinear_arith)
                            requires
                                0 <= yy < y,
                                0 <= j < row_bytes,
                        ;
                        assert(pixels@[row_offset(row_bytes as int, yy, j)] == before[row_offset(row_bytes as int, yy, j)]);
                    }
                    assert forall|j: int|
                        0 <= j < i + 1 implies pixels@[#[trigger] row_offset(row_bytes as int, y as int, j)]
                            == src@[row_offset(pitch as int, y as int, j)] by {
                        if j < i {
                            assert(pixels@[row_offset(row_bytes as int, y as int, j)] == before[row_offset(row_bytes as int, y as int, j)]);
                        }
                    }
                }
                i = i + 1;
            }
            proof {
                assert forall|yy: int, j: int|
                    0 <= yy < y + 1 && 0 <= j < row_bytes implies pixels@[#[trigger] row_offset(
                        row_bytes as int,
                        yy,
                        j,
                    )] == src@[#[trigger] row_offset(pitch as int, yy, j)] by {
                    if yy == y {
                        assert(pixels@[row_offset(row_bytes as int, y as int, j)] == src@[row_offset(pitch as int, y as int, j)]);
                    }
                }
            }
            y = y + 1;
        }
        proof {
            assert(y * row_bytes == row_bytes * rows) by (nonlinear_arith)
                requires
                    y == rows,
            ;
            assert forall|x: int, yy: int, k: int|
                0 <= x < w && 0 <= yy < h && 0 <= k < 3 implies pixels@[#[trigger] pixel_offset(
                    w as int,
                    x,
                    yy,
                ) + k] == src@[#[trigger] row_offset(pitch as int, yy, 3 * x + k)] by {
                assert(pixel_offset(w as int, x, yy) + k == row_offset(row_bytes as int, yy, 3 * x + k)) by (nonlinear_arith)
                    requires
                        row_bytes == w * 3,
                ;
                assert(pixels@[row_offset(row_bytes as int, yy, 3 * x + k)] == src@[row_offset(pitch as int, yy, 3 * x + k)]);
            }
        }
        PixelTexture { w, h, pixels }
    }

    /// Width in pixels.
    pub fn width(&self) -> (w: i32)
        ensures
            w == self.spec_width(),
            w >= 0,
    {
        proof {
            use_type_invariant(self);
        }
        self.w
    }

    /// Height in pixels.
    pub fn height(&self) -> (h: i32)
        ensures
            h == self.spec_height(),
            h >= 0,
    {
        proof {
            use_type_invariant(self);
        }
        self.h
    }

    /// Color (R, G, B) of pixel (tx, ty).
    pub fn texel(&self, tx: usize, ty: usize) -> (rgb: (u8, u8, u8))
        requires
            tx < self.spec_width(),
            ty < self.spec_height(),
        ensures
            rgb.0 == self.bytes()[pixel_offset(self.spec_width(), tx as int, ty as int)],
            rgb.1 == self.bytes()[pixel_offset(self.spec_width(), tx as int, ty as int) + 1],
            rgb.2 == self.bytes()[pixel_offset(self.spec_width(), tx as int, ty as int) + 2],
    {
        proof {
            use_type_invariant(self);
            assert(pixel_offset(self.w as int, tx as int, ty as int) + 2 < self.w * self.h * 3) by (nonlinear_arith)
                requires
                    0 <= tx < self.w,
                    0 <= ty < self.h,
            ;
            assert(ty * self.w <= pixel_offset(self.w as int, tx as int, ty as int)) by (nonlinear_arith)
                requires
                    0 <= tx,
                    0 <= ty,
                    0 <= self.w,
            ;
        }
        let n = self.pixels.len();
        assert(n == self.w * self.h * 3);
        let idx = (ty * self.w as usize + tx) * 3;
        (self.pixels[idx], self.pixels[idx + 1], self.pixels[idx + 2])
    }
}

} // verus!
