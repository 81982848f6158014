use raycaster_horror::map::{zone_of_block, BlockMap, Zone, BLOCK_SIZE};
use raycaster_horror::render::walls::{hash_block, scatter_variant_index, wants_variant, PixelTexture};

#[test]
fn hash_values() {
    assert_eq!(hash_block(0, 0), 4233148493373801447);
    assert_eq!(hash_block(1, 0), 17939916851854735301);
    assert_eq!(hash_block(0, 1), 5382815884867864460);
    assert_eq!(hash_block(3, 7), 2349701848154210414);
    assert_eq!(hash_block(20, 20), 11891855221027264046);
    // the same block always hashes the same
    assert_eq!(hash_block(12, 5), hash_block(12, 5));
}

#[test]
fn wanting_a_variant() {
    assert!(!wants_variant(0, 0));
    assert!(wants_variant(1, 0));
    assert!(wants_variant(0, 1));
    assert!(wants_variant(3, 7));
    assert!(!wants_variant(20, 20));
    assert!(wants_variant(12, 5));
}

#[test]
fn scatter_indices() {
    assert_eq!(scatter_variant_index(0, 0, 4), 0);
    assert_eq!(scatter_variant_index(0, 1, 4), 3);
    assert_eq!(scatter_variant_index(0, 2, 4), 0);
    assert_eq!(scatter_variant_index(1, 0, 4), 3);
    assert_eq!(scatter_variant_index(2, 0, 4), 0);
    assert_eq!(scatter_variant_index(3, 7, 4), 3);
    assert_eq!(scatter_variant_index(12, 5, 4), 0);
    assert_eq!(scatter_variant_index(20, 20, 4), 0);
}

#[test]
fn no_variants_without_variant_textures() {
    for r in 0..BLOCK_SIZE {
        for c in 0..BLOCK_SIZE {
            assert_eq!(scatter_variant_index(r, c, 0), 0);
            assert_eq!(scatter_variant_index(r, c, 1), 0);
            assert!(scatter_variant_index(r, c, 5) < 5);
        }
    }
}

fn normal_wall(r: usize, c: usize) -> bool {
    BlockMap::is_solid_idx(r as isize, c as isize) && zone_of_block(r, c) == Zone::Normal
}

#[test]
fn variants_never_touch() {
    let mut variants = 0;
    for r in 0..BLOCK_SIZE {
        for c in 0..BLOCK_SIZE {
            let here = scatter_variant_index(r, c, 4);
            if normal_wall(r, c) && here > 0 {
                variants += 1;
                if r + 1 < BLOCK_SIZE && normal_wall(r + 1, c) {
                    assert_eq!(scatter_variant_index(r + 1, c, 4), 0, "({r}, {c}) below");
                }
                if c + 1 < BLOCK_SIZE && normal_wall(r, c + 1) {
                    assert_eq!(scatter_variant_index(r, c + 1, 4), 0, "({r}, {c}) right");
                }
            }
        }
    }
    assert!(variants > 0);
}

#[test]
fn texture_rows_drop_padding() {
    // 2x2 pixels, rows 8 bytes apart (2 bytes of padding each)
    let src: Vec<u8> = vec![
        1, 2, 3, 4, 5, 6, 99, 99, //
        7, 8, 9, 10, 11, 12, 99, 99,
    ];
    let t = PixelTexture::from_rgb24_rows(2, 2, 8, &src);
    assert_eq!(t.width(), 2);
    assert_eq!(t.height(), 2);
    assert_eq!(t.texel(0, 0), (1, 2, 3));
    assert_eq!(t.texel(1, 0), (4, 5, 6));
    assert_eq!(t.texel(0, 1), (7, 8, 9));
    assert_eq!(t.texel(1, 1), (10, 11, 12));
}

#[test]
fn texture_last_row_needs_no_padding() {
    let src: Vec<u8> = vec![1, 2, 3, 0, 4, 5, 6];
    let t = PixelTexture::from_rgb24_rows(1, 2, 4, &src);
    assert_eq!(t.texel(0, 0), (1, 2, 3));
    assert_eq!(t.texel(0, 1), (4, 5, 6));
}

#[test]
fn empty_texture() {
    let t = PixelTexture::from_rgb24_rows(0, 0, 0, &[]);
    assert_eq!(t.width(), 0);
    assert_eq!(t.height(), 0);
}
