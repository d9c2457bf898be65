use canvas_scan::render::{rgb_at, IMG_SCALE};
use canvas_scan::{Board, Pixel};

#[test]
fn blank_board_is_all_default() {
    let b = Board::blank(42);
    assert_eq!(b.block_height, 42);
    assert_eq!(b.pixels.len(), 50);
    for row in &b.pixels {
        assert_eq!(row.len(), 50);
        for p in row {
            assert_eq!(*p, Pixel::default());
        }
    }
}

#[test]
fn state_equality_ignores_height() {
    let a = Board::blank(1);
    let b = Board::blank(2);
    assert!(a.state_eq(&b));
    let mut c = Board::blank(1);
    c.pixels[49][49] = Pixel { color: 1, owner_id: 0 };
    assert!(!a.state_eq(&c));
}

#[test]
fn duplicate_copies_picture_and_height() {
    let mut a = Board::blank(9);
    a.pixels[10][20] = Pixel { color: 0xBEEF, owner_id: 4 };
    let d = a.duplicate();
    assert_eq!(d.block_height, 9);
    assert!(d.state_eq(&a));
    assert!(d.check_dims());
}

#[test]
fn check_dims_rejects_ragged_grids() {
    let mut b = Board::blank(1);
    assert!(b.check_dims());
    b.pixels[7].pop();
    assert!(!b.check_dims());
    let mut short = Board::blank(1);
    short.pixels.pop();
    assert!(!short.check_dims());
}

#[test]
fn rgb_unpacks_color_channels() {
    let mut b = Board::blank(0);
    b.pixels[0][0] = Pixel { color: 0xFF0000, owner_id: 7 };
    b.pixels[0][1] = Pixel { color: 0x010203, owner_id: 7 };
    assert_eq!(rgb_at(&b, 0, 0, IMG_SCALE), (255, 0, 0));
    // Image pixels 11..=21 on the x axis map to canvas cell (0, 1).
    assert_eq!(rgb_at(&b, 11, 0, IMG_SCALE), (1, 2, 3));
    assert_eq!(rgb_at(&b, 21, 10, IMG_SCALE), (1, 2, 3));
    assert_eq!(rgb_at(&b, 22, 0, IMG_SCALE), (0, 0, 0));
    // The far corner maps to the far cell.
    assert_eq!(rgb_at(&b, 50 * IMG_SCALE - 1, 50 * IMG_SCALE - 1, IMG_SCALE), (0, 0, 0));
}
