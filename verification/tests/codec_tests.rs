use canvas_scan::codec::{decode_history, encode_history};
use canvas_scan::history::History;
use canvas_scan::scanner::scan_with_source;
use canvas_scan::{Board, Pixel};

fn board_with(height: u64, cells: &[(usize, usize, u32, u32)]) -> Board {
    let mut b = Board::blank(height);
    for &(r, c, color, owner_id) in cells {
        b.pixels[r][c] = Pixel { color, owner_id };
    }
    b
}

fn same_history(a: &History, b: &History) -> bool {
    a.last_fetched_block == b.last_fetched_block
        && a.boards.len() == b.boards.len()
        && a.boards.iter().zip(b.boards.iter()).all(|(x, y)| {
            x.block_height == y.block_height && x.state_eq(y)
        })
}

#[test]
fn checkpoint_round_trip() {
    let mut h = History::new(board_with(100, &[]));
    h.record_if_changed(board_with(160, &[(0, 0, 0xFF0000, 7)]));
    h.last_fetched_block = 220;
    let bytes = encode_history(&h);
    let back = decode_history(&bytes).expect("well-formed checkpoint must parse");
    assert!(same_history(&h, &back));
    assert!(back.check_wf());
}

#[test]
fn checkpoint_byte_layout() {
    let mut h = History::new(board_with(0x0102030405060708, &[(0, 0, 0xAABBCCDD, 5)]));
    h.last_fetched_block = 0x1122334455667788;
    let bytes = encode_history(&h);
    // Board count, row count, first pixel count, little-endian.
    assert_eq!(&bytes[0..4], &[1, 0, 0, 0]);
    assert_eq!(&bytes[4..8], &[50, 0, 0, 0]);
    assert_eq!(&bytes[8..12], &[50, 0, 0, 0]);
    // First pixel: color then owner, little-endian u32 each.
    assert_eq!(&bytes[12..16], &[0xDD, 0xCC, 0xBB, 0xAA]);
    assert_eq!(&bytes[16..20], &[5, 0, 0, 0]);
    // One board: count + 50 rows of (count + 50 * 8 bytes) + height, then the
    // trailing cursor.
    let board_len = 4 + 50 * (4 + 50 * 8) + 8;
    assert_eq!(bytes.len(), 4 + board_len + 8);
    // The observed height sits at the end of the board, little-endian u64.
    let hpos = 4 + board_len - 8;
    assert_eq!(
        &bytes[hpos..hpos + 8],
        &[0x08, 0x07, 0x06, 0x05, 0x04, 0x03, 0x02, 0x01]
    );
    assert_eq!(
        &bytes[bytes.len() - 8..],
        &[0x88, 0x77, 0x66, 0x55, 0x44, 0x33, 0x22, 0x11]
    );
}

#[test]
fn corrupt_checkpoint_is_rejected() {
    let h = History::new(board_with(100, &[]));
    let bytes = encode_history(&h);
    let mut truncated = bytes.clone();
    truncated.pop();
    assert!(decode_history(&truncated).is_none());
    let mut extended = bytes.clone();
    extended.push(0);
    assert!(decode_history(&extended).is_none());
    let mut bad_count = bytes.clone();
    bad_count[0] = 2;
    assert!(decode_history(&bad_count).is_none());
}

#[test]
fn resumed_scan_equals_single_scan() {
    // Scanning [101, 220] in one run records the same sequence as scanning
    // [101, k], checkpointing, and resuming [k + 1, 220] from the loaded
    // checkpoint, for several split points.
    let cells = [(4usize, 9usize, 0x00FFAAu32, 2u32)];
    let mut source = Vec::new();
    for h in 100u64..=220 {
        if h >= 160 {
            source.push(board_with(h, &cells));
        } else {
            source.push(board_with(h, &[]));
        }
    }
    let single = scan_with_source(History::new(board_with(100, &[])), 220, &source, 100);
    for k in [101u64, 130, 159, 160, 161, 219] {
        let first = scan_with_source(History::new(board_with(100, &[])), k, &source, 100);
        let bytes = encode_history(&first);
        let loaded = decode_history(&bytes).expect("checkpoint must parse");
        assert!(loaded.check_wf());
        let resumed = scan_with_source(loaded, 220, &source, 100);
        assert!(same_history(&single, &resumed), "split at {k}");
    }
}
