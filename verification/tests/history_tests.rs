use canvas_scan::history::History;
use canvas_scan::{Board, Pixel};

fn board_with(height: u64, cells: &[(usize, usize, u32, u32)]) -> Board {
    let mut b = Board::blank(height);
    for &(r, c, color, owner_id) in cells {
        b.pixels[r][c] = Pixel { color, owner_id };
    }
    b
}

#[test]
fn unchanged_state_is_not_recorded() {
    let mut h = History::new(board_with(10, &[]));
    h.record_if_changed(board_with(11, &[]));
    h.record_if_changed(board_with(12, &[]));
    assert_eq!(h.boards.len(), 1);
    assert_eq!(h.boards[0].block_height, 10);
}

#[test]
fn changed_state_is_recorded_once() {
    let cells = [(3usize, 4usize, 77u32, 1u32)];
    let mut h = History::new(board_with(10, &[]));
    h.record_if_changed(board_with(11, &cells));
    h.record_if_changed(board_with(12, &cells));
    assert_eq!(h.boards.len(), 2);
    assert_eq!(h.boards[1].block_height, 11);
}

#[test]
fn adjacent_entries_never_state_equal() {
    let mut h = History::new(board_with(0, &[]));
    let mut height = 1u64;
    for step in 0u32..8 {
        // Alternate between two states with some repeats in between.
        let cells = [(0usize, 0usize, step as u32 / 2, 1u32)];
        h.record_if_changed(board_with(height, &cells));
        h.record_if_changed(board_with(height + 1, &cells));
        height += 2;
    }
    for w in h.boards.windows(2) {
        assert!(!w[0].state_eq(&w[1]));
        assert!(w[0].block_height < w[1].block_height);
    }
    h.last_fetched_block = height;
    assert!(h.check_wf());
}

#[test]
fn check_wf_rejects_broken_logs() {
    let good = History::new(board_with(5, &[]));
    assert!(good.check_wf());

    let mut empty = History::new(board_with(5, &[]));
    empty.boards.clear();
    assert!(!empty.check_wf());

    let mut dup = History::new(board_with(5, &[]));
    dup.boards.push(board_with(6, &[]));
    dup.last_fetched_block = 6;
    assert!(!dup.check_wf());

    let mut backwards = History::new(board_with(5, &[]));
    backwards
        .boards
        .push(board_with(4, &[(0, 0, 1, 1)]));
    assert!(!backwards.check_wf());

    let mut stale_cursor = History::new(board_with(5, &[]));
    stale_cursor.boards.push(board_with(9, &[(0, 0, 1, 1)]));
    stale_cursor.last_fetched_block = 7;
    assert!(!stale_cursor.check_wf());
}
