use canvas_scan::history::History;
use canvas_scan::scanner::{scan_whole_equals_split, scan_with_source, Scanner, FAST_JUMP_SIZE};
use canvas_scan::{Board, Pixel};

fn board_with(height: u64, cells: &[(usize, usize, u32, u32)]) -> Board {
    let mut b = Board::blank(height);
    for &(r, c, color, owner_id) in cells {
        b.pixels[r][c] = Pixel { color, owner_id };
    }
    b
}

/// Heights `base..=last`, all default except that from `change_at` on the
/// given cells are set.
fn stepped_source(
    base: u64,
    last: u64,
    change_at: u64,
    cells: &[(usize, usize, u32, u32)],
) -> Vec<Board> {
    let mut v = Vec::new();
    for h in base..=last {
        if h >= change_at {
            v.push(board_with(h, cells));
        } else {
            v.push(board_with(h, &[]));
        }
    }
    v
}

fn recorded_pairs(h: &History) -> Vec<(u64, Vec<Vec<Pixel>>)> {
    h.boards
        .iter()
        .map(|b| (b.block_height, b.pixels.clone()))
        .collect()
}

/// A plain height-by-height reference scan: fetch everything, record changes.
fn linear_reference(mut history: History, source: &[Board], base: u64, final_height: u64) -> History {
    let mut h = history.last_fetched_block + 1;
    while h <= final_height {
        let b = source[(h - base) as usize].duplicate();
        history.record_if_changed(b);
        history.last_fetched_block = h;
        h += 1;
    }
    history
}

#[test]
fn concrete_scenario_one_change() {
    // Genesis at 100, all default; 160 paints (0,0) red with owner 7;
    // everything else unchanged through 220.
    assert_eq!(FAST_JUMP_SIZE, 60);
    let cells = [(0usize, 0usize, 0xFF0000u32, 7u32)];
    let source = stepped_source(100, 220, 160, &cells);
    let genesis = board_with(100, &[]);
    let history = History::new(genesis);

    let mut scanner = Scanner::new(history, 220);
    let mut fetches = 0u32;
    let mut prev_cursor = 100u64;
    while let Some(h) = scanner.next_height() {
        fetches += 1;
        let b = source[(h - 100) as usize].duplicate();
        scanner.on_fetch(Some(b));
        // The cursor never moves backwards.
        assert!(scanner.history.last_fetched_block >= prev_cursor);
        prev_cursor = scanner.history.last_fetched_block;
    }
    let result = scanner.history;

    assert_eq!(result.boards.len(), 2);
    assert_eq!(result.boards[0].block_height, 100);
    assert_eq!(result.boards[1].block_height, 160);
    assert!(result.boards[1].state_eq(&board_with(160, &cells)));
    assert_eq!(result.last_fetched_block, 220);
    // At most 2 jump probes plus a linear window for the change plus a linear
    // window for the tail.
    assert!(fetches <= 2 + 60 + 60);
}

#[test]
fn jump_scan_matches_linear_scan() {
    // Constant over a stretch with exactly one change inside: the jump scan
    // and a plain linear scan record identical (height, state) pairs.
    let cells = [(7usize, 3usize, 0x00FF00u32, 11u32)];
    for change_at in [301u64, 333, 360, 399, 400] {
        let source = stepped_source(300, 400, change_at, &cells);
        let jumped = scan_with_source(History::new(board_with(300, &[])), 400, &source, 300);
        let linear = linear_reference(History::new(board_with(300, &[])), &source, 300, 400);
        assert_eq!(recorded_pairs(&jumped), recorded_pairs(&linear));
        assert_eq!(jumped.last_fetched_block, linear.last_fetched_block);
    }
}

#[test]
fn whole_and_split_scans_agree() {
    let cells = [(5usize, 5usize, 0x336699u32, 8u32)];
    let source = stepped_source(100, 220, 160, &cells);
    for k in [120u64, 159, 160, 200] {
        let history = History::new(board_with(100, &[]));
        let (whole, split) = scan_whole_equals_split(history, k, 220, &source, 100, 160);
        assert_eq!(whole.boards.len(), split.boards.len());
        for (a, b) in whole.boards.iter().zip(split.boards.iter()) {
            assert_eq!(a.block_height, b.block_height);
            assert!(a.state_eq(b));
        }
        assert_eq!(whole.last_fetched_block, 220);
        assert_eq!(split.last_fetched_block, 220);
    }
}

#[test]
fn unavailable_heights_are_skipped() {
    // A height that never answers is passed over; the cursor still reaches
    // the end and nothing is recorded for it.
    let cells = [(1usize, 1usize, 0x123456u32, 9u32)];
    let source = stepped_source(500, 540, 520, &cells);
    let mut scanner = Scanner::new(History::new(board_with(500, &[])), 540);
    while let Some(h) = scanner.next_height() {
        if h == 520 {
            scanner.on_fetch(None);
        } else {
            scanner.on_fetch(Some(source[(h - 500) as usize].duplicate()));
        }
    }
    let result = scanner.history;
    // The change is still seen at 521, the first reachable changed height.
    assert_eq!(result.boards.len(), 2);
    assert_eq!(result.boards[1].block_height, 521);
    assert_eq!(result.last_fetched_block, 540);
}

#[test]
fn cancellation_preserves_progress() {
    // Stopping the drive loop midway loses nothing that was recorded.
    let cells = [(2usize, 2usize, 0xABCDEFu32, 3u32)];
    let source = stepped_source(100, 220, 110, &cells);
    let mut scanner = Scanner::new(History::new(board_with(100, &[])), 220);
    let mut steps = 0;
    while let Some(h) = scanner.next_height() {
        if steps >= 20 {
            break;
        }
        scanner.on_fetch(Some(source[(h - 100) as usize].duplicate()));
        steps += 1;
    }
    let result = scanner.history;
    assert!(result.check_wf());
    assert_eq!(result.boards.len(), 2);
    assert_eq!(result.boards[1].block_height, 110);
    assert!(result.last_fetched_block >= 110);
}
