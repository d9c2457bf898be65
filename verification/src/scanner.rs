use vstd::prelude::*;

verus! {

use crate::canvas::Board;
use crate::history::History;

/// How far ahead of the cursor the jump probe looks.
pub const FAST_JUMP_SIZE: u64 = 60;

/// The change-detecting scanner, driven one fetch at a time: `next_height`
/// names the height to fetch, `on_fetch` digests the result. The caller (the
/// process around the library) performs the fetches and may stop between any
/// two steps; the history stays well formed at every step.
///
/// Each round first probes `FAST_JUMP_SIZE` ahead of the cursor; a probe that
/// comes back state-equal to the last recorded board skips the whole stretch.
/// This deliberately assumes that an unchanged probe means an unchanged
/// stretch: a change that reverts to the identical state inside one window is
/// not seen. Otherwise the round falls back to scanning each height linearly,
/// stopping early once the probe's board has been reached.
pub struct Scanner {
    pub history: History,
    /// Next height to examine.
    pub cursor: u64,
    /// Inclusive upper bound of the scan.
    pub final_height: u64,
    /// The pending fetch is the jump probe at `jump_target`; otherwise it is
    /// the linear fetch at `cursor`.
    pub probing: bool,
    /// Upper bound of the current round.
    pub jump_target: u64,
    /// The differing board a probe returned, if any: linear scanning stops
    /// early once the last recorded board equals it.
    pub hint: Option<Board>,
}

impl Scanner {
    /// The scan is complete: every height up to `final_height` was examined.
    pub open spec fn done(&self) -> bool {
        self.cursor > self.final_height
    }

    /// The fields a freshly started round has.
    pub open spec fn in_new_round(&self) -> bool {
        &&& self.jump_target == self.cursor + FAST_JUMP_SIZE
        &&& self.hint is None
        &&& self.probing == (self.cursor + FAST_JUMP_SIZE <= self.final_height)
    }

    pub open spec fn wf(&self) -> bool {
        &&& self.history.wf()
        &&& self.final_height <= u64::MAX - FAST_JUMP_SIZE - 1
        &&& self.cursor == self.history.last_fetched_block + 1
        &&& self.cursor <= u64::MAX - FAST_JUMP_SIZE
        &&& !self.done() && self.probing ==> {
            &&& self.jump_target == self.cursor + FAST_JUMP_SIZE
            &&& self.jump_target <= self.final_height
            &&& self.hint is None
        }
        &&& !self.done() && !self.probing ==> {
            &&& self.cursor <= self.jump_target
            &&& (self.hint is Some ==> self.jump_target <= self.final_height)
        }
    }

    /// The height the next fetch must ask for.
    pub open spec fn spec_pending(&self) -> u64 {
        if self.probing {
            self.jump_target
        } else {
            self.cursor
        }
    }

    /// Strictly decreases with every step: the scan terminates.
    pub open spec fn measure(&self) -> int {
        if self.done() {
            0
        } else {
            2 * (self.final_height - self.cursor + 1) + if self.probing {
                1int
            } else {
                0int
            }
        }
    }

    /// Starts a scanner at the height after the last one the history has
    /// already examined.
    pub fn new(history: History, final_height: u64) -> (s: Scanner)
        requires
            history.wf(),
            history.last_fetched_block <= u64::MAX - FAST_JUMP_SIZE - 1,
            final_height <= u64::MAX - FAST_JUMP_SIZE - 1,
        ensures
            s.wf(),
            s.history == history,
            s.final_height == final_height,
            s.cursor == history.last_fetched_block + 1,
            s.in_new_round(),
    {
        let cursor = history.last_fetched_block + 1;
        let mut s = Scanner {
            history,
            cursor,
            final_height,
            probing: false,
            jump_target: cursor,
            hint: None,
        };
        s.begin_round();
        s
    }

    /// Opens a fresh round at the current cursor: probe where a full jump
    /// still fits below `final_height`, plain linear scanning otherwise.
    fn begin_round(&mut self)
        requires
            old(self).cursor <= u64::MAX - FAST_JUMP_SIZE,
        ensures
            final(self).history == old(self).history,
            final(self).cursor == old(self).cursor,
            final(self).final_height == old(self).final_height,
            final(self).in_new_round(),
    {
        let jt = self.cursor + FAST_JUMP_SIZE;
        self.jump_target = jt;
        self.hint = None;
        self.probing = jt <= self.final_height;
    }

    /// Which height to fetch next, or nothing: the scan is complete.
    pub fn next_height(&self) -> (r: Option<u64>)
        requires
            self.wf(),
        ensures
            r == if self.done() {
                None::<u64>
            } else {
                Some(self.spec_pending())
            },
            r matches Some(h) ==> h <= self.final_height && h > self.history.last_fetched_block,
    {
        if self.cursor > self.final_height {
            None
        } else if self.probing {
            Some(self.jump_target)
        } else {
            Some(self.cursor)
        }
    }

    /// Digests the result of fetching `spec_pending()`: either a board of full
    /// dimensions observed at exactly that height, or nothing (the height was
    /// unavailable; the scanner skips it and keeps going).
    pub fn on_fetch(&mut self, fetched: Option<Board>)
        requires
            old(self).wf(),
            !old(self).done(),
            fetched matches Some(b) ==> b.wf_dims() && b.block_height == old(self).spec_pending(),
        ensures
            final(self).wf(),
            final(self).final_height == old(self).final_height,
            final(self).measure() < old(self).measure(),
            final(self).history.last_fetched_block >= old(self).history.last_fetched_block,
            final(self).history.last_fetched_block <= old(self).final_height,
            old(self).history.boards@.is_prefix_of(final(self).history.boards@),
            old(self).probing ==> match fetched {
                Some(b) => if b.state_equal(&old(self).history.boards@.last()) {
                    &&& final(self).history.boards@ == old(self).history.boards@
                    &&& final(self).history.last_fetched_block == old(self).jump_target
                    &&& final(self).cursor == old(self).jump_target + 1
                    &&& final(self).in_new_round()
                } else {
                    &&& final(self).history == old(self).history
                    &&& final(self).cursor == old(self).cursor
                    &&& !final(self).probing
                    &&& final(self).jump_target == old(self).jump_target
                    &&& final(self).hint == Some(b)
                },
                None => {
                    &&& final(self).history == old(self).history
                    &&& final(self).cursor == old(self).cursor
                    &&& !final(self).probing
                    &&& final(self).jump_target == old(self).jump_target
                    &&& final(self).hint is None
                },
            },
            !old(self).probing ==> ({
                let t = old(self).jump_target;
                let lin_end: int = if t < old(self).final_height {
                    t as int
                } else {
                    old(self).final_height as int
                };
                match fetched {
                    Some(b) => {
                        &&& (!b.state_equal(&old(self).history.boards@.last())
                            ==> final(self).history.boards@ == old(self).history.boards@.push(b))
                        &&& (b.state_equal(&old(self).history.boards@.last())
                            ==> final(self).history.boards@ == old(self).history.boards@)
                        &&& ({
                            let hint0 = old(self).hint;
                            let early = hint0 is Some
                                && final(self).history.boards@.last().state_equal(&hint0->Some_0);
                            if early {
                                &&& final(self).cursor == t + 1
                                &&& final(self).history.last_fetched_block == t
                                &&& final(self).in_new_round()
                            } else {
                                &&& final(self).cursor == old(self).cursor + 1
                                &&& final(self).history.last_fetched_block == old(self).cursor
                                &&& (final(self).cursor <= lin_end ==> !final(self).probing
                                    && final(self).jump_target == t
                                    && final(self).hint == hint0)
                                &&& (final(self).cursor > lin_end ==> final(self).in_new_round())
                            }
                        })
                    },
                    None => {
                        &&& final(self).history.boards@ == old(self).history.boards@
                        &&& final(self).cursor == old(self).cursor + 1
                        &&& final(self).history.last_fetched_block == old(self).cursor
                        &&& (final(self).cursor <= lin_end ==> !final(self).probing
                            && final(self).jump_target == t
                            && final(self).hint == old(self).hint)
                        &&& (final(self).cursor > lin_end ==> final(self).in_new_round())
                    },
                }
            }),
    {
        if self.probing {
            let t = self.jump_target;
            match fetched {
                Some(b) => {
                    let same = self.history.last_board().state_eq(&b);
                    if same {
                        self.history.last_fetched_block = t;
                        self.cursor = t + 1;
                        self.begin_round();
                    } else {
                        self.probing = false;
                        self.hint = Some(b);
                    }
                },
                None => {
                    self.probing = false;
                },
            }
        } else {
            let t = self.jump_target;
            match fetched {
                Some(b) => {
                    let ghost old_boards = self.history.boards@;
                    self.history.record_if_changed(b);
                    proof {
                        assert(old_boards.is_prefix_of(self.history.boards@)) by {
                            assert(self.history.boards@.subrange(0, old_boards.len() as int)
                                =~= old_boards);
                        }
                    }
                    let early = match &self.hint {
                        Some(hb) => self.history.last_board().state_eq(hb),
                        None => false,
                    };
                    if early {
                        self.history.last_fetched_block = t;
                        self.cursor = t + 1;
                        self.begin_round();
                    } else {
                        self.history.last_fetched_block = self.cursor;
                        self.cursor = self.cursor + 1;
                        let lin_end = if t < self.final_height {
                            t
                        } else {
                            self.final_height
                        };
                        if self.cursor > lin_end {
                            self.begin_round();
                        }
                    }
                },
                None => {
                    self.history.last_fetched_block = self.cursor;
                    self.cursor = self.cursor + 1;
                    let lin_end = if t < self.final_height {
                        t
                    } else {
                        self.final_height
                    };
                    if self.cursor > lin_end {
                        self.begin_round();
                    }
                },
            }
        }
    }
}

/// A synthetic fetch source: `source[i]` is the canvas as observed at height
/// `base + i`, of full dimensions, and every height up to `final_height` is
/// covered.
pub open spec fn source_covers(source: Seq<Board>, base: u64, final_height: u64) -> bool {
    &&& base + source.len() > final_height
    &&& forall|i: int| 0 <= i < source.len() ==> (#[trigger] source[i]).wf_dims()
    &&& forall|i: int| 0 <= i < source.len() ==> (#[trigger] source[i]).block_height == base + i
}

/// The canvas the source shows changes exactly once, at height `c`: before it
/// every state equals `last` (the last recorded board), from it on every state
/// equals the state at `c`, and the two differ.
pub open spec fn single_change_at(source: Seq<Board>, base: u64, c: u64, last: Board) -> bool {
    &&& base <= c
    &&& c - base < source.len()
    &&& !source[c - base].state_equal(&last)
    &&& forall|i: int|
        0 <= i < source.len() && base + i < c ==> (#[trigger] source[i]).state_equal(&last)
    &&& forall|i: int|
        0 <= i < source.len() && base + i >= c ==> (#[trigger] source[i]).state_equal(
            &source[c - base],
        )
}

/// Runs a whole scan against an in-memory fetch source on which every height
/// answers. The result extends the given history, stays well formed (heights
/// strictly increase, no two adjacent boards state-equal), and its cursor
/// rests exactly on `final_height`.
///
/// A source that never differs from the last recorded board adds nothing;
/// every added board shows a state the source really has at that height; and
/// on a source with exactly one change inside the scanned range, the scan
/// records exactly that change, at its exact height — what a full linear scan
/// would record.
pub fn scan_with_source(
    history: History,
    final_height: u64,
    source: &Vec<Board>,
    base: u64,
) -> (h: History)
    requires
        history.wf(),
        history.last_fetched_block <= final_height,
        base <= history.last_fetched_block + 1,
        final_height <= u64::MAX - FAST_JUMP_SIZE - 1,
        source_covers(source@, base, final_height),
    ensures
        h.wf(),
        history.boards@.is_prefix_of(h.boards@),
        h.last_fetched_block == final_height,
        (forall|i: int|
            0 <= i < source@.len() && history.last_fetched_block < base + i <= final_height
                ==> (#[trigger] source@[i]).state_equal(&history.boards@.last())) ==> h.boards@
            == history.boards@,
        forall|k: int|
            history.boards@.len() <= k < h.boards@.len() ==> {
                let b = #[trigger] h.boards@[k];
                &&& history.last_fetched_block < b.block_height <= final_height
                &&& base <= b.block_height
                &&& b.state_equal(&source@[b.block_height - base])
            },
        forall|c: u64|
            #[trigger] single_change_at(source@, base, c, history.boards@.last())
                && history.last_fetched_block < c <= final_height ==> {
                &&& h.boards@.len() == history.boards@.len() + 1
                &&& h.boards@.last().block_height == c
                &&& h.boards@.last().state_equal(&source@[c - base])
            },
{
    let ghost history0 = history;
    let mut scanner = Scanner::new(history, final_height);
    proof {
        assert(history0.boards@.subrange(0, history0.boards@.len() as int) =~= history0.boards@);
    }
    loop
        invariant
            scanner.wf(),
            scanner.final_height == final_height,
            source_covers(source@, base, final_height),
            base <= scanner.history.last_fetched_block + 1,
            scanner.history.last_fetched_block <= final_height,
            scanner.history.last_fetched_block >= history0.last_fetched_block,
            history0 == history,
            history0.boards@.is_prefix_of(scanner.history.boards@),
            (forall|i: int|
                0 <= i < source@.len() && history0.last_fetched_block < base + i <= final_height
                    ==> (#[trigger] source@[i]).state_equal(&history0.boards@.last()))
                ==> scanner.history.boards@ == history0.boards@,
            forall|k: int|
                history0.boards@.len() <= k < scanner.history.boards@.len() ==> {
                    let b = #[trigger] scanner.history.boards@[k];
                    &&& history0.last_fetched_block < b.block_height <= final_height
                    &&& base <= b.block_height
                    &&& b.state_equal(&source@[b.block_height - base])
                },
            forall|c: u64|
                #[trigger] single_change_at(source@, base, c, history0.boards@.last())
                    && history0.last_fetched_block < c <= final_height ==> if scanner.cursor <= c {
                    &&& scanner.history.boards@ == history0.boards@
                    &&& (!scanner.probing ==> (scanner.hint matches Some(hb) ==> hb.state_equal(
                        &source@[c - base],
                    ) && scanner.jump_target >= c))
                } else {
                    &&& scanner.history.boards@.len() == history0.boards@.len() + 1
                    &&& scanner.history.boards@.last().block_height == c
                    &&& scanner.history.boards@.last().state_equal(&source@[c - base])
                },
        decreases scanner.measure(),
    {
        let next = scanner.next_height();
        match next {
            None => {
                return scanner.history;
            },
            Some(hh) => {
                assert(base <= hh);
                let n = source.len();
                assert(hh - base < n);
                let idx = (hh - base) as usize;
                assert(idx == hh - base);
                let b = source[idx].duplicate();
                assert(source@[idx as int].wf_dims());
                assert(b.wf_dims());
                assert(b.block_height == hh);
                let ghost mid = scanner.history.boards@;
                scanner.on_fetch(Some(b));
                proof {
                    lemma_prefix_transitive(history0.boards@, mid, scanner.history.boards@);
                }
            },
        }
    }
}

/// Idempotent resumability, on a source with exactly one change inside the
/// scanned range: scanning the whole range in one run records the same
/// sequence of (height, state) pairs, and ends on the same cursor, as
/// scanning up to a split point `k` and then resuming the rest from the
/// history the first run left behind.
#[verifier::rlimit(100)]
pub fn scan_whole_equals_split(
    history: History,
    k: u64,
    final_height: u64,
    source: &Vec<Board>,
    base: u64,
    c: u64,
) -> (pair: (History, History))
    requires
        history.wf(),
        base <= history.last_fetched_block + 1,
        history.last_fetched_block <= k <= final_height,
        final_height <= u64::MAX - FAST_JUMP_SIZE - 1,
        source_covers(source@, base, final_height),
        single_change_at(source@, base, c, history.boards@.last()),
        history.last_fetched_block < c <= final_height,
    ensures
        pair.0.last_fetched_block == final_height,
        pair.1.last_fetched_block == final_height,
        pair.0.boards@.len() == pair.1.boards@.len(),
        forall|i: int|
            0 <= i < pair.0.boards@.len() ==> {
                &&& (#[trigger] pair.0.boards@[i]).block_height == pair.1.boards@[i].block_height
                &&& pair.0.boards@[i].state_equal(&pair.1.boards@[i])
            },
        pair.0.wf(),
        pair.1.wf(),
        pair.0.boards@.len() == history.boards@.len() + 1,
        pair.0.boards@.last().block_height == c,
        pair.0.boards@.last().state_equal(&source@[c - base]),
        pair.1.boards@.last().block_height == c,
        pair.1.boards@.last().state_equal(&source@[c - base]),
        forall|i: int|
            0 <= i < history.boards@.len() ==> {
                &&& (#[trigger] pair.0.boards@[i]).block_height == history.boards@[i].block_height
                &&& pair.0.boards@[i].state_equal(&history.boards@[i])
                &&& pair.1.boards@[i].block_height == history.boards@[i].block_height
                &&& pair.1.boards@[i].state_equal(&history.boards@[i])
            },
{
    let ghost len0 = history.boards@.len() as int;
    let copy1 = history.duplicate();
    let copy2 = history.duplicate();
    proof {
        assert(single_change_at(source@, base, c, copy1.boards@.last()));
        assert(single_change_at(source@, base, c, copy2.boards@.last()));
    }
    let ghost copy1g = copy1;
    let ghost copy2g = copy2;
    let whole = scan_with_source(copy1, final_height, source, base);
    let part1 = scan_with_source(copy2, k, source, base);
    proof {
        if c > k {
            assert(part1.boards@ == copy2g.boards@);
        } else {
            assert(part1.boards@.len() == len0 + 1);
        }
        assert(part1.wf());
        if c <= k {
            assert(single_change_at(source@, base, c, copy2g.boards@.last()));
        } else {
            assert(single_change_at(source@, base, c, part1.boards@.last()));
        }
    }
    let ghost part1g = part1;
    let part2 = scan_with_source(part1, final_height, source, base);
    proof {
        if c <= k {
            // The change is already recorded; the resumed stretch is unchanged.
            assert(part1g.boards@.last().state_equal(&source@[c - base]));
            assert forall|i: int|
                0 <= i < source@.len() && part1g.last_fetched_block < base + i
                    <= final_height implies (#[trigger] source@[i]).state_equal(
                &part1g.boards@.last(),
            ) by {
                assert(base + i > k);
                assert(source@[i].state_equal(&source@[c - base]));
            }
            assert(part2.boards@ == part1g.boards@);
        } else {
            assert(part2.boards@.len() == len0 + 1);
        }
        assert(whole.boards@.len() == len0 + 1);
        assert(part2.boards@.len() == len0 + 1);
        assert forall|i: int| 0 <= i < whole.boards@.len() implies (
        #[trigger] whole.boards@[i]).block_height == part2.boards@[i].block_height
            && whole.boards@[i].state_equal(&part2.boards@[i]) by {
            if i < len0 {
                assert(whole.boards@[i] == copy1g.boards@.subrange(0, len0)[i]);
                assert(copy1g.boards@[i].grid() == history.boards@[i].grid());
                if c <= k {
                    assert(part2.boards@[i] == part1g.boards@[i]);
                    assert(part1g.boards@[i] == copy2g.boards@.subrange(0, len0)[i]);
                } else {
                    assert(part1g.boards@ == copy2g.boards@);
                    assert(part2.boards@[i] == copy2g.boards@.subrange(0, len0)[i]);
                }
                assert(copy2g.boards@[i].grid() == history.boards@[i].grid());
            } else {
                assert(whole.boards@[i] == whole.boards@.last());
                assert(part2.boards@[i] == part2.boards@.last());
                assert(whole.boards@.last().state_equal(&source@[c - base]));
                assert(part2.boards@.last().state_equal(&source@[c - base]));
            }
        }
        assert forall|i: int| 0 <= i < len0 implies (#[trigger] whole.boards@[i]).block_height
            == history.boards@[i].block_height && whole.boards@[i].state_equal(
            &history.boards@[i],
        ) && part2.boards@[i].block_height == history.boards@[i].block_height
            && part2.boards@[i].state_equal(&history.boards@[i]) by {
            assert(whole.boards@[i] == copy1g.boards@.subrange(0, len0)[i]);
            assert(copy1g.boards@[i].grid() == history.boards@[i].grid());
            if c <= k {
                assert(part2.boards@[i] == part1g.boards@[i]);
                assert(part1g.boards@[i] == copy2g.boards@.subrange(0, len0)[i]);
            } else {
                assert(part1g.boards@ == copy2g.boards@);
                assert(part2.boards@[i] == copy2g.boards@.subrange(0, len0)[i]);
            }
            assert(copy2g.boards@[i].grid() == history.boards@[i].grid());
        }
    }
    (whole, part2)
}

/// A prefix of a prefix is a prefix.
proof fn lemma_prefix_transitive(a: Seq<Board>, b: Seq<Board>, c: Seq<Board>)
    requires
        a.is_prefix_of(b),
        b.is_prefix_of(c),
    ensures
        a.is_prefix_of(c),
{
    assert(c.subrange(0, a.len() as int) =~= a);
}

} // verus!
