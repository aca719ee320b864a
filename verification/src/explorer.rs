//! The search: every board that can be reached from the starting position is
//! found round by round, until one of them shows the target position or no
//! new board turns up.

use vstd::prelude::*;
use crate::position::Kuhle;
use crate::board::{done, lemma_stock_count, occurrences, Board};
use crate::moves::{lemma_successor_keeps_stock, possible_next_moves, successors};
use crate::discovered::{
    lemma_merged,
    lemma_merged_step,
    lemma_set_is_bounded,
    merged,
    BoardSet,
    BOARD_LIMIT,
};

verus! {

/// Whether `board` comes from `start` by exactly `steps` legal moves.
pub open spec fn reachable_in(start: Board, board: Board, steps: nat) -> bool
    decreases steps,
{
    if steps == 0 {
        board == start
    } else {
        exists|prev: Board|
            reachable_in(start, prev, (steps - 1) as nat) && #[trigger] successors(prev).contains(
                board,
            )
    }
}

/// Whether `board` comes from `start` by legal moves.
pub open spec fn reachable_from(start: Board, board: Board) -> bool {
    exists|steps: nat| reachable_in(start, board, steps)
}

/// Whether `board` comes from the starting position of the puzzle by legal
/// moves.
pub open spec fn reachable(board: Board) -> bool {
    reachable_from(Board::initial(), board)
}

/// `set` after the successors of its boards number `from` up to, but not
/// including, number `to` have been merged in, board by board.
pub open spec fn expanded_range(set: Seq<Board>, from: int, to: int) -> Seq<Board>
    decreases to - from,
{
    if to <= from {
        set
    } else {
        merged(expanded_range(set, from, to - 1), successors(set[to - 1]))
    }
}

/// Whether the board number `index` of `boards` shows the target position and
/// none before it does.
pub open spec fn is_first_goal(boards: Seq<Board>, index: int) -> bool {
    &&& 0 <= index < boards.len()
    &&& boards[index].is_goal()
    &&& forall|k: int| 0 <= k < index ==> !boards[k].is_goal()
}

/// What one round of the search has come to.
#[derive(Debug, Copy, Clone, PartialEq, Eq)]
pub struct RoundReport {
    /// The number of boards found so far.
    pub size: usize,
    /// A board that shows the target position, if one has been found.
    pub found: Option<Board>,
    /// Whether the round has found boards that were not known before.
    pub grew: bool,
}

/// How a search ends.
#[derive(Debug, Copy, Clone, PartialEq, Eq)]
pub enum Outcome {
    /// The target position can be reached; this board shows it.
    Found(Board),
    /// No board that can be reached shows the target position.
    NoSolution,
}

/// A search in progress: the boards found so far, and how many of them have
/// been looked at.
pub struct Explorer {
    discovered: BoardSet,
    expanded: usize,
}

impl Explorer {
    /// The boards found so far, in the order in which they were found.
    pub closed spec fn discovered(&self) -> Seq<Board> {
        self.discovered@
    }

    /// The number of boards, from the first one on, that have been tested for
    /// the target position and whose successors have been merged in. The boards
    /// after them are the ones that the last round has found.
    pub closed spec fn expanded(&self) -> nat {
        self.expanded as nat
    }

    /// The board that the search began at: the first that it holds.
    pub open spec fn start(&self) -> Board {
        self.discovered()[0]
    }

    /// The search is in order: it holds the board that it began at, no board
    /// twice, and only boards that can be reached from the first; and the
    /// boards that it has looked at do not show the target position and have
    /// all their successors in the set.
    pub open spec fn wf(&self) -> bool {
        let boards = self.discovered();
        &&& boards.no_duplicates()
        &&& boards.len() > 0
        &&& self.expanded() <= boards.len()
        &&& forall|i: int|
            0 <= i < boards.len() ==> reachable_from(self.start(), #[trigger] boards[i])
        &&& forall|i: int| 0 <= i < self.expanded() ==> !(#[trigger] boards[i]).is_goal()
        &&& forall|i: int, next: Board|
            0 <= i < self.expanded() && #[trigger] successors(boards[i]).contains(next)
                ==> boards.contains(next)
    }

    /// A search that begins at the starting position of the puzzle.
    pub fn new() -> (explorer: Explorer)
        ensures
            explorer.wf(),
            explorer.discovered() == seq![Board::initial()],
            explorer.expanded() == 0,
    {
        Explorer::starting_at(Board::new())
    }

    /// A search that begins at `start` and has found nothing else yet.
    pub fn starting_at(start: Board) -> (explorer: Explorer)
        ensures
            explorer.wf(),
            explorer.discovered() == seq![start],
            explorer.expanded() == 0,
    {
        let mut discovered = BoardSet::new();
        discovered.insert(start);
        proof {
            assert(discovered@ =~= seq![start]);
            lemma_start_reachable(start);
        }
        Explorer { discovered, expanded: 0 }
    }

    /// The number of boards found so far.
    pub fn len(&self) -> (n: usize)
        ensures
            n == self.discovered().len(),
    {
        self.discovered.len()
    }

    /// The board that was found as number `index`, counted from zero.
    pub fn board(&self, index: usize) -> (board: Board)
        requires
            index < self.discovered().len(),
        ensures
            board == self.discovered()[index as int],
    {
        self.discovered.get(index)
    }

    /// Runs one round. The boards that the last round found are tested for the
    /// target position; the first that shows it is reported, and the search
    /// stays as it is. If none does, their successors are merged into the set,
    /// and the report says whether that made the set grow.
    pub fn advance(&mut self) -> (report: RoundReport)
        requires
            old(self).wf(),
        ensures
            final(self).wf(),
            final(self).start() == old(self).start(),
            old(self).discovered().is_prefix_of(final(self).discovered()),
            report.found.is_some() <==> exists|i: int|
                0 <= i < old(self).discovered().len() && old(self).discovered()[i].is_goal(),
            report.found.is_some() ==> exists|i: int|
                is_first_goal(old(self).discovered(), i) && report.found == Some(
                    old(self).discovered()[i],
                ),
            report.found.is_some() ==> final(self).discovered() == old(self).discovered()
                && final(self).expanded() == old(self).expanded(),
            report.found.is_none() ==> final(self).discovered() == expanded_range(
                old(self).discovered(),
                old(self).expanded() as int,
                old(self).discovered().len() as int,
            ) && final(self).expanded() == old(self).discovered().len(),
            report.size == final(self).discovered().len(),
            report.grew == (final(self).discovered().len() > old(self).discovered().len()),
    {
        let first = self.expanded;
        let last = self.discovered.len();
        let ghost start = self.discovered@;
        let mut i: usize = first;
        while i < last
            invariant
                first <= i <= last,
                last == start.len(),
                self.discovered@ == start,
                self.expanded == first,
                self.wf(),
                forall|k: int| 0 <= k < i ==> !start[k].is_goal(),
            decreases last - i,
        {
            let board = self.discovered.get(i);
            if done(&board) {
                proof {
                    assert(is_first_goal(start, i as int));
                }
                return RoundReport { size: last, found: Some(board), grew: false };
            }
            i += 1;
        }
        i = first;
        while i < last
            invariant
                first <= i <= last,
                last == start.len(),
                start.no_duplicates(),
                self.discovered.wf(),
                self.discovered@ == expanded_range(start, first as int, i as int),
                self.expanded == first,
            decreases last - i,
        {
            proof {
                lemma_expanded_range(start, first as int, i as int);
            }
            let board = self.discovered.get(i);
            let next = possible_next_moves(&board);
            let ghost base = self.discovered@;
            let mut j: usize = 0;
            proof {
                lemma_merged_step(base, next@, 0);
            }
            while j < next.len()
                invariant
                    j <= next.len(),
                    self.discovered.wf(),
                    self.discovered@ == merged(base, next@.take(j as int)),
                    self.expanded == first,
                decreases next.len() - j,
            {
                proof {
                    lemma_merged_step(base, next@, j as int);
                }
                self.discovered.insert(next[j]);
                j += 1;
            }
            proof {
                lemma_merged_step(base, next@, 0);
            }
            i += 1;
        }
        self.expanded = last;
        let size = self.discovered.len();
        proof {
            lemma_expanded_range(start, first as int, last as int);
            lemma_round_keeps_order(*old(self), self.discovered@);
        }
        RoundReport { size, found: None, grew: size > last }
    }
}

/// Searches from the starting position of the puzzle until a board shows the
/// target position or a round finds nothing new. `Found` hands out a board
/// that shows the target position and can be reached; `NoSolution` says that
/// no board that can be reached shows it.
pub fn run_search() -> (outcome: Outcome)
    ensures
        match outcome {
            Outcome::Found(board) => board.is_goal() && reachable(board),
            Outcome::NoSolution => forall|board: Board| reachable(board) ==> !board.is_goal(),
        },
{
    search_from(Board::new())
}

/// Searches from `start` until a board shows the target position or a round
/// finds nothing new.
pub fn search_from(start: Board) -> (outcome: Outcome)
    ensures
        match outcome {
            Outcome::Found(board) => board.is_goal() && reachable_from(start, board),
            Outcome::NoSolution => forall|board: Board|
                reachable_from(start, board) ==> !board.is_goal(),
        },
{
    let mut explorer = Explorer::starting_at(start);
    proof {
        lemma_set_is_bounded(explorer.discovered());
    }
    loop
        invariant
            explorer.wf(),
            explorer.start() == start,
            explorer.discovered().len() <= BOARD_LIMIT,
        decreases BOARD_LIMIT - explorer.discovered().len(),
    {
        let ghost before = explorer;
        let report = explorer.advance();
        proof {
            lemma_set_is_bounded(explorer.discovered());
        }
        match report.found {
            Some(board) => {
                proof {
                    let i = choose|i: int|
                        0 <= i < before.discovered().len() && report.found == Some(
                            before.discovered()[i],
                        );
                    assert(reachable_from(start, before.discovered()[i]));
                }
                return Outcome::Found(board);
            },
            None => {},
        }
        if !report.grew {
            proof {
                assert forall|board: Board| reachable_from(start, board) implies !board.is_goal() by {
                    lemma_closed_set_holds_reachable(explorer, board);
                    let i = choose|i: int|
                        0 <= i < explorer.discovered().len() && explorer.discovered()[i] == board;
                    assert(!explorer.discovered()[i].is_goal());
                }
            }
            return Outcome::NoSolution;
        }
    }
}

/// A board can be reached from itself: it is there before any move.
pub proof fn lemma_start_reachable(start: Board)
    ensures
        reachable_from(start, start),
{
    assert(reachable_in(start, start, 0));
}

/// One legal move from a board that can be reached leads to a board that can
/// be reached.
pub proof fn lemma_successor_reachable(start: Board, board: Board, next: Board)
    requires
        reachable_from(start, board),
        successors(board).contains(next),
    ensures
        reachable_from(start, next),
{
    let steps = choose|steps: nat| reachable_in(start, board, steps);
    assert(reachable_in(start, next, steps + 1));
}

/// Expanding a range of boards keeps what the set holds, in place, and adds
/// the successors of the boards in the range and nothing else. A set without
/// duplicates stays one.
pub proof fn lemma_expanded_range(set: Seq<Board>, from: int, to: int)
    requires
        0 <= from <= to <= set.len(),
    ensures
        set.is_prefix_of(expanded_range(set, from, to)),
        set.no_duplicates() ==> expanded_range(set, from, to).no_duplicates(),
        forall|other: Board| #[trigger]
            expanded_range(set, from, to).contains(other) <==> set.contains(other)
                || exists|k: int| from <= k < to && #[trigger] successors(set[k]).contains(other),
    decreases to - from,
{
    if from < to {
        let before = expanded_range(set, from, to - 1);
        let after = expanded_range(set, from, to);
        lemma_expanded_range(set, from, to - 1);
        lemma_merged(before, successors(set[to - 1]));
        assert forall|other: Board| #[trigger] after.contains(other) <==> set.contains(other)
            || exists|k: int| from <= k < to && #[trigger] successors(set[k]).contains(other) by {
            if after.contains(other) && !set.contains(other) {
                if before.contains(other) {
                    let k = choose|k: int|
                        from <= k < to - 1 && #[trigger] successors(set[k]).contains(other);
                    assert(from <= k < to && successors(set[k]).contains(other));
                } else {
                    assert(successors(set[to - 1]).contains(other));
                }
            }
            if exists|k: int| from <= k < to && #[trigger] successors(set[k]).contains(other) {
                let k = choose|k: int|
                    from <= k < to && #[trigger] successors(set[k]).contains(other);
                if k < to - 1 {
                    assert(before.contains(other));
                }
            }
        }
    }
}

/// A round that finds no board with the target position leaves the search in
/// order, with every board that was known before looked at.
proof fn lemma_round_keeps_order(before: Explorer, after: Seq<Board>)
    requires
        before.wf(),
        after == expanded_range(
            before.discovered(),
            before.expanded() as int,
            before.discovered().len() as int,
        ),
        forall|k: int|
            before.expanded() <= k < before.discovered().len() ==> !before.discovered()[k].is_goal(),
    ensures
        after.no_duplicates(),
        before.discovered().is_prefix_of(after),
        forall|i: int| 0 <= i < after.len() ==> reachable_from(before.start(), #[trigger] after[i]),
        forall|i: int| 0 <= i < before.discovered().len() ==> !(#[trigger] after[i]).is_goal(),
        forall|i: int, next: Board|
            0 <= i < before.discovered().len() && #[trigger] successors(after[i]).contains(next)
                ==> after.contains(next),
{
    let set = before.discovered();
    let from = before.expanded() as int;
    let to = set.len() as int;
    lemma_expanded_range(set, from, to);
    assert forall|i: int| 0 <= i < after.len() implies reachable_from(
        before.start(),
        #[trigger] after[i],
    ) by {
        let other = after[i];
        assert(after.contains(other));
        if set.contains(other) {
            let k = choose|k: int| 0 <= k < set.len() && set[k] == other;
            assert(reachable_from(before.start(), set[k]));
        } else {
            let k = choose|k: int| from <= k < to && #[trigger] successors(set[k]).contains(other);
            lemma_successor_reachable(before.start(), set[k], other);
        }
    }
    assert forall|i: int| 0 <= i < set.len() implies !(#[trigger] after[i]).is_goal() by {
        assert(after[i] == set[i]);
        if i < from {
            assert(!set[i].is_goal());
        }
    }
    assert forall|i: int, next: Board|
        0 <= i < set.len() && #[trigger] successors(after[i]).contains(next) implies after.contains(
        next,
    ) by {
        assert(after[i] == set[i]);
        if i < from {
            assert(set.contains(next));
        }
    }
}

/// A search that has looked at all its boards holds every board that can be
/// reached from the board that it began at.
pub proof fn lemma_closed_set_holds_reachable(explorer: Explorer, board: Board)
    requires
        explorer.wf(),
        explorer.expanded() == explorer.discovered().len(),
        reachable_from(explorer.start(), board),
    ensures
        explorer.discovered().contains(board),
{
    let steps = choose|steps: nat| reachable_in(explorer.start(), board, steps);
    lemma_closed_set_holds_steps(explorer, board, steps);
}

proof fn lemma_closed_set_holds_steps(explorer: Explorer, board: Board, steps: nat)
    requires
        explorer.wf(),
        explorer.expanded() == explorer.discovered().len(),
        reachable_in(explorer.start(), board, steps),
    ensures
        explorer.discovered().contains(board),
    decreases steps,
{
    let set = explorer.discovered();
    if steps == 0 {
        assert(set[0] == board);
    } else {
        let prev = choose|prev: Board|
            reachable_in(explorer.start(), prev, (steps - 1) as nat) && #[trigger] successors(
                prev,
            ).contains(board);
        lemma_closed_set_holds_steps(explorer, prev, (steps - 1) as nat);
        let i = choose|i: int| 0 <= i < set.len() && set[i] == prev;
        assert(successors(set[i]).contains(board));
    }
}

/// Legal moves neither make nor lose anything: a board that can be reached
/// from `start` holds what `start` holds.
pub proof fn lemma_moves_keep_stock(start: Board, board: Board)
    requires
        reachable_from(start, board),
    ensures
        board.stock() == start.stock(),
{
    let steps = choose|steps: nat| reachable_in(start, board, steps);
    lemma_steps_keep_stock(start, board, steps);
}

/// Every board that can be reached from the starting position of the puzzle
/// holds what the starting position holds: the large marble, three glass
/// marbles, three metal marbles and two free slots.
pub proof fn lemma_reachable_keeps_stock(board: Board)
    requires
        reachable(board),
    ensures
        board.stock() == Board::initial().stock(),
        occurrences(board, Kuhle::GROSS) == 1,
        occurrences(board, Kuhle::GLAS) == 3,
        occurrences(board, Kuhle::METALL) == 3,
        occurrences(board, Kuhle::EMPTY) == 2,
{
    lemma_moves_keep_stock(Board::initial(), board);
    lemma_stock_count(board, Kuhle::GROSS);
    lemma_stock_count(board, Kuhle::GLAS);
    lemma_stock_count(board, Kuhle::METALL);
    lemma_stock_count(board, Kuhle::EMPTY);
    lemma_stock_count(Board::initial(), Kuhle::GROSS);
    lemma_stock_count(Board::initial(), Kuhle::GLAS);
    lemma_stock_count(Board::initial(), Kuhle::METALL);
    lemma_stock_count(Board::initial(), Kuhle::EMPTY);
    reveal(crate::board::tally);
}

proof fn lemma_steps_keep_stock(start: Board, board: Board, steps: nat)
    requires
        reachable_in(start, board, steps),
    ensures
        board.stock() == start.stock(),
    decreases steps,
{
    if steps > 0 {
        let prev = choose|prev: Board|
            reachable_in(start, prev, (steps - 1) as nat) && #[trigger] successors(prev).contains(
                board,
            );
        lemma_steps_keep_stock(start, prev, (steps - 1) as nat);
        lemma_successor_keeps_stock(prev, board);
    }
}

} // verus!
