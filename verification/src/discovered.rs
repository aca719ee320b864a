//! The set of boards that a search has found so far.
//!
//! The set keeps its boards in the order in which they came in, and holds no
//! board twice: boards are told apart by their slots and their turn state.

use vstd::prelude::*;
use vstd::relations::injective;
use vstd::set_lib::{lemma_int_range, lemma_len_subset, set_int_range};
use crate::position::{GameState, Kuhle};
use crate::board::Board;

verus! {

/// The number of boards that can be told apart: four kinds in each of nine
/// slots, and two turn states.
pub const BOARD_LIMIT: usize = 524288;

/// `set` after `board` has been put in: as before if it holds the board
/// already, else with the board at its end.
pub open spec fn inserted(set: Seq<Board>, board: Board) -> Seq<Board> {
    if set.contains(board) {
        set
    } else {
        set.push(board)
    }
}

/// `set` after each of `items` has been put in, one after the other.
pub open spec fn merged(set: Seq<Board>, items: Seq<Board>) -> Seq<Board>
    decreases items.len(),
{
    if items.len() == 0 {
        set
    } else {
        inserted(merged(set, items.drop_last()), items.last())
    }
}

/// A set of boards in the order in which they were put in.
pub struct BoardSet {
    boards: Vec<Board>,
}

impl View for BoardSet {
    type V = Seq<Board>;

    closed spec fn view(&self) -> Seq<Board> {
        self.boards@
    }
}

impl BoardSet {
    /// No board is held twice.
    pub open spec fn wf(&self) -> bool {
        self@.no_duplicates()
    }

    /// A set without boards.
    pub fn new() -> (set: BoardSet)
        ensures
            set.wf(),
            set@ == Seq::<Board>::empty(),
    {
        BoardSet { boards: Vec::new() }
    }

    /// The number of boards in the set.
    pub fn len(&self) -> (n: usize)
        ensures
            n == self@.len(),
    {
        self.boards.len()
    }

    /// The board that came in as number `index`, counted from zero.
    pub fn get(&self, index: usize) -> (board: Board)
        requires
            index < self@.len(),
        ensures
            board == self@[index as int],
    {
        self.boards[index]
    }

    /// Whether the set holds `board`.
    pub fn contains(&self, board: &Board) -> (held: bool)
        ensures
            held == self@.contains(*board),
    {
        let mut i: usize = 0;
        while i < self.boards.len()
            invariant
                i <= self.boards.len(),
                forall|k: int| 0 <= k < i ==> self.boards@[k] != *board,
            decreases self.boards.len() - i,
        {
            if self.boards[i] == *board {
                return true;
            }
            i += 1;
        }
        false
    }

    /// Puts `board` into the set unless it is there already, and says whether
    /// the set has grown by it.
    pub fn insert(&mut self, board: Board) -> (fresh: bool)
        requires
            old(self).wf(),
        ensures
            final(self).wf(),
            final(self)@ == inserted(old(self)@, board),
            fresh == !old(self)@.contains(board),
            final(self)@.contains(board),
            final(self)@.len() == old(self)@.len() + if fresh { 1int } else { 0int },
    {
        proof {
            lemma_inserted(self@, board);
        }
        if self.contains(&board) {
            false
        } else {
            self.boards.push(board);
            true
        }
    }
}

/// Putting a board in keeps what the set holds, in place, adds the board, and
/// adds nothing else. A set without duplicates stays one.
pub proof fn lemma_inserted(set: Seq<Board>, board: Board)
    ensures
        set.is_prefix_of(inserted(set, board)),
        inserted(set, board).contains(board),
        forall|other: Board| #[trigger]
            inserted(set, board).contains(other) <==> set.contains(other) || other == board,
        set.no_duplicates() ==> inserted(set, board).no_duplicates(),
        inserted(set, board).len() == set.len() + if set.contains(board) { 0int } else { 1int },
{
    let after = inserted(set, board);
    if !set.contains(board) {
        assert(after[set.len() as int] == board);
        assert forall|other: Board| #[trigger] after.contains(other) implies set.contains(other)
            || other == board by {
            let k = choose|k: int| 0 <= k < after.len() && after[k] == other;
            if k < set.len() {
                assert(set[k] == other);
            }
        }
        assert forall|other: Board| set.contains(other) implies #[trigger] after.contains(
            other,
        ) by {
            let k = choose|k: int| 0 <= k < set.len() && set[k] == other;
            assert(after[k] == other);
        }
    }
}

/// Putting the same board in twice is putting it in once: the second time the
/// set stays as it is, so a board that was new makes the set one longer, not
/// two.
pub proof fn lemma_insert_twice(set: Seq<Board>, board: Board)
    ensures
        inserted(inserted(set, board), board) == inserted(set, board),
        !set.contains(board) ==> inserted(inserted(set, board), board).len() == set.len() + 1,
{
    lemma_inserted(set, board);
}

/// Merging boards in keeps what the set holds, in place, adds each of the
/// boards, and adds nothing else. A set without duplicates stays one.
pub proof fn lemma_merged(set: Seq<Board>, items: Seq<Board>)
    ensures
        set.is_prefix_of(merged(set, items)),
        forall|other: Board| #[trigger]
            merged(set, items).contains(other) <==> set.contains(other) || items.contains(other),
        set.no_duplicates() ==> merged(set, items).no_duplicates(),
    decreases items.len(),
{
    if items.len() > 0 {
        let front = items.drop_last();
        let before = merged(set, front);
        let after = merged(set, items);
        lemma_merged(set, front);
        lemma_inserted(before, items.last());
        assert forall|other: Board| #[trigger] after.contains(other) <==> set.contains(other)
            || items.contains(other) by {
            if items.contains(other) {
                let k = choose|k: int| 0 <= k < items.len() && items[k] == other;
                if k < front.len() {
                    assert(front[k] == other);
                }
            }
            if front.contains(other) {
                let k = choose|k: int| 0 <= k < front.len() && front[k] == other;
                assert(items[k] == other);
            }
            assert(items[items.len() - 1] == items.last());
        }
    }
}

/// Merging one more board in is merging the others in and then putting that
/// one in.
pub proof fn lemma_merged_step(set: Seq<Board>, items: Seq<Board>, n: int)
    requires
        0 <= n <= items.len(),
    ensures
        n < items.len() ==> merged(set, items.take(n + 1)) == inserted(
            merged(set, items.take(n)),
            items[n],
        ),
        merged(set, items.take(0)) == set,
        merged(set, items.take(items.len() as int)) == merged(set, items),
{
    if n < items.len() {
        assert(items.take(n + 1).drop_last() =~= items.take(n));
    }
    assert(items.take(items.len() as int) =~= items);
}

/// The digit that stands for a kind in a board's code.
pub open spec fn digit(kuhle: Kuhle) -> int {
    match kuhle {
        Kuhle::EMPTY => 0,
        Kuhle::GLAS => 1,
        Kuhle::METALL => 2,
        Kuhle::GROSS => 3,
    }
}

/// The digit that stands for a turn state in a board's code.
pub open spec fn turn_digit(game_state: GameState) -> int {
    match game_state {
        GameState::GrossMuss => 0,
        GameState::KleinMuss => 1,
    }
}

/// The number whose lowest digit to the base four is `low` and whose other
/// digits are those of `rest`.
pub open spec fn above(low: int, rest: int) -> int {
    low + 4 * rest
}

/// The code of the slots from number `from` on, in walking order, and of the
/// turn state above them.
pub open spec fn code_from(board: Board, from: int) -> int
    decreases 9 - from,
{
    if 0 <= from < 9 {
        above(digit(board.pieces()[from]), code_from(board, from + 1))
    } else {
        turn_digit(board.game_state)
    }
}

/// A number below `BOARD_LIMIT` that belongs to this board and to no other:
/// the slots as digits to the base four, above them the turn state.
pub open spec fn code(board: Board) -> int {
    code_from(board, 0)
}

/// The number of codes that `code_from` can give from slot `from` on.
pub open spec fn codes_from(from: int) -> int
    decreases 9 - from,
{
    if 0 <= from < 9 {
        4 * codes_from(from + 1)
    } else {
        2
    }
}

proof fn lemma_code_from(a: Board, b: Board, from: int)
    requires
        0 <= from <= 9,
    ensures
        0 <= code_from(a, from) < codes_from(from),
        code_from(a, from) == code_from(b, from) ==> a.game_state == b.game_state
            && forall|k: int| from <= k < 9 ==> a.pieces()[k] == b.pieces()[k],
    decreases 9 - from,
{
    if from < 9 {
        lemma_code_from(a, b, from + 1);
        let (low_a, rest_a) = (digit(a.pieces()[from]), code_from(a, from + 1));
        let (low_b, rest_b) = (digit(b.pieces()[from]), code_from(b, from + 1));
        assert(code_from(a, from) == low_a + 4 * rest_a);
        assert(code_from(b, from) == low_b + 4 * rest_b);
        assert(0 <= low_a < 4 && 0 <= low_b < 4);
        if code_from(a, from) == code_from(b, from) {
            assert(rest_a == rest_b);
            assert(low_a == low_b);
            assert(a.pieces()[from] == b.pieces()[from]);
        }
    }
}

/// Different boards have different codes, and each code is below the limit.
pub proof fn lemma_code(a: Board, b: Board)
    ensures
        0 <= code(a) < BOARD_LIMIT,
        code(a) == code(b) ==> a == b,
{
    lemma_code_from(a, b, 0);
    assert(codes_from(0) == 524288) by {
        reveal_with_fuel(codes_from, 10);
    }
    if code(a) == code(b) {
        assert(a.pieces()[0] == b.pieces()[0]);
        assert(a.pieces()[1] == b.pieces()[1]);
        assert(a.pieces()[2] == b.pieces()[2]);
        assert(a.pieces()[3] == b.pieces()[3]);
        assert(a.pieces()[4] == b.pieces()[4]);
        assert(a.pieces()[5] == b.pieces()[5]);
        assert(a.pieces()[6] == b.pieces()[6]);
        assert(a.pieces()[7] == b.pieces()[7]);
        assert(a.pieces()[8] == b.pieces()[8]);
    }
}

/// A set without duplicates holds at most `BOARD_LIMIT` boards.
pub proof fn lemma_set_is_bounded(set: Seq<Board>)
    requires
        set.no_duplicates(),
    ensures
        set.len() <= BOARD_LIMIT,
{
    let f = |board: Board| code(board);
    assert(injective(f)) by {
        assert forall|a: Board, b: Board| #[trigger] f(a) == #[trigger] f(b) implies a == b by {
            lemma_code(a, b);
        }
    }
    set.lemma_no_duplicates_injective(f);
    let codes = set.map_values(f);
    codes.unique_seq_to_set();
    let range = set_int_range(0, BOARD_LIMIT as int);
    lemma_int_range(0, BOARD_LIMIT as int);
    assert forall|c: int| codes.to_set().contains(c) implies range.contains(c) by {
        let k = choose|k: int| 0 <= k < codes.len() && codes[k] == c;
        lemma_code(set[k], set[k]);
    }
    lemma_len_subset(codes.to_set(), range);
}

} // verus!
