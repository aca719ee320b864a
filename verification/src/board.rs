//! A snapshot of the board, single moves on it, and the goal test.

use vstd::prelude::*;
use vstd::multiset::Multiset;
use crate::position::{GameState, Kuhle, Position};

verus! {

/// One configuration of the puzzle: what each slot holds and whose turn it is.
///
/// Two boards are equal exactly when all nine slots and the turn state agree.
#[allow(non_snake_case)]
#[derive(Debug, Copy, Clone, PartialEq, Eq, Hash, Structural)]
pub struct Board {
    pub TL: Kuhle,
    pub TM: Kuhle,
    pub TR: Kuhle,
    pub DL: Kuhle,
    pub DM: Kuhle,
    pub DR: Kuhle,
    pub L: Kuhle,
    pub R: Kuhle,
    pub MID: Kuhle,
    pub game_state: GameState,
}

/// A move that cannot be made: the slot moved into is taken, or the slot moved
/// out of is free.
#[derive(Debug, Copy, Clone, PartialEq, Eq, Hash, Structural)]
pub enum MoveError {
    InvalidMove,
}

impl Board {
    /// The starting position: metal on the left, glass on the right, the large
    /// marble in the centre, and a small marble to move first.
    pub open spec fn initial() -> Board {
        Board {
            TL: Kuhle::METALL,
            TM: Kuhle::EMPTY,
            TR: Kuhle::GLAS,
            DL: Kuhle::METALL,
            DM: Kuhle::EMPTY,
            DR: Kuhle::GLAS,
            L: Kuhle::METALL,
            R: Kuhle::GLAS,
            MID: Kuhle::GROSS,
            game_state: GameState::KleinMuss,
        }
    }

    /// What the slot `pos` holds.
    pub open spec fn at(self, pos: Position) -> Kuhle {
        match pos {
            Position::TL => self.TL,
            Position::TM => self.TM,
            Position::TR => self.TR,
            Position::DL => self.DL,
            Position::DM => self.DM,
            Position::DR => self.DR,
            Position::L => self.L,
            Position::R => self.R,
            Position::MID => self.MID,
        }
    }

    /// The contents of the nine slots in walking order, so that
    /// `pieces()[pos.index()] == at(pos)`.
    pub open spec fn pieces(self) -> Seq<Kuhle> {
        seq![
            self.TL,
            self.TM,
            self.TR,
            self.DL,
            self.DM,
            self.DR,
            self.L,
            self.R,
            self.MID,
        ]
    }

    /// The marbles and free slots of the board as a multiset, forgetting where
    /// each one lies.
    pub open spec fn stock(self) -> Multiset<Kuhle> {
        Multiset::empty().insert(self.TL).insert(self.TM).insert(self.TR).insert(self.DL).insert(
            self.DM,
        ).insert(self.DR).insert(self.L).insert(self.R).insert(self.MID)
    }

    /// This board with `kuhle` put into the slot `pos`.
    pub open spec fn with_piece(self, pos: Position, kuhle: Kuhle) -> Board {
        match pos {
            Position::TL => Board { TL: kuhle, ..self },
            Position::TM => Board { TM: kuhle, ..self },
            Position::TR => Board { TR: kuhle, ..self },
            Position::DL => Board { DL: kuhle, ..self },
            Position::DM => Board { DM: kuhle, ..self },
            Position::DR => Board { DR: kuhle, ..self },
            Position::L => Board { L: kuhle, ..self },
            Position::R => Board { R: kuhle, ..self },
            Position::MID => Board { MID: kuhle, ..self },
        }
    }

    /// Whether something can be moved from `from` into `to`: `to` is free and
    /// `from` is not. Neither the edges of the board nor the turn are asked.
    pub open spec fn can_move(self, from: Position, to: Position) -> bool {
        self.at(to) == Kuhle::EMPTY && self.at(from) != Kuhle::EMPTY
    }

    /// The board after the content of `from` has been moved into `to`: `to`
    /// holds what `from` held, `from` is free, and the turn has passed on.
    pub open spec fn with_move(self, from: Position, to: Position) -> Board {
        Board {
            game_state: self.game_state.flipped(),
            ..self.with_piece(to, self.at(from)).with_piece(from, Kuhle::EMPTY)
        }
    }

    /// Whether the slots show the target position: the small marbles have
    /// changed sides and the large one is back in the centre. The turn state
    /// does not matter.
    pub open spec fn is_goal(self) -> bool {
        &&& self.TL == Kuhle::GLAS
        &&& self.TM == Kuhle::EMPTY
        &&& self.TR == Kuhle::METALL
        &&& self.DL == Kuhle::GLAS
        &&& self.DM == Kuhle::EMPTY
        &&& self.DR == Kuhle::METALL
        &&& self.L == Kuhle::GLAS
        &&& self.R == Kuhle::METALL
        &&& self.MID == Kuhle::GROSS
    }

    /// The starting position.
    pub fn new() -> (board: Board)
        ensures
            board == Board::initial(),
    {
        Board {
            TL: Kuhle::METALL,
            TM: Kuhle::EMPTY,
            TR: Kuhle::GLAS,
            DL: Kuhle::METALL,
            DM: Kuhle::EMPTY,
            DR: Kuhle::GLAS,
            L: Kuhle::METALL,
            R: Kuhle::GLAS,
            MID: Kuhle::GROSS,
            game_state: GameState::KleinMuss,
        }
    }

    /// What the slot `pos` holds.
    pub fn piece_at(&self, pos: Position) -> (kuhle: Kuhle)
        ensures
            kuhle == self.at(pos),
    {
        match pos {
            Position::TL => self.TL,
            Position::TM => self.TM,
            Position::TR => self.TR,
            Position::DL => self.DL,
            Position::DM => self.DM,
            Position::DR => self.DR,
            Position::L => self.L,
            Position::R => self.R,
            Position::MID => self.MID,
        }
    }

    /// Puts `kuhle` into the slot `pos` and leaves the rest as it is.
    pub fn put(&mut self, pos: Position, kuhle: Kuhle)
        ensures
            *final(self) == old(self).with_piece(pos, kuhle),
    {
        match pos {
            Position::TL => self.TL = kuhle,
            Position::TM => self.TM = kuhle,
            Position::TR => self.TR = kuhle,
            Position::DL => self.DL = kuhle,
            Position::DM => self.DM = kuhle,
            Position::DR => self.DR = kuhle,
            Position::L => self.L = kuhle,
            Position::R => self.R = kuhle,
            Position::MID => self.MID = kuhle,
        }
    }

    /// A walk over the nine slots in the order of `Position::all()`.
    pub fn iter(&self) -> (walk: BoardIter<'_>)
        ensures
            walk.wf(),
            walk.remaining() == self.pieces(),
            walk.board() == *self,
    {
        let walk = BoardIter { curr: 0, board: self };
        assert(walk.remaining() =~= self.pieces());
        walk
    }
}

/// A walk over the slots of one board.
pub struct BoardIter<'a> {
    curr: u8,
    board: &'a Board,
}

impl<'a> BoardIter<'a> {
    /// The walk has not gone past the last slot.
    pub closed spec fn wf(self) -> bool {
        self.curr <= 9
    }

    /// The board that is walked.
    pub closed spec fn board(self) -> Board {
        *self.board
    }

    /// The contents of the slots that the walk has not reached yet.
    pub closed spec fn remaining(self) -> Seq<Kuhle> {
        self.board.pieces().skip(self.curr as int)
    }

    /// Hands out the content of the next slot, or `None` after the ninth.
    pub fn next(&mut self) -> (item: Option<Kuhle>)
        requires
            old(self).wf(),
        ensures
            final(self).wf(),
            final(self).board() == old(self).board(),
            old(self).remaining().len() == 0 ==> item.is_none() && final(self).remaining()
                == old(self).remaining(),
            old(self).remaining().len() > 0 ==> item == Some(old(self).remaining()[0])
                && final(self).remaining() == old(self).remaining().drop_first(),
    {
        if self.curr >= 9 {
            return None;
        }
        let item = match self.curr {
            0 => self.board.TL,
            1 => self.board.TM,
            2 => self.board.TR,
            3 => self.board.DL,
            4 => self.board.DM,
            5 => self.board.DR,
            6 => self.board.L,
            7 => self.board.R,
            _ => self.board.MID,
        };
        self.curr = self.curr + 1;
        assert(final(self).remaining() =~= old(self).remaining().drop_first());
        Some(item)
    }
}

/// Whether the slot `pos` of `board` is free.
pub fn pos_empty(pos: Position, board: &Board) -> (free: bool)
    ensures
        free == (board.at(pos) == Kuhle::EMPTY),
{
    match board.piece_at(pos) {
        Kuhle::EMPTY => true,
        _ => false,
    }
}

/// Whether the slot `pos` of `board` holds the large marble.
pub fn pos_has_gross(pos: Position, board: &Board) -> (large: bool)
    ensures
        large == (board.at(pos) == Kuhle::GROSS),
{
    match board.piece_at(pos) {
        Kuhle::GROSS => true,
        _ => false,
    }
}

/// Moves what lies in `old_pos` into the free slot `new_pos` and passes the
/// turn on. The move is refused when `new_pos` is taken or `old_pos` is free;
/// whether the two slots are joined, and whose turn it is, is the caller's
/// business.
pub fn move_pos_from_to(board: Board, old_pos: Position, new_pos: Position) -> (moved: Result<
    Board,
    MoveError,
>)
    ensures
        moved.is_ok() <==> board.can_move(old_pos, new_pos),
        moved.is_ok() ==> moved == Ok::<Board, MoveError>(board.with_move(old_pos, new_pos)),
        moved.is_err() ==> moved == Err::<Board, MoveError>(MoveError::InvalidMove),
{
    if !pos_empty(new_pos, &board) || pos_empty(old_pos, &board) {
        return Err(MoveError::InvalidMove);
    }
    let kuhle = board.piece_at(old_pos);
    let mut ret = board;
    ret.put(new_pos, kuhle);
    ret.put(old_pos, Kuhle::EMPTY);
    ret.game_state = ret.game_state.flip();
    Ok(ret)
}

/// Whether `board` shows the target position.
pub fn done(board: &Board) -> (reached: bool)
    ensures
        reached == board.is_goal(),
{
    board.TL == Kuhle::GLAS && board.TM == Kuhle::EMPTY && board.TR == Kuhle::METALL && board.DL
        == Kuhle::GLAS && board.DM == Kuhle::EMPTY && board.DR == Kuhle::METALL && board.L
        == Kuhle::GLAS && board.R == Kuhle::METALL && board.MID == Kuhle::GROSS
}

/// Two boards are the same board exactly when they agree on every slot and on
/// the turn.
pub proof fn lemma_board_equality(a: Board, b: Board)
    ensures
        a == b <==> a.game_state == b.game_state && forall|pos: Position|
            a.at(pos) == b.at(pos),
        a.pieces().len() == 9,
        forall|pos: Position| #[trigger] a.at(pos) == a.pieces()[pos.index()],
{
    if a.game_state == b.game_state && (forall|pos: Position| a.at(pos) == b.at(pos)) {
        assert(a.at(Position::TL) == b.at(Position::TL));
        assert(a.at(Position::TM) == b.at(Position::TM));
        assert(a.at(Position::TR) == b.at(Position::TR));
        assert(a.at(Position::DL) == b.at(Position::DL));
        assert(a.at(Position::DM) == b.at(Position::DM));
        assert(a.at(Position::DR) == b.at(Position::DR));
        assert(a.at(Position::L) == b.at(Position::L));
        assert(a.at(Position::R) == b.at(Position::R));
        assert(a.at(Position::MID) == b.at(Position::MID));
    }
}

/// What a move changes: the slot moved into takes over the content of the slot
/// moved out of, that slot becomes free, every other slot keeps its content,
/// and the turn passes on.
pub proof fn lemma_move_effect(board: Board, from: Position, to: Position)
    requires
        board.can_move(from, to),
    ensures
        from != to,
        board.with_move(from, to).at(to) == board.at(from),
        board.with_move(from, to).at(from) == Kuhle::EMPTY,
        forall|pos: Position|
            pos != from && pos != to ==> #[trigger] board.with_move(from, to).at(pos)
                == board.at(pos),
        board.with_move(from, to).game_state == board.game_state.flipped(),
        board.with_move(from, to).game_state != board.game_state,
{
}

/// Moving a marble back undoes the move: the slots and the turn are as before.
pub proof fn lemma_move_back(board: Board, from: Position, to: Position)
    requires
        board.can_move(from, to),
    ensures
        board.with_move(from, to).can_move(to, from),
        board.with_move(from, to).with_move(to, from) == board,
{
    let after = board.with_move(from, to);
    lemma_move_effect(board, from, to);
    lemma_move_effect(after, to, from);
    let back = after.with_move(to, from);
    assert forall|pos: Position| back.at(pos) == board.at(pos) by {
        if pos != from && pos != to {
            assert(back.at(pos) == after.at(pos));
        }
    }
    lemma_board_equality(back, board);
}

/// One if `kuhle` is `wanted`, zero if not.
#[verifier::opaque]
pub open spec fn tally(kuhle: Kuhle, wanted: Kuhle) -> int {
    if kuhle == wanted {
        1
    } else {
        0
    }
}

/// How often `wanted` occurs on `board`, slot by slot.
pub open spec fn occurrences(board: Board, wanted: Kuhle) -> int {
    tally(board.TL, wanted) + tally(board.TM, wanted) + tally(board.TR, wanted)
        + tally(board.DL, wanted) + tally(board.DM, wanted) + tally(board.DR, wanted)
        + tally(board.L, wanted) + tally(board.R, wanted) + tally(board.MID, wanted)
}

proof fn lemma_insert_tally(stock: Multiset<Kuhle>, kuhle: Kuhle, wanted: Kuhle)
    ensures
        stock.insert(kuhle).count(wanted) == stock.count(wanted) + tally(kuhle, wanted),
        stock.insert(kuhle).len() == stock.len() + 1,
{
    reveal(tally);
    broadcast use vstd::multiset::group_multiset_axioms;

}

/// The multiset of a board holds nine items, and each kind as often as it lies
/// on the board.
pub proof fn lemma_stock_count(board: Board, wanted: Kuhle)
    ensures
        board.stock().count(wanted) == occurrences(board, wanted),
        board.stock().len() == 9,
{
    let m0 = Multiset::<Kuhle>::empty();
    let m1 = m0.insert(board.TL);
    let m2 = m1.insert(board.TM);
    let m3 = m2.insert(board.TR);
    let m4 = m3.insert(board.DL);
    let m5 = m4.insert(board.DM);
    let m6 = m5.insert(board.DR);
    let m7 = m6.insert(board.L);
    let m8 = m7.insert(board.R);
    assert(m0.count(wanted) == 0 && m0.len() == 0) by {
        broadcast use vstd::multiset::group_multiset_axioms;

    }
    lemma_insert_tally(m0, board.TL, wanted);
    lemma_insert_tally(m1, board.TM, wanted);
    lemma_insert_tally(m2, board.TR, wanted);
    lemma_insert_tally(m3, board.DL, wanted);
    lemma_insert_tally(m4, board.DM, wanted);
    lemma_insert_tally(m5, board.DR, wanted);
    lemma_insert_tally(m6, board.L, wanted);
    lemma_insert_tally(m7, board.R, wanted);
    lemma_insert_tally(m8, board.MID, wanted);
}

/// Putting `kuhle` into a slot adds one `kuhle` to the counts and takes out
/// one of what the slot held.
pub proof fn lemma_put_occurrences(board: Board, pos: Position, kuhle: Kuhle, wanted: Kuhle)
    ensures
        occurrences(board.with_piece(pos, kuhle), wanted) + tally(board.at(pos), wanted)
            == occurrences(board, wanted) + tally(kuhle, wanted),
{
}

/// A move changes no count: each kind lies on the board as often as before.
pub proof fn lemma_move_keeps_occurrences(
    board: Board,
    from: Position,
    to: Position,
    wanted: Kuhle,
)
    requires
        board.can_move(from, to),
    ensures
        occurrences(board.with_move(from, to), wanted) == occurrences(board, wanted),
{
    let moved = board.at(from);
    let filled = board.with_piece(to, moved);
    let cleared = filled.with_piece(from, Kuhle::EMPTY);
    lemma_put_occurrences(board, to, moved, wanted);
    lemma_put_occurrences(filled, from, Kuhle::EMPTY, wanted);
    assert(filled.at(from) == moved);
    assert(occurrences(cleared, wanted) == occurrences(board, wanted));
    assert(occurrences(board.with_move(from, to), wanted) == occurrences(cleared, wanted));
}

/// A move neither makes nor loses a marble or a free slot.
pub proof fn lemma_move_keeps_stock(board: Board, from: Position, to: Position)
    requires
        board.can_move(from, to),
    ensures
        board.with_move(from, to).stock() == board.stock(),
{
    let after = board.with_move(from, to);
    assert forall|k: Kuhle| after.stock().count(k) == board.stock().count(k) by {
        lemma_stock_count(after, k);
        lemma_stock_count(board, k);
        lemma_move_keeps_occurrences(board, from, to, k);
    }
    assert(after.stock() =~= board.stock());
}

} // verus!
