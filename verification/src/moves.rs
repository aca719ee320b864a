//! The moves that the rules allow on a board.
//!
//! A marble moves along an edge into a free slot. The large marble and the
//! small ones take turns: after a move of the large marble a small one must
//! move, and after a small one the large one.

use vstd::prelude::*;
use crate::position::{GameState, Kuhle, Position};
use crate::board::{
    move_pos_from_to,
    pos_empty,
    pos_has_gross,
    lemma_move_keeps_stock,
    Board,
};
use crate::position::lemma_adjacent_is_touches;

verus! {

/// Whether the rules allow moving the content of `from` into `to`: `to` is
/// free, an edge joins the two slots, and `from` holds a marble whose turn it
/// is.
pub open spec fn is_legal(board: Board, from: Position, to: Position) -> bool {
    &&& board.at(to) == Kuhle::EMPTY
    &&& to.touches(from)
    &&& board.game_state.allows(board.at(from))
}

/// The test for a slot whose content may move now: it holds a marble, and one
/// of the kind whose turn it is.
pub open spec fn may_leave(board: Board) -> spec_fn(Position) -> bool {
    |pos: Position| board.game_state.allows(board.at(pos))
}

/// The neighbours of `target` whose content may move now, in the order of
/// `Position::adjacent`.
pub open spec fn sources(board: Board, target: Position) -> Seq<Position> {
    target.adjacent().filter(may_leave(board))
}

/// The function that takes a slot to the board after a move from that slot
/// into `target`.
pub open spec fn move_from(board: Board, target: Position) -> spec_fn(Position) -> Board {
    |from: Position| board.with_move(from, target)
}

/// The function that takes a slot to the boards that a move into it gives:
/// none if the slot is taken, else one for each of its `sources`.
pub open spec fn moves_into(board: Board) -> spec_fn(Position) -> Seq<Board> {
    |target: Position|
        if board.at(target) == Kuhle::EMPTY {
            sources(board, target).map_values(move_from(board, target))
        } else {
            Seq::empty()
        }
}

/// Every board that one legal move away from `board`: for each free slot in
/// walking order, and each of its neighbours that may move, the board after
/// that move.
pub open spec fn successors(board: Board) -> Seq<Board> {
    Position::all().flat_map(moves_into(board))
}

/// The neighbours of `position` from which a marble may move now: the free
/// ones are left out, and so are those whose marble is not of the kind that
/// has the turn.
pub fn neighbors(position: Position, board: &Board) -> (near: Vec<Position>)
    ensures
        near@ == sources(*board, position),
{
    let all = position.neighbors_of();
    let mut near: Vec<Position> = Vec::new();
    let mut i: usize = 0;
    proof {
        all@.take(0).lemma_filter_len(may_leave(*board));
        assert(near@ =~= all@.take(0).filter(may_leave(*board)));
    }
    while i < all.len()
        invariant
            i <= all.len(),
            all@ == position.adjacent(),
            near@ == all@.take(i as int).filter(may_leave(*board)),
        decreases all.len() - i,
    {
        let pos = all[i];
        let large = pos_has_gross(pos, board);
        let keep = !pos_empty(pos, board) && match board.game_state {
            GameState::GrossMuss => large,
            GameState::KleinMuss => !large,
        };
        proof {
            assert(keep == may_leave(*board)(pos));
            all@.lemma_take_succ_push(i as int);
            all@.take(i as int).lemma_filter_push(pos, may_leave(*board));
        }
        if keep {
            near.push(pos);
        }
        i += 1;
    }
    proof {
        assert(all@.take(all.len() as int) =~= all@);
    }
    near
}

/// Every board that one legal move leads to from `board`. The list is empty
/// where nothing can move.
pub fn possible_next_moves(board: &Board) -> (next: Vec<Board>)
    ensures
        next@ == successors(*board),
{
    let slots = Position::every();
    let mut next: Vec<Board> = Vec::new();
    let mut i: usize = 0;
    proof {
        assert(slots@.take(0).map_values(moves_into(*board)) =~= Seq::<Seq<Board>>::empty());
        assert(next@ =~= slots@.take(0).flat_map(moves_into(*board)));
    }
    while i < slots.len()
        invariant
            i <= slots.len(),
            slots@ == Position::all(),
            next@ == slots@.take(i as int).flat_map(moves_into(*board)),
        decreases slots.len() - i,
    {
        let target = slots[i];
        let ghost before = next@;
        proof {
            slots@.lemma_flat_map_take_append(moves_into(*board), i as int);
        }
        if pos_empty(target, board) {
            let near = neighbors(target, board);
            let mut j: usize = 0;
            while j < near.len()
                invariant
                    j <= near.len(),
                    near@ == sources(*board, target),
                    board.at(target) == Kuhle::EMPTY,
                    next@ == before + near@.take(j as int).map_values(move_from(*board, target)),
                decreases near.len() - j,
            {
                let from = near[j];
                proof {
                    target.adjacent().lemma_filter_pred(may_leave(*board), j as int);
                    assert(may_leave(*board)(from));
                    assert(board.can_move(from, target));
                    near@.lemma_take_succ_push(j as int);
                }
                match move_pos_from_to(*board, from, target) {
                    Ok(moved) => {
                        next.push(moved);
                    },
                    Err(_) => {},
                }
                proof {
                    assert(next@ =~= before + near@.take(j + 1).map_values(
                        move_from(*board, target),
                    ));
                }
                j += 1;
            }
            proof {
                assert(near@.take(near.len() as int) =~= near@);
            }
        } else {
            proof {
                assert(next@ =~= before + Seq::<Board>::empty());
            }
        }
        i += 1;
    }
    proof {
        assert(slots@.take(slots.len() as int) =~= slots@);
    }
    next
}

/// What a flat map holds: `item` occurs in it exactly when the function puts
/// it into the list of one of the elements.
pub proof fn lemma_flat_map_contains<A, B>(list: Seq<A>, f: spec_fn(A) -> Seq<B>, item: B)
    ensures
        list.flat_map(f).contains(item) <==> exists|k: int|
            0 <= k < list.len() && #[trigger] f(list[k]).contains(item),
    decreases list.len(),
{
    if list.len() == 0 {
        assert(list.map_values(f) =~= Seq::<Seq<B>>::empty());
        assert(list.flat_map(f) =~= Seq::<B>::empty());
    } else {
        let n = list.len() - 1;
        let front = list.take(n);
        lemma_flat_map_contains(front, f, item);
        list.lemma_flat_map_take_append(f, n);
        assert(list.take(n + 1) =~= list);
        let whole = list.flat_map(f);
        let head = front.flat_map(f);
        let tail = f(list[n]);
        assert(whole =~= head + tail);
        if whole.contains(item) {
            let at = choose|at: int| 0 <= at < whole.len() && whole[at] == item;
            if at < head.len() {
                assert(head[at] == item);
                let k = choose|k: int| 0 <= k < front.len() && #[trigger] f(front[k]).contains(item);
                assert(f(list[k]).contains(item));
            } else {
                assert(tail[at - head.len()] == item);
                assert(f(list[n]).contains(item));
            }
        }
        if exists|k: int| 0 <= k < list.len() && #[trigger] f(list[k]).contains(item) {
            let k = choose|k: int| 0 <= k < list.len() && #[trigger] f(list[k]).contains(item);
            if k < n {
                assert(f(front[k]).contains(item));
                let at = choose|at: int| 0 <= at < head.len() && head[at] == item;
                assert(whole[at] == item);
            } else {
                let at = choose|at: int| 0 <= at < tail.len() && tail[at] == item;
                assert(whole[head.len() + at] == item);
            }
        }
    }
}

/// The slots listed as sources of `target` are its neighbours that may move.
pub proof fn lemma_sources(board: Board, from: Position, target: Position)
    ensures
        sources(board, target).contains(from) <==> target.touches(from) && board.game_state.allows(
            board.at(from),
        ),
{
    let near = target.adjacent();
    let keep = may_leave(board);
    lemma_adjacent_is_touches(target, from);
    if sources(board, target).contains(from) {
        near.lemma_filter_contains_rev(keep, from);
        let j = choose|j: int| 0 <= j < near.filter(keep).len() && near.filter(keep)[j] == from;
        near.lemma_filter_pred(keep, j);
    }
    if target.touches(from) && board.game_state.allows(board.at(from)) {
        let i = choose|i: int| 0 <= i < near.len() && near[i] == from;
        near.lemma_filter_contains(keep, i);
    }
}

/// The successors of a board are the boards that a legal move gives, all of
/// them and no others.
pub proof fn lemma_successors_are_legal_moves(board: Board, next: Board)
    ensures
        successors(board).contains(next) <==> exists|from: Position, to: Position|
            is_legal(board, from, to) && next == board.with_move(from, to),
{
    let all = Position::all();
    let f = moves_into(board);
    lemma_flat_map_contains(all, f, next);
    if successors(board).contains(next) {
        let k = choose|k: int| 0 <= k < all.len() && #[trigger] f(all[k]).contains(next);
        let to = all[k];
        let list = sources(board, to);
        let made = list.map_values(move_from(board, to));
        let j = choose|j: int| 0 <= j < made.len() && made[j] == next;
        let from = list[j];
        assert(list.contains(from));
        lemma_sources(board, from, to);
        assert(is_legal(board, from, to) && next == board.with_move(from, to));
    }
    if exists|from: Position, to: Position|
        is_legal(board, from, to) && next == board.with_move(from, to) {
        let (from, to) = choose|from: Position, to: Position|
            is_legal(board, from, to) && next == board.with_move(from, to);
        crate::position::lemma_all_positions(to);
        let k = to.index();
        assert(all[k] == to);
        let list = sources(board, to);
        lemma_sources(board, from, to);
        let j = choose|j: int| 0 <= j < list.len() && list[j] == from;
        let made = list.map_values(move_from(board, to));
        assert(made[j] == next);
        assert(f(all[k]).contains(next));
    }
}

/// Each move passes the turn on: no successor of a board has the board's own
/// turn state.
pub proof fn lemma_turn_alternates(board: Board, next: Board)
    requires
        successors(board).contains(next),
    ensures
        next.game_state != board.game_state,
        next.game_state == board.game_state.flipped(),
{
    lemma_successors_are_legal_moves(board, next);
}

/// The same board has the same successors, however often they are asked for.
pub proof fn lemma_successors_deterministic(first: Board, second: Board)
    requires
        first == second,
    ensures
        successors(first) == successors(second),
{
}

/// A board on which nothing may move has no successor: each neighbour of each
/// free slot is free itself or holds a marble that does not have the turn.
pub proof fn lemma_dead_end(board: Board)
    requires
        forall|from: Position, to: Position|
            board.at(to) == Kuhle::EMPTY && to.touches(from) ==> !board.game_state.allows(
                board.at(from),
            ),
    ensures
        successors(board) == Seq::<Board>::empty(),
{
    let next = successors(board);
    if next.len() > 0 {
        assert(next.contains(next[0]));
        lemma_successors_are_legal_moves(board, next[0]);
    }
    assert(next =~= Seq::<Board>::empty());
}

/// A legal move keeps the marbles: every successor of a board holds what the
/// board holds.
pub proof fn lemma_successor_keeps_stock(board: Board, next: Board)
    requires
        successors(board).contains(next),
    ensures
        next.stock() == board.stock(),
{
    lemma_successors_are_legal_moves(board, next);
    let (from, to) = choose|from: Position, to: Position|
        is_legal(board, from, to) && next == board.with_move(from, to);
    lemma_move_keeps_stock(board, from, to);
}

} // verus!
