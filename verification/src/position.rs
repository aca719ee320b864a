//! Slots of the board, what a slot can hold, and whose turn it is.
//!
//! ```text
//!       TL---TM---TR
//!      / \        / \
//!     /   \      /   \
//!    /     \    /     \
//!   /       \  /       \
//! L/         MID        \R
//!  \         /\         /
//!   \       /  \       /
//!    \     /    \     /
//!     \   /      \   /
//!      \DL---DM---DR/
//! ```

use vstd::prelude::*;

verus! {

/// One of the nine slots of the board.
#[derive(Debug, Copy, Clone, PartialEq, Eq, Hash, Structural)]
pub enum Position {
    TL,
    TM,
    TR,
    DL,
    DM,
    DR,
    L,
    R,
    MID,
}

/// What a slot holds: nothing, a small glass marble, a small metal marble, or
/// the large marble.
#[derive(Debug, Copy, Clone, PartialEq, Eq, Hash, Structural)]
pub enum Kuhle {
    EMPTY,
    GLAS,
    METALL,
    GROSS,
}

/// Which kind of marble has to move next.
#[derive(Debug, Copy, Clone, PartialEq, Eq, Hash, Structural)]
pub enum GameState {
    /// The large marble must move.
    GrossMuss,
    /// A small marble must move.
    KleinMuss,
}

impl Kuhle {
    /// The two characters that stand for this kind where a board is drawn.
    pub open spec fn label_text(self) -> Seq<char> {
        match self {
            Kuhle::EMPTY => "E "@,
            Kuhle::GLAS => "G "@,
            Kuhle::METALL => "M "@,
            Kuhle::GROSS => "GR"@,
        }
    }

    /// The two characters that stand for this kind where a board is drawn.
    pub fn label(&self) -> (text: &'static str)
        ensures
            text@ == self.label_text(),
    {
        match self {
            Kuhle::EMPTY => "E ",
            Kuhle::GLAS => "G ",
            Kuhle::METALL => "M ",
            Kuhle::GROSS => "GR",
        }
    }
}

impl GameState {
    /// The other turn state.
    pub open spec fn flipped(self) -> GameState {
        match self {
            GameState::GrossMuss => GameState::KleinMuss,
            GameState::KleinMuss => GameState::GrossMuss,
        }
    }

    /// Hands the turn to the other kind of marble.
    pub fn flip(self) -> (next: GameState)
        ensures
            next == self.flipped(),
            next != self,
    {
        match self {
            GameState::GrossMuss => GameState::KleinMuss,
            GameState::KleinMuss => GameState::GrossMuss,
        }
    }

    /// Whether a marble of kind `kuhle` may move in this turn state: the large
    /// marble when it is its turn, a small one otherwise. Nothing can be moved
    /// out of a free slot.
    pub open spec fn allows(self, kuhle: Kuhle) -> bool {
        match self {
            GameState::GrossMuss => kuhle == Kuhle::GROSS,
            GameState::KleinMuss => kuhle == Kuhle::GLAS || kuhle == Kuhle::METALL,
        }
    }
}

impl Position {
    /// The nine slots, in the order in which a board is walked.
    pub open spec fn all() -> Seq<Position> {
        seq![
            Position::TL,
            Position::TM,
            Position::TR,
            Position::DL,
            Position::DM,
            Position::DR,
            Position::L,
            Position::R,
            Position::MID,
        ]
    }

    /// The place of this slot in `Position::all()`.
    pub open spec fn index(self) -> int {
        match self {
            Position::TL => 0,
            Position::TM => 1,
            Position::TR => 2,
            Position::DL => 3,
            Position::DM => 4,
            Position::DR => 5,
            Position::L => 6,
            Position::R => 7,
            Position::MID => 8,
        }
    }

    /// The slots joined to this one by an edge of the board, in a fixed order.
    pub open spec fn adjacent(self) -> Seq<Position> {
        match self {
            Position::TL => seq![Position::TM, Position::L, Position::MID],
            Position::TM => seq![Position::TL, Position::TR],
            Position::TR => seq![Position::TM, Position::MID, Position::R],
            Position::DL => seq![Position::L, Position::MID, Position::DM],
            Position::DM => seq![Position::DL, Position::DR],
            Position::DR => seq![Position::DM, Position::MID, Position::R],
            Position::L => seq![Position::TL, Position::DL],
            Position::R => seq![Position::TR, Position::DR],
            Position::MID => seq![Position::TL, Position::TR, Position::DL, Position::DR],
        }
    }

    /// Whether an edge of the board joins `self` and `other`.
    pub open spec fn touches(self, other: Position) -> bool {
        let (a, b) = if self.index() <= other.index() {
            (self, other)
        } else {
            (other, self)
        };
        ||| (a == Position::TL && b == Position::TM)
        ||| (a == Position::TL && b == Position::L)
        ||| (a == Position::TL && b == Position::MID)
        ||| (a == Position::TM && b == Position::TR)
        ||| (a == Position::TR && b == Position::R)
        ||| (a == Position::TR && b == Position::MID)
        ||| (a == Position::DL && b == Position::DM)
        ||| (a == Position::DL && b == Position::L)
        ||| (a == Position::DL && b == Position::MID)
        ||| (a == Position::DM && b == Position::DR)
        ||| (a == Position::DR && b == Position::R)
        ||| (a == Position::DR && b == Position::MID)
    }

    /// The nine slots as a vector, in walking order.
    pub fn every() -> (slots: Vec<Position>)
        ensures
            slots@ == Position::all(),
    {
        let slots = vec![
            Position::TL,
            Position::TM,
            Position::TR,
            Position::DL,
            Position::DM,
            Position::DR,
            Position::L,
            Position::R,
            Position::MID,
        ];
        assert(slots@ =~= Position::all());
        slots
    }

    /// The slots joined to this one by an edge.
    pub fn neighbors_of(self) -> (near: Vec<Position>)
        ensures
            near@ == self.adjacent(),
    {
        let near = match self {
            Position::TL => vec![Position::TM, Position::L, Position::MID],
            Position::TM => vec![Position::TL, Position::TR],
            Position::TR => vec![Position::TM, Position::MID, Position::R],
            Position::DL => vec![Position::L, Position::MID, Position::DM],
            Position::DM => vec![Position::DL, Position::DR],
            Position::DR => vec![Position::DM, Position::MID, Position::R],
            Position::L => vec![Position::TL, Position::DL],
            Position::R => vec![Position::TR, Position::DR],
            Position::MID => vec![Position::TL, Position::TR, Position::DL, Position::DR],
        };
        assert(near@ =~= self.adjacent());
        near
    }
}

/// Every slot stands in `Position::all()`, at its own index and nowhere else.
pub proof fn lemma_all_positions(pos: Position)
    ensures
        Position::all().len() == 9,
        0 <= pos.index() < 9,
        Position::all()[pos.index()] == pos,
        Position::all().contains(pos),
        Position::all().no_duplicates(),
{
    let all = Position::all();
    assert(all[pos.index()] == pos);
    assert forall|i: int, j: int| 0 <= i < all.len() && 0 <= j < all.len() && i != j implies all[i]
        != all[j] by {
        assert(all[i].index() == i);
        assert(all[j].index() == j);
    }
}

/// The neighbour lists are the edges of the board: `b` is listed for `a`
/// exactly when an edge joins the two, and no slot is listed twice.
pub proof fn lemma_adjacent_is_touches(a: Position, b: Position)
    ensures
        a.adjacent().contains(b) <==> a.touches(b),
        a.adjacent().no_duplicates(),
        !a.touches(a),
{
    let near = a.adjacent();
    if a.touches(b) {
        assert(near.len() >= 2);
        if near[0] == b {
        } else if near[1] == b {
        } else if near.len() > 2 && near[2] == b {
        } else {
            assert(near.len() > 3 && near[3] == b);
        }
    }
}

/// The board's edges have no direction.
pub proof fn lemma_touches_symmetric(a: Position, b: Position)
    ensures
        a.touches(b) == b.touches(a),
        a.adjacent().contains(b) == b.adjacent().contains(a),
{
    lemma_adjacent_is_touches(a, b);
    lemma_adjacent_is_touches(b, a);
}

} // verus!
