use vstd::prelude::*;
use crate::types::{IFigure, Move, MoveError};

verus! {

broadcast use vstd::array::group_array_axioms;

/// Number of squares on the board.
pub const SQUARES: usize = 100;

pub open spec fn on_board(sq: int) -> bool {
    0 <= sq < 100
}

/// Squares named by a move all lie on the board.
pub open spec fn move_in_bounds(m: Move) -> bool {
    &&& on_board(m.moved_figure_no as int)
    &&& on_board(m.square_no as int)
    &&& match m.captured_figure_no {
        Some(c) => on_board(c as int),
        None => true,
    }
}

/// The position after `m`: the mover leaves its square and lands on the target,
/// and a captured piece is taken off.
pub open spec fn apply_move(s: Seq<Option<IFigure>>, m: Move) -> Seq<Option<IFigure>> {
    let s1 = s.update(m.moved_figure_no as int, None).update(m.square_no as int, Some(m.moved_figure));
    match m.captured_figure_no {
        Some(c) => s1.update(c as int, None),
        None => s1,
    }
}

/// The inverse step of `apply_move`: the mover goes back and a captured piece returns.
pub open spec fn undo_move(s: Seq<Option<IFigure>>, m: Move) -> Seq<Option<IFigure>> {
    let s1 = s.update(m.moved_figure_no as int, Some(m.moved_figure)).update(m.square_no as int, None);
    match (m.captured_figure_no, m.captured_figure) {
        (Some(c), Some(f)) => s1.update(c as int, Some(f)),
        _ => s1,
    }
}

/// `m` can be played in `s`: the mover stands where the move says, the target is
/// empty, and a captured piece stands on its square.
pub open spec fn move_applicable(s: Seq<Option<IFigure>>, m: Move) -> bool {
    &&& move_in_bounds(m)
    &&& m.moved_figure_no != m.square_no
    &&& s[m.moved_figure_no as int] == Some(m.moved_figure)
    &&& s[m.square_no as int] is None
    &&& match m.captured_figure_no {
        Some(c) => {
            &&& c != m.moved_figure_no
            &&& c != m.square_no
            &&& m.captured_figure is Some
            &&& s[c as int] == m.captured_figure
        },
        None => m.captured_figure is None,
    }
}

/// Applies the moves of a sequence in order.
pub open spec fn apply_moves(s: Seq<Option<IFigure>>, ms: Seq<Move>) -> Seq<Option<IFigure>>
    decreases ms.len(),
{
    if ms.len() == 0 {
        s
    } else {
        apply_moves(apply_move(s, ms[0]), ms.drop_first())
    }
}

/// Undoes the moves of a sequence, the last one first.
pub open spec fn undo_moves(s: Seq<Option<IFigure>>, ms: Seq<Move>) -> Seq<Option<IFigure>>
    decreases ms.len(),
{
    if ms.len() == 0 {
        s
    } else {
        undo_moves(undo_move(s, ms.last()), ms.drop_last())
    }
}

/// Each move of the sequence can be played in the position that the earlier ones leave.
pub open spec fn moves_applicable(s: Seq<Option<IFigure>>, ms: Seq<Move>) -> bool
    decreases ms.len(),
{
    ms.len() == 0 || (move_applicable(s, ms[0]) && moves_applicable(apply_move(s, ms[0]), ms.drop_first()))
}

/// Undoing a playable move restores the position exactly.
pub proof fn lemma_undo_move(s: Seq<Option<IFigure>>, m: Move)
    requires
        s.len() == 100,
        move_applicable(s, m),
    ensures
        undo_move(apply_move(s, m), m) == s,
{
    assert(undo_move(apply_move(s, m), m) =~= s);
}

proof fn lemma_undo_moves_first(s: Seq<Option<IFigure>>, ms: Seq<Move>)
    requires
        ms.len() > 0,
    ensures
        undo_moves(s, ms) == undo_move(undo_moves(s, ms.drop_first()), ms[0]),
    decreases ms.len(),
{
    if ms.len() == 1 {
        assert(ms.drop_last().len() == 0);
        assert(ms.drop_first().len() == 0);
        assert(ms.last() == ms[0]);
        assert(undo_moves(s, ms) == undo_moves(undo_move(s, ms[0]), ms.drop_last()));
    } else {
        let t = ms.drop_last();
        let d = ms.drop_first();
        lemma_undo_moves_first(undo_move(s, ms.last()), t);
        assert(t.drop_first() =~= d.drop_last());
        assert(d.last() == ms.last());
        assert(t[0] == ms[0]);
        assert(undo_moves(s, d) == undo_moves(undo_move(s, d.last()), d.drop_last()));
    }
}

/// Playing a sequence of moves and then undoing it, last move first, gives back
/// the position it started from: every square holds what it held before.
pub proof fn lemma_undo_moves(s: Seq<Option<IFigure>>, ms: Seq<Move>)
    requires
        s.len() == 100,
        moves_applicable(s, ms),
    ensures
        undo_moves(apply_moves(s, ms), ms) == s,
    decreases ms.len(),
{
    if ms.len() > 0 {
        let s1 = apply_move(s, ms[0]);
        lemma_undo_moves(s1, ms.drop_first());
        lemma_undo_moves_first(apply_moves(s, ms), ms);
        lemma_undo_move(s, ms[0]);
    }
}

/// The position that results from placing each `(square, piece)` pair in turn
/// on `s`; a later pair for the same square replaces an earlier one.
pub open spec fn place_all(s: Seq<Option<IFigure>>, ps: Seq<(i32, IFigure)>) -> Seq<Option<IFigure>>
    decreases ps.len(),
{
    if ps.len() == 0 {
        s
    } else {
        place_all(s, ps.drop_last()).update(ps.last().0 as int, Some(ps.last().1))
    }
}

pub open spec fn all_on_board(ps: Seq<(i32, IFigure)>) -> bool {
    forall|i: int| 0 <= i < ps.len() ==> on_board((#[trigger] ps[i]).0 as int)
}

/// The position: what stands on each of the 100 squares, row by row.
#[derive(Clone, Copy, Debug, PartialEq, Eq)]
pub struct Board {
    pub squares: [Option<IFigure>; 100],
}

impl View for Board {
    type V = Seq<Option<IFigure>>;

    open spec fn view(&self) -> Seq<Option<IFigure>> {
        self.squares@
    }
}

impl Board {
    /// An empty board.
    pub fn new() -> (r: Board)
        ensures
            r@ == Seq::new(100, |i: int| None::<IFigure>),
    {
        let r = Board { squares: vstd::array::array_fill_for_copy_types(None) };
        assert(r@ =~= Seq::new(100, |i: int| None::<IFigure>));
        r
    }

    pub fn get(&self, sq: usize) -> (r: Option<IFigure>)
        requires
            sq < 100,
        ensures
            r == self@[sq as int],
            self@.len() == 100,
    {
        self.squares[sq]
    }

    pub fn set(&mut self, sq: usize, v: Option<IFigure>)
        requires
            sq < 100,
        ensures
            final(self)@ == old(self)@.update(sq as int, v),
    {
        self.squares[sq] = v;
    }

    /// Plays one move in place.
    pub fn make_move(&mut self, m: &Move)
        requires
            move_in_bounds(*m),
        ensures
            final(self)@ == apply_move(old(self)@, *m),
    {
        self.set(m.moved_figure_no as usize, None);
        self.set(m.square_no as usize, Some(m.moved_figure));
        if let Some(c) = m.captured_figure_no {
            self.set(c as usize, None);
        }
    }

    /// Takes one move back in place.
    pub fn unmake_move(&mut self, m: &Move)
        requires
            move_in_bounds(*m),
        ensures
            final(self)@ == undo_move(old(self)@, *m),
    {
        self.set(m.moved_figure_no as usize, Some(m.moved_figure));
        self.set(m.square_no as usize, None);
        if let Some(c) = m.captured_figure_no {
            if let Some(f) = m.captured_figure {
                self.set(c as usize, Some(f));
            }
        }
    }

    /// Plays a sequence of moves in order.
    pub fn make_moves(&mut self, ms: &Vec<Move>)
        requires
            forall|i: int| 0 <= i < ms@.len() ==> move_in_bounds(#[trigger] ms@[i]),
        ensures
            final(self)@ == apply_moves(old(self)@, ms@),
    {
        let ghost s0 = self@;
        let mut k: usize = 0;
        assert(ms@.skip(0) =~= ms@);
        while k < ms.len()
            invariant
                k <= ms@.len(),
                forall|i: int| 0 <= i < ms@.len() ==> move_in_bounds(#[trigger] ms@[i]),
                apply_moves(self@, ms@.skip(k as int)) == apply_moves(s0, ms@),
            decreases ms@.len() - k,
        {
            assert(ms@.skip(k as int).drop_first() =~= ms@.skip(k + 1));
            self.make_move(&ms[k]);
            k = k + 1;
        }
        assert(ms@.skip(k as int).len() == 0);
    }

    /// Takes a sequence of moves back, the last one first.
    pub fn unmake_moves(&mut self, ms: &Vec<Move>)
        requires
            forall|i: int| 0 <= i < ms@.len() ==> move_in_bounds(#[trigger] ms@[i]),
        ensures
            final(self)@ == undo_moves(old(self)@, ms@),
    {
        let ghost s0 = self@;
        let mut k: usize = ms.len();
        assert(ms@.take(k as int) =~= ms@);
        while k > 0
            invariant
                k <= ms@.len(),
                forall|i: int| 0 <= i < ms@.len() ==> move_in_bounds(#[trigger] ms@[i]),
                undo_moves(self@, ms@.take(k as int)) == undo_moves(s0, ms@),
            decreases k,
        {
            assert(ms@.take(k as int).drop_last() =~= ms@.take(k - 1));
            self.unmake_move(&ms[k - 1]);
            k = k - 1;
        }
    }

    /// A board holding the given pieces, each on its square. A square outside
    /// `0..100` is refused.
    pub fn from_pieces(pieces: &Vec<(i32, IFigure)>) -> (r: Result<Board, MoveError>)
        ensures
            all_on_board(pieces@) ==> (r matches Ok(b) && b@ == place_all(
                Seq::new(100, |i: int| None::<IFigure>),
                pieces@,
            )),
            !all_on_board(pieces@) ==> r == Err::<Board, MoveError>(MoveError::InvalidSquare),
    {
        let mut b = Board::new();
        let ghost empty = b@;
        let mut k: usize = 0;
        while k < pieces.len()
            invariant
                k <= pieces@.len(),
                all_on_board(pieces@.take(k as int)),
                b@ == place_all(empty, pieces@.take(k as int)),
            decreases pieces@.len() - k,
        {
            let (sq, fig) = pieces[k];
            if sq < 0 || sq >= 100 {
                assert(!on_board(pieces@[k as int].0 as int));
                return Err(MoveError::InvalidSquare);
            }
            assert(pieces@.take(k + 1).drop_last() =~= pieces@.take(k as int));
            b.set(sq as usize, Some(fig));
            k = k + 1;
            assert(all_on_board(pieces@.take(k as int))) by {
                assert forall|i: int| 0 <= i < k implies on_board((#[trigger] pieces@.take(k as int)[i]).0 as int) by {
                    if i < k - 1 {
                        assert(pieces@.take(k as int)[i] == pieces@.take(k - 1)[i]);
                    }
                }
            }
        }
        assert(pieces@.take(k as int) =~= pieces@);
        Ok(b)
    }
}

} // verus!
