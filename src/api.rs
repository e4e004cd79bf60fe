use vstd::prelude::*;
use crate::board::{move_applicable, moves_applicable, on_board, Board};
use crate::forced::{
    all_applicable, all_capture_steps, captures_only, chains, chains_view, forced_chains, lemma_captures_only,
    lemma_chains_valid, lemma_longest, pieces, resolve, side_captures, valid_chains,
};
use crate::movegen::{gen_moves, get_poss_moves, lemma_gen_moves_applicable};
use crate::search::{first_best, lemma_side_captures_valid, lemma_value_bounds, winner};
use crate::types::{Color, IFigure, Move, MoveError};

verus! {

broadcast use vstd::array::group_array_axioms;

/// The first move of each sequence.
pub open spec fn first_moves(cs: Seq<Seq<Move>>) -> Seq<Move> {
    cs.map_values(|c: Seq<Move>| c[0])
}

/// The moves offered to the piece `fig` on `sq`: when it can capture, the first
/// captures of its longest capture chains; otherwise all its moves.
pub open spec fn piece_moves(s: Seq<Option<IFigure>>, sq: int, fig: IFigure) -> Seq<Move> {
    let caps = captures_only(gen_moves(s, sq, fig));
    if caps.len() > 0 {
        first_moves(resolve(s, caps))
    } else {
        gen_moves(s, sq, fig)
    }
}

proof fn lemma_resolve_valid(s: Seq<Option<IFigure>>, caps: Seq<Move>)
    requires
        s.len() == 100,
        all_capture_steps(caps),
        all_applicable(s, caps),
    ensures
        valid_chains(s, caps, resolve(s, caps)),
        caps.len() > 0 ==> resolve(s, caps).len() > 0,
{
    let fuel = pieces(s, 100) as nat;
    lemma_chains_valid(s, caps, fuel);
    lemma_longest(chains(s, caps, fuel));
    let r = resolve(s, caps);
    assert forall|i: int| 0 <= i < r.len() implies {
        &&& (#[trigger] r[i]).len() >= 1
        &&& moves_applicable(s, r[i])
        &&& caps.contains(r[i][0])
    } by {
        assert(chains(s, caps, fuel).contains(r[i]));
    }
}

fn take_first_moves(cs: &Vec<Vec<Move>>) -> (r: Vec<Move>)
    requires
        forall|i: int| 0 <= i < cs@.len() ==> (#[trigger] chains_view(cs@)[i]).len() >= 1,
    ensures
        r@ == first_moves(chains_view(cs@)),
{
    let mut r: Vec<Move> = Vec::new();
    let mut k: usize = 0;
    while k < cs.len()
        invariant
            k <= cs@.len(),
            forall|i: int| 0 <= i < cs@.len() ==> (#[trigger] chains_view(cs@)[i]).len() >= 1,
            r@ == first_moves(chains_view(cs@).take(k as int)),
        decreases cs@.len() - k,
    {
        assert(chains_view(cs@)[k as int] == cs@[k as int]@);
        r.push(cs[k][0]);
        k = k + 1;
        assert(r@ =~= first_moves(chains_view(cs@).take(k as int)));
    }
    assert(chains_view(cs@).take(k as int) =~= chains_view(cs@));
    r
}

/// The moves of the piece on `moved_figure_no`. When that piece can capture,
/// only the first captures of its longest capture chains are offered.
pub fn possible_moves(moved_figure_no: i32, figure_map: &Board) -> (r: Result<Vec<Move>, MoveError>)
    ensures
        !on_board(moved_figure_no as int) ==> r == Err::<Vec<Move>, MoveError>(MoveError::InvalidSquare),
        on_board(moved_figure_no as int) && figure_map@[moved_figure_no as int] is None
            ==> r == Err::<Vec<Move>, MoveError>(MoveError::EmptySquare),
        on_board(moved_figure_no as int) && figure_map@[moved_figure_no as int] is Some ==> (r matches Ok(v)
            && v@ == piece_moves(figure_map@, moved_figure_no as int, figure_map@[moved_figure_no as int].unwrap())),
{
    if moved_figure_no < 0 || moved_figure_no >= 100 {
        return Err(MoveError::InvalidSquare);
    }
    let fig = match figure_map.get(moved_figure_no as usize) {
        Some(f) => f,
        None => {
            return Err(MoveError::EmptySquare);
        },
    };
    let ghost s = figure_map@;
    let moves = get_poss_moves(moved_figure_no, fig, figure_map);
    let mut caps: Vec<Move> = Vec::new();
    let mut k: usize = 0;
    while k < moves.len()
        invariant
            k <= moves@.len(),
            caps@ == captures_only(moves@.take(k as int)),
        decreases moves@.len() - k,
    {
        assert(moves@.take(k + 1).drop_last() =~= moves@.take(k as int));
        if moves[k].captured_figure_no.is_some() {
            caps.push(moves[k]);
        }
        k = k + 1;
        assert(caps@ =~= captures_only(moves@.take(k as int)));
    }
    assert(moves@.take(k as int) =~= moves@);
    if caps.len() == 0 {
        return Ok(moves);
    }
    proof {
        lemma_gen_moves_applicable(s, moved_figure_no as int, fig);
        lemma_captures_only(moves@);
        assert forall|j: int| 0 <= j < caps@.len() implies move_applicable(s, #[trigger] caps@[j]) by {
            let i = choose|i: int| 0 <= i < moves@.len() && moves@[i] == caps@[j];
            assert(move_applicable(s, moves@[i]));
        }
        lemma_resolve_valid(s, caps@);
    }
    let mut work = *figure_map;
    let (_depth, chains) = work.get_forced_from_captures(&caps);
    Ok(take_first_moves(&chains))
}

/// The first move of each longest capture chain open to `color`; empty when
/// `color` has no capture.
pub fn forced_moves(color: Color, figure_map: &Board) -> (r: Vec<Move>)
    ensures
        r@ == first_moves(forced_chains(figure_map@, color)),
{
    let ghost s = figure_map@;
    proof {
        assert(s.len() == 100);
        lemma_side_captures_valid(s, color);
        lemma_resolve_valid(s, side_captures(s, color));
    }
    let mut work = *figure_map;
    let chains = work.get_forced_moves(color);
    take_first_moves(&chains)
}

/// The side that has won, if any: the opponent of a side that cannot move.
pub fn get_winner(figure_map: &Board) -> (r: Option<Color>)
    ensures
        r == winner(figure_map@),
{
    figure_map.get_winner()
}

/// The move sequence that a search of `depth` plies picks for `color`: the first
/// of the sequences open to it whose score equals the exhaustive minimax score.
/// Empty when `depth` is 0 or the game is over.
pub fn get_best_move(color: Color, figure_map: &Board, depth: u32) -> (r: Vec<Move>)
    ensures
        depth == 0 || winner(figure_map@) is Some ==> r@.len() == 0,
        depth > 0 && winner(figure_map@) is None ==> first_best(figure_map@, depth as nat, color, r@),
{
    proof {
        lemma_value_bounds(figure_map@, depth as nat, color);
    }
    let mut work = *figure_map;
    let (_score, best) = work.minimax(depth, i32::MIN, i32::MAX, color);
    best
}

} // verus!
