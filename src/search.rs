use vstd::prelude::*;
use crate::board::{
    apply_move, apply_moves, lemma_undo_moves, move_applicable, move_in_bounds, moves_applicable, on_board, Board,
};
use crate::forced::{
    all_applicable, all_capture_steps, captures_only, chains, chains_view, copy_chain, forced_chains, lemma_captures_only,
    lemma_chains_valid, lemma_longest, pieces, side_captures, side_captures_upto,
};
use crate::geometry::{king_dir, ray_squares, valid_step};
use crate::movegen::{gen_moves, get_poss_moves, king_rays_moves, lemma_gen_moves_applicable, ray_moves};
use crate::types::{Color, IFigure, Kind, Move};

verus! {

broadcast use vstd::array::group_array_axioms;

/// Some piece of `color` among the first `n` squares has a move.
pub open spec fn has_moves_upto(s: Seq<Option<IFigure>>, color: Color, n: int) -> bool
    decreases n,
{
    n > 0 && (has_moves_upto(s, color, n - 1) || match s[n - 1] {
        Some(f) => f.color == color && gen_moves(s, n - 1, f).len() > 0,
        None => false,
    })
}

/// `color` cannot move: none of its pieces has a move, or it has no piece left.
pub open spec fn blocked(s: Seq<Option<IFigure>>, color: Color) -> bool {
    !has_moves_upto(s, color, 100)
}

/// The side that has won: the opponent of a blocked side. When both sides are
/// blocked, Black is reported.
pub open spec fn winner(s: Seq<Option<IFigure>>) -> Option<Color> {
    if blocked(s, Color::White) {
        Some(Color::Black)
    } else if blocked(s, Color::Black) {
        Some(Color::White)
    } else {
        None
    }
}

/// Material value of what stands on a square, from White's side: a man counts
/// 1 and a king 3.
pub open spec fn square_value(v: Option<IFigure>) -> int {
    match v {
        Some(f) => {
            let w: int = match f.kind {
                Kind::Man => 1,
                Kind::King => 3,
            };
            if f.color == Color::White { w } else { -w }
        },
        None => 0,
    }
}

pub open spec fn rating_upto(s: Seq<Option<IFigure>>, n: int) -> int
    decreases n,
{
    if n <= 0 {
        0
    } else {
        rating_upto(s, n - 1) + square_value(s[n - 1])
    }
}

/// White's material minus Black's.
pub open spec fn rating(s: Seq<Option<IFigure>>) -> int {
    rating_upto(s, 100)
}

/// Every move of every piece of `color` among the first `n` squares, square by square.
pub open spec fn side_moves_upto(s: Seq<Option<IFigure>>, color: Color, n: int) -> Seq<Move>
    decreases n,
{
    if n <= 0 {
        seq![]
    } else {
        side_moves_upto(s, color, n - 1) + match s[n - 1] {
            Some(f) => if f.color == color { gen_moves(s, n - 1, f) } else { seq![] },
            None => seq![],
        }
    }
}

pub open spec fn singletons(ms: Seq<Move>) -> Seq<Seq<Move>> {
    ms.map_values(|m: Move| seq![m])
}

/// The move sequences open to `color`: the longest capture chains when it has a
/// capture, else each single move of each of its pieces.
pub open spec fn available(s: Seq<Option<IFigure>>, color: Color) -> Seq<Seq<Move>> {
    if forced_chains(s, color).len() > 0 {
        forced_chains(s, color)
    } else {
        singletons(side_moves_upto(s, color, 100))
    }
}

proof fn lemma_rating_bounds(s: Seq<Option<IFigure>>, n: int)
    requires
        0 <= n,
    ensures
        -3 * n <= rating_upto(s, n) <= 3 * n,
    decreases n,
{
    if n > 0 {
        lemma_rating_bounds(s, n - 1);
    }
}

impl Board {
    /// The side that has won, if any.
    pub fn get_winner(&self) -> (r: Option<Color>)
        ensures
            r == winner(self@),
    {
        let black_moves = self.side_has_moves(Color::Black);
        let white_moves = self.side_has_moves(Color::White);
        let mut result: Option<Color> = None;
        if !black_moves {
            result = Some(Color::White);
        }
        if !white_moves {
            result = Some(Color::Black);
        }
        result
    }

    fn side_has_moves(&self, color: Color) -> (r: bool)
        ensures
            r == has_moves_upto(self@, color, 100),
    {
        let mut any: bool = false;
        let mut sq: usize = 0;
        while sq < 100
            invariant
                sq <= 100,
                any == has_moves_upto(self@, color, sq as int),
            decreases 100 - sq,
        {
            if !any {
                if let Some(f) = self.get(sq) {
                    if f.color == color {
                        let moves = get_poss_moves(sq as i32, f, self);
                        any = moves.len() > 0;
                    }
                }
            }
            sq = sq + 1;
        }
        any
    }

    /// White's material minus Black's: a man counts 1, a king 3.
    pub fn get_rating(&self) -> (r: i32)
        ensures
            r as int == rating(self@),
            -300 <= r <= 300,
    {
        let mut total: i32 = 0;
        let mut sq: usize = 0;
        while sq < 100
            invariant
                sq <= 100,
                total as int == rating_upto(self@, sq as int),
                -3 * sq <= total <= 3 * sq,
            decreases 100 - sq,
        {
            if let Some(f) = self.get(sq) {
                let w: i32 = match f.kind {
                    Kind::Man => 1,
                    Kind::King => 3,
                };
                if f.color == Color::White {
                    total = total + w;
                } else {
                    total = total - w;
                }
            }
            sq = sq + 1;
        }
        total
    }

    fn side_moves(&self, color: Color) -> (r: Vec<Move>)
        ensures
            r@ == side_moves_upto(self@, color, 100),
    {
        let mut moves: Vec<Move> = Vec::new();
        let mut sq: usize = 0;
        while sq < 100
            invariant
                sq <= 100,
                moves@ == side_moves_upto(self@, color, sq as int),
            decreases 100 - sq,
        {
            let ghost before = moves@;
            match self.get(sq) {
                Some(f) => {
                    if f.color == color {
                        let mut found = get_poss_moves(sq as i32, f, self);
                        let ghost fv = found@;
                        moves.append(&mut found);
                        assert(moves@ =~= before + fv);
                    } else {
                        assert(side_moves_upto(self@, color, sq + 1) =~= before);
                    }
                },
                None => {
                    assert(side_moves_upto(self@, color, sq + 1) =~= before);
                },
            }
            sq = sq + 1;
        }
        moves
    }

    /// The move sequences open to `color`. The board is left as it was.
    pub fn get_available_moves(&mut self, color: Color) -> (r: Vec<Vec<Move>>)
        ensures
            final(self)@ == old(self)@,
            chains_view(r@) == available(old(self)@, color),
    {
        let forced = self.get_forced_moves(color);
        if forced.len() > 0 {
            return forced;
        }
        let moves = self.side_moves(color);
        let mut r: Vec<Vec<Move>> = Vec::new();
        let mut k: usize = 0;
        while k < moves.len()
            invariant
                k <= moves@.len(),
                chains_view(r@) == singletons(moves@.take(k as int)),
            decreases moves@.len() - k,
        {
            let mut single: Vec<Move> = Vec::new();
            single.push(moves[k]);
            let ghost prev = r@;
            r.push(single);
            assert(chains_view(r@) =~= chains_view(prev).push(seq![moves@[k as int]]));
            k = k + 1;
            assert(chains_view(r@) =~= singletons(moves@.take(k as int)));
        }
        assert(moves@.take(k as int) =~= moves@);
        r
    }
}

proof fn lemma_side_captures(s: Seq<Option<IFigure>>, color: Color, n: int)
    requires
        s.len() == 100,
        n <= 100,
    ensures
        all_capture_steps(side_captures_upto(s, color, n)),
        all_applicable(s, side_captures_upto(s, color, n)),
    decreases n,
{
    if n > 0 {
        lemma_side_captures(s, color, n - 1);
        let pre = side_captures_upto(s, color, n - 1);
        let whole = side_captures_upto(s, color, n);
        if let Some(f) = s[n - 1] {
            if f.color == color {
                let moves = gen_moves(s, n - 1, f);
                let found = captures_only(moves);
                lemma_gen_moves_applicable(s, n - 1, f);
                lemma_captures_only(moves);
                assert(whole == pre + found);
                assert forall|j: int| 0 <= j < whole.len() implies {
                    &&& move_applicable(s, #[trigger] whole[j])
                    &&& whole[j].captured_figure_no is Some
                } by {
                    if j >= pre.len() {
                        assert(whole[j] == found[j - pre.len()]);
                        let k = choose|k: int| 0 <= k < moves.len() && moves[k] == found[j - pre.len()];
                        assert(move_applicable(s, moves[k]));
                    } else {
                        assert(whole[j] == pre[j]);
                    }
                }
            } else {
                assert(whole =~= pre);
            }
        } else {
            assert(whole =~= pre);
        }
    }
}

proof fn lemma_side_moves(s: Seq<Option<IFigure>>, color: Color, n: int)
    requires
        s.len() == 100,
        n <= 100,
    ensures
        forall|j: int| 0 <= j < side_moves_upto(s, color, n).len()
            ==> move_applicable(s, #[trigger] side_moves_upto(s, color, n)[j]),
        has_moves_upto(s, color, n) ==> side_moves_upto(s, color, n).len() > 0,
    decreases n,
{
    if n > 0 {
        lemma_side_moves(s, color, n - 1);
        let pre = side_moves_upto(s, color, n - 1);
        let whole = side_moves_upto(s, color, n);
        if let Some(f) = s[n - 1] {
            if f.color == color {
                let moves = gen_moves(s, n - 1, f);
                lemma_gen_moves_applicable(s, n - 1, f);
                assert(whole == pre + moves);
                assert forall|j: int| 0 <= j < whole.len() implies move_applicable(s, #[trigger] whole[j]) by {
                    if j >= pre.len() {
                        assert(whole[j] == moves[j - pre.len()]);
                    } else {
                        assert(whole[j] == pre[j]);
                    }
                }
            } else {
                assert(whole =~= pre);
            }
        } else {
            assert(whole =~= pre);
        }
    }
}

/// Each sequence open to a side is non-empty and can be played move by move;
/// while neither side is blocked, each side has at least one.
pub proof fn lemma_available(s: Seq<Option<IFigure>>, color: Color)
    requires
        s.len() == 100,
    ensures
        forall|i: int| 0 <= i < available(s, color).len() ==> {
            &&& (#[trigger] available(s, color)[i]).len() >= 1
            &&& moves_applicable(s, available(s, color)[i])
        },
        winner(s) is None ==> available(s, color).len() > 0,
{
    let caps = side_captures(s, color);
    let fuel = pieces(s, 100) as nat;
    lemma_side_captures(s, color, 100);
    lemma_chains_valid(s, caps, fuel);
    lemma_longest(chains(s, caps, fuel));
    lemma_side_moves(s, color, 100);
    let a = available(s, color);
    if forced_chains(s, color).len() > 0 {
        assert forall|i: int| 0 <= i < a.len() implies {
            &&& (#[trigger] a[i]).len() >= 1
            &&& moves_applicable(s, a[i])
        } by {
            assert(chains(s, caps, fuel).contains(a[i]));
        }
    } else {
        let ms = side_moves_upto(s, color, 100);
        assert forall|i: int| 0 <= i < a.len() implies {
            &&& (#[trigger] a[i]).len() >= 1
            &&& moves_applicable(s, a[i])
        } by {
            assert(a[i] == seq![ms[i]]);
            assert(move_applicable(s, ms[i]));
            assert(seq![ms[i]].drop_first() =~= Seq::<Move>::empty());
            assert(moves_applicable(apply_move(s, ms[i]), Seq::<Move>::empty()));
        }
    }
}

/// The score of the position after `ms` is played, searched `depth` plies deep.
pub open spec fn child_value(s: Seq<Option<IFigure>>, depth: nat, color: Color, ms: Seq<Move>) -> int
    decreases depth, 0nat, 0nat,
{
    if depth == 0 {
        0
    } else {
        minimax_value(apply_moves(s, ms), (depth - 1) as nat, color.opposite())
    }
}

/// Exhaustive minimax without pruning: the material score at the horizon or in
/// a won position; otherwise the best score over the sequences open to the side
/// to move, White taking the greatest and Black the least.
pub open spec fn minimax_value(s: Seq<Option<IFigure>>, depth: nat, color: Color) -> int
    decreases depth, 2nat, 0nat,
{
    if depth == 0 || winner(s) is Some {
        rating(s)
    } else {
        best_value(s, depth, color, available(s, color), available(s, color).len())
    }
}

/// The best score over the first `k` of `ms` for the side to move; the worst
/// score a side can have when `k` is 0.
pub open spec fn best_value(s: Seq<Option<IFigure>>, depth: nat, color: Color, ms: Seq<Seq<Move>>, k: nat) -> int
    decreases depth, 1nat, k,
{
    if k == 0 || k > ms.len() {
        if color == Color::White { i32::MIN as int } else { i32::MAX as int }
    } else {
        let b = best_value(s, depth, color, ms, (k - 1) as nat);
        let v = child_value(s, depth, color, ms[k - 1]);
        if color == Color::White {
            if v > b { v } else { b }
        } else {
            if v < b { v } else { b }
        }
    }
}

/// `mv` is the first of the sequences open to `color` whose score is the
/// minimax score of the position.
pub open spec fn first_best(s: Seq<Option<IFigure>>, depth: nat, color: Color, mv: Seq<Move>) -> bool {
    exists|i: int|
        #![trigger available(s, color)[i]]
        0 <= i < available(s, color).len() && mv == available(s, color)[i]
            && child_value(s, depth, color, available(s, color)[i]) == minimax_value(s, depth, color)
            && forall|j: int| 0 <= j < i ==> child_value(s, depth, color, #[trigger] available(s, color)[j])
                != minimax_value(s, depth, color)
}

proof fn lemma_applicable_in_bounds(s: Seq<Option<IFigure>>, ms: Seq<Move>)
    requires
        moves_applicable(s, ms),
    ensures
        forall|i: int| 0 <= i < ms.len() ==> move_in_bounds(#[trigger] ms[i]),
    decreases ms.len(),
{
    if ms.len() > 0 {
        lemma_applicable_in_bounds(apply_move(s, ms[0]), ms.drop_first());
        assert forall|i: int| 0 <= i < ms.len() implies move_in_bounds(#[trigger] ms[i]) by {
            if i > 0 {
                assert(ms[i] == ms.drop_first()[i - 1]);
            }
        }
    }
}

proof fn lemma_apply_moves_len(s: Seq<Option<IFigure>>, ms: Seq<Move>)
    requires
        s.len() == 100,
        moves_applicable(s, ms),
    ensures
        apply_moves(s, ms).len() == s.len(),
    decreases ms.len(),
{
    if ms.len() > 0 {
        lemma_apply_moves_len(apply_move(s, ms[0]), ms.drop_first());
    }
}

/// Between the worst score and the best one, White's running maximum never
/// decreases and bounds every score seen; Black's running minimum likewise.
proof fn lemma_best_value_order(s: Seq<Option<IFigure>>, depth: nat, color: Color, ms: Seq<Seq<Move>>, k: nat)
    requires
        k <= ms.len(),
    ensures
        forall|j: int| 0 <= j < k ==> {
            &&& color == Color::White ==> child_value(s, depth, color, #[trigger] ms[j]) <= best_value(s, depth, color, ms, k)
            &&& color != Color::White ==> child_value(s, depth, color, ms[j]) >= best_value(s, depth, color, ms, k)
        },
        forall|j: nat| j <= k ==> {
            &&& color == Color::White ==> best_value(s, depth, color, ms, j) <= #[trigger] best_value(s, depth, color, ms, k)
            &&& color != Color::White ==> best_value(s, depth, color, ms, j) >= best_value(s, depth, color, ms, k)
        },
    decreases k,
{
    if k > 0 {
        lemma_best_value_order(s, depth, color, ms, (k - 1) as nat);
    }
}

/// The exhaustive minimax score lies between -300 and 300, strictly inside the
/// full `i32` window: a pruned search started with that window returns it.
pub proof fn lemma_value_bounds(s: Seq<Option<IFigure>>, depth: nat, color: Color)
    requires
        s.len() == 100,
    ensures
        -300 <= minimax_value(s, depth, color) <= 300,
    decreases depth, 1nat, 0nat,
{
    lemma_rating_bounds(s, 100);
    if depth > 0 && winner(s) is None {
        lemma_available(s, color);
        let ms = available(s, color);
        lemma_best_bounds(s, depth, color, ms, ms.len());
    }
}

proof fn lemma_best_bounds(s: Seq<Option<IFigure>>, depth: nat, color: Color, ms: Seq<Seq<Move>>, k: nat)
    requires
        s.len() == 100,
        depth > 0,
        1 <= k <= ms.len(),
        forall|i: int| 0 <= i < ms.len() ==> moves_applicable(s, #[trigger] ms[i]),
    ensures
        -300 <= best_value(s, depth, color, ms, k) <= 300,
    decreases depth, 0nat, k,
{
    lemma_apply_moves_len(s, ms[k - 1]);
    lemma_value_bounds(apply_moves(s, ms[k - 1]), (depth - 1) as nat, color.opposite());
    let c = child_value(s, depth, color, ms[k - 1]);
    assert(c == minimax_value(apply_moves(s, ms[k - 1]), (depth - 1) as nat, color.opposite()));
    if k > 1 {
        lemma_best_bounds(s, depth, color, ms, (k - 1) as nat);
    }
    let b = best_value(s, depth, color, ms, (k - 1) as nat);
    assert(best_value(s, depth, color, ms, k) == (if color == Color::White {
        if c > b { c } else { b }
    } else {
        if c < b { c } else { b }
    }));
}

impl Board {
    /// Depth-limited minimax with alpha-beta pruning. Each sequence is played on
    /// the board and taken back, so the board is left as it was. The score
    /// agrees with the unpruned minimax score inside the window `(alpha, beta)`
    /// and lies on the same side of the window outside it; inside, the sequence
    /// is the first one open to `color` that reaches that score.
    pub fn minimax(&mut self, target_depth: u32, alpha: i32, beta: i32, color: Color) -> (r: (i32, Vec<Move>))
        requires
            alpha < beta,
        ensures
            final(self)@ == old(self)@,
            ({
                let v = minimax_value(old(self)@, target_depth as nat, color);
                &&& alpha < v < beta ==> r.0 == v
                &&& v <= alpha ==> r.0 <= alpha
                &&& v >= beta ==> r.0 >= beta
                &&& (target_depth == 0 || winner(old(self)@) is Some) ==> r.0 == v && r.1@.len() == 0
                &&& (target_depth > 0 && winner(old(self)@) is None && alpha < v < beta)
                    ==> first_best(old(self)@, target_depth as nat, color, r.1@)
            }),
        decreases target_depth,
    {
        if target_depth == 0 || self.get_winner().is_some() {
            return (self.get_rating(), Vec::new());
        }
        let ghost s0 = self@;
        let ghost depth = target_depth as nat;
        assert(s0.len() == 100);
        proof {
            lemma_available(s0, color);
        }
        let moves_vector = self.get_available_moves(color);
        let ghost ms = chains_view(moves_vector@);
        let ghost v = minimax_value(s0, depth, color);
        proof {
            lemma_best_value_order(s0, depth, color, ms, ms.len());
        }
        let mut best_move: Vec<Move> = Vec::new();
        let ghost mut best_i: int = 0;
        let mut k: usize = 0;
        if color == Color::White {
            let mut bestval: i32 = i32::MIN;
            let mut a: i32 = alpha;
            while k < moves_vector.len() && a < beta
                invariant
                    k <= ms.len(),
                    ms == chains_view(moves_vector@),
                    ms == available(s0, color),
                    color == Color::White,
                    depth == target_depth,
                    depth > 0,
                    winner(s0) is None,
                    v == best_value(s0, depth, color, ms, ms.len()),
                    s0 == self@,
                    s0 == old(self)@,
                    s0.len() == 100,
                    forall|i: int| 0 <= i < ms.len() ==> {
                        &&& (#[trigger] ms[i]).len() >= 1
                        &&& moves_applicable(s0, ms[i])
                    },
                    alpha < beta,
                    a >= alpha,
                    a >= bestval,
                    a == alpha || a == bestval,
                    best_value(s0, depth, color, ms, k as nat) <= alpha ==> bestval <= alpha,
                    best_value(s0, depth, color, ms, k as nat) >= beta ==> bestval >= beta,
                    alpha < best_value(s0, depth, color, ms, k as nat) < beta ==> {
                        &&& bestval == best_value(s0, depth, color, ms, k as nat)
                        &&& 0 <= best_i < k
                        &&& best_move@ == ms[best_i]
                        &&& child_value(s0, depth, color, ms[best_i]) == bestval
                        &&& forall|j: int| 0 <= j < best_i ==> child_value(s0, depth, color, #[trigger] ms[j]) < bestval
                    },
                decreases ms.len() - k,
            {
                let mov = &moves_vector[k];
                let ghost m = ms[k as int];
                proof {
                    lemma_applicable_in_bounds(s0, m);
                    lemma_best_value_order(s0, depth, color, ms, k as nat);
                }
                self.make_moves(mov);
                let (value, _) = self.minimax(target_depth - 1, a, beta, Color::Black);
                self.unmake_moves(mov);
                proof {
                    lemma_undo_moves(s0, m);
                }
                assert(best_value(s0, depth, color, ms, (k + 1) as nat) == ({
                    let b = best_value(s0, depth, color, ms, k as nat);
                    let c = child_value(s0, depth, color, m);
                    if c > b { c } else { b }
                }));
                if value > bestval {
                    bestval = value;
                    best_move = copy_chain(mov);
                    proof {
                        best_i = k as int;
                    }
                }
                if bestval > a {
                    a = bestval;
                }
                k = k + 1;
            }
            proof {
                lemma_best_value_order(s0, depth, color, ms, ms.len());
            }
            (bestval, best_move)
        } else {
            let mut bestval: i32 = i32::MAX;
            let mut b: i32 = beta;
            while k < moves_vector.len() && alpha < b
                invariant
                    k <= ms.len(),
                    ms == chains_view(moves_vector@),
                    ms == available(s0, color),
                    color == Color::Black,
                    depth == target_depth,
                    depth > 0,
                    winner(s0) is None,
                    v == best_value(s0, depth, color, ms, ms.len()),
                    s0 == self@,
                    s0 == old(self)@,
                    s0.len() == 100,
                    forall|i: int| 0 <= i < ms.len() ==> {
                        &&& (#[trigger] ms[i]).len() >= 1
                        &&& moves_applicable(s0, ms[i])
                    },
                    alpha < beta,
                    b <= beta,
                    b <= bestval,
                    b == beta || b == bestval,
                    best_value(s0, depth, color, ms, k as nat) >= beta ==> bestval >= beta,
                    best_value(s0, depth, color, ms, k as nat) <= alpha ==> bestval <= alpha,
                    alpha < best_value(s0, depth, color, ms, k as nat) < beta ==> {
                        &&& bestval == best_value(s0, depth, color, ms, k as nat)
                        &&& 0 <= best_i < k
                        &&& best_move@ == ms[best_i]
                        &&& child_value(s0, depth, color, ms[best_i]) == bestval
                        &&& forall|j: int| 0 <= j < best_i ==> child_value(s0, depth, color, #[trigger] ms[j]) > bestval
                    },
                decreases ms.len() - k,
            {
                let mov = &moves_vector[k];
                let ghost m = ms[k as int];
                proof {
                    lemma_applicable_in_bounds(s0, m);
                    lemma_best_value_order(s0, depth, color, ms, k as nat);
                }
                self.make_moves(mov);
                let (value, _) = self.minimax(target_depth - 1, alpha, b, Color::White);
                self.unmake_moves(mov);
                proof {
                    lemma_undo_moves(s0, m);
                }
                assert(best_value(s0, depth, color, ms, (k + 1) as nat) == ({
                    let bv = best_value(s0, depth, color, ms, k as nat);
                    let c = child_value(s0, depth, color, m);
                    if c < bv { c } else { bv }
                }));
                if value < bestval {
                    bestval = value;
                    best_move = copy_chain(mov);
                    proof {
                        best_i = k as int;
                    }
                }
                if bestval < b {
                    b = bestval;
                }
                k = k + 1;
            }
            proof {
                lemma_best_value_order(s0, depth, color, ms, ms.len());
            }
            (bestval, best_move)
        }
    }
}

pub(crate) proof fn lemma_side_captures_valid(s: Seq<Option<IFigure>>, color: Color)
    requires
        s.len() == 100,
    ensures
        all_capture_steps(side_captures(s, color)),
        all_applicable(s, side_captures(s, color)),
{
    lemma_side_captures(s, color, 100);
}

proof fn lemma_no_pieces_no_moves(s: Seq<Option<IFigure>>, color: Color, n: int)
    requires
        forall|i: int| 0 <= i < s.len() ==> !(#[trigger] s[i] matches Some(f) && f.color == color),
        n <= s.len(),
    ensures
        !has_moves_upto(s, color, n),
    decreases n,
{
    if n > 0 {
        lemma_no_pieces_no_moves(s, color, n - 1);
    }
}

proof fn lemma_has_moves_grows(s: Seq<Option<IFigure>>, color: Color, m: int, n: int)
    requires
        has_moves_upto(s, color, m),
        m <= n,
    ensures
        has_moves_upto(s, color, n),
    decreases n - m,
{
    if m < n {
        lemma_has_moves_grows(s, color, m, n - 1);
    }
}

proof fn lemma_king_rays_grow(s: Seq<Option<IFigure>>, from: int, fig: IFigure, i: int, n: int)
    requires
        0 <= i < n,
    ensures
        king_rays_moves(s, from, fig, n).len() >= ray_moves(s, from, fig, ray_squares(from, king_dir(i))).len(),
    decreases n,
{
    if i < n - 1 {
        lemma_king_rays_grow(s, from, fig, i, n - 1);
    }
}

/// Terminal correctness: with a single White king on the board and no Black
/// piece, White is the winner.
pub proof fn lemma_lone_king_wins(s: Seq<Option<IFigure>>, sq: int)
    requires
        s.len() == 100,
        on_board(sq),
        s[sq] == Some(IFigure { color: Color::White, kind: Kind::King }),
        forall|i: int| 0 <= i < 100 && i != sq ==> s[i] is None,
    ensures
        winner(s) == Some(Color::White),
{
    let fig = IFigure { color: Color::White, kind: Kind::King };
    lemma_no_pieces_no_moves(s, Color::Black, 100);
    let i: int = if sq >= 10 {
        if sq % 10 != 9 { 0 } else { 2 }
    } else {
        if sq % 10 != 9 { 1 } else { 3 }
    };
    let d = king_dir(i);
    assert(valid_step(sq, d));
    let t = sq + d;
    assert(ray_squares(sq, d)[0] == t);
    assert(s[t] is None);
    assert(ray_moves(s, sq, fig, ray_squares(sq, d)).len() > 0);
    lemma_king_rays_grow(s, sq, fig, i, 4);
    assert(gen_moves(s, sq, fig).len() > 0);
    assert(has_moves_upto(s, Color::White, sq + 1));
    lemma_has_moves_grows(s, Color::White, sq + 1, 100);
}

} // verus!
