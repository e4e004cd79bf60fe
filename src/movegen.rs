use vstd::prelude::*;
use crate::board::{move_applicable, on_board, Board};
use crate::geometry::{
    as_ints, capture_direction, col, get_capture_direction, is_diagonal, king_dir, king_target_squares,
    man_target_squares, man_targets, ray_squares, row, valid_step,
};
use crate::types::{Color, IFigure, Kind, Move};

verus! {

pub open spec fn plain_move(from: int, fig: IFigure, to: int) -> Move {
    Move {
        moved_figure_no: from as i32,
        moved_figure: fig,
        square_no: to as i32,
        captured_figure_no: None,
        captured_figure: None,
    }
}

pub open spec fn capture_move(from: int, fig: IFigure, c: int, p: IFigure, to: int) -> Move {
    Move {
        moved_figure_no: from as i32,
        moved_figure: fig,
        square_no: to as i32,
        captured_figure_no: Some(c as i32),
        captured_figure: Some(p),
    }
}

/// The piece on `t` may be captured from `from`: it is an enemy away from the
/// outer rows and columns, and the square beyond it, in the direction of the
/// capture, is empty. Yields that capture, or nothing.
pub open spec fn capture_at(s: Seq<Option<IFigure>>, from: int, fig: IFigure, t: int) -> Seq<Move> {
    match s[t] {
        Some(p) => {
            if p.color != fig.color && col(t) != 0 && col(t) != 9 && row(t) != 0 && row(t) != 9 {
                let land = t + capture_direction(t - from);
                if s[land] is None {
                    seq![capture_move(from, fig, t, p, land)]
                } else {
                    seq![]
                }
            } else {
                seq![]
            }
        },
        None => seq![],
    }
}

/// A square a man may advance to: a plain move if it is empty, else a capture attempt.
pub open spec fn forward_moves_to(s: Seq<Option<IFigure>>, from: int, fig: IFigure, t: int) -> Seq<Move> {
    if s[t] is None {
        seq![plain_move(from, fig, t)]
    } else {
        capture_at(s, from, fig, t)
    }
}

/// A square behind a man: only a capture attempt.
pub open spec fn backward_moves_to(s: Seq<Option<IFigure>>, from: int, fig: IFigure, t: int) -> Seq<Move> {
    if s[t] is None {
        seq![]
    } else {
        capture_at(s, from, fig, t)
    }
}

pub open spec fn forward_moves(s: Seq<Option<IFigure>>, from: int, fig: IFigure, ts: Seq<int>) -> Seq<Move>
    decreases ts.len(),
{
    if ts.len() == 0 {
        seq![]
    } else {
        forward_moves(s, from, fig, ts.drop_last()) + forward_moves_to(s, from, fig, ts.last())
    }
}

pub open spec fn backward_moves(s: Seq<Option<IFigure>>, from: int, fig: IFigure, ts: Seq<int>) -> Seq<Move>
    decreases ts.len(),
{
    if ts.len() == 0 {
        seq![]
    } else {
        backward_moves(s, from, fig, ts.drop_last()) + backward_moves_to(s, from, fig, ts.last())
    }
}

/// The moves of a man on `from`: forward targets first, then backward captures.
pub open spec fn man_moves(s: Seq<Option<IFigure>>, from: int, fig: IFigure) -> Seq<Move> {
    forward_moves(s, from, fig, man_targets(from, fig.color, true))
        + backward_moves(s, from, fig, man_targets(from, fig.color, false))
}

/// A king's scan along one ray: plain moves over empty squares up to the first
/// occupied one, which ends the scan with a capture attempt.
pub open spec fn ray_moves(s: Seq<Option<IFigure>>, from: int, fig: IFigure, ts: Seq<int>) -> Seq<Move>
    decreases ts.len(),
{
    if ts.len() == 0 {
        seq![]
    } else if s[ts[0]] is None {
        seq![plain_move(from, fig, ts[0])] + ray_moves(s, from, fig, ts.drop_first())
    } else {
        capture_at(s, from, fig, ts[0])
    }
}

/// The moves along the first `n` rays of a king, in scan order.
pub open spec fn king_rays_moves(s: Seq<Option<IFigure>>, from: int, fig: IFigure, n: int) -> Seq<Move>
    decreases n,
{
    if n <= 0 {
        seq![]
    } else {
        king_rays_moves(s, from, fig, n - 1) + ray_moves(s, from, fig, ray_squares(from, king_dir(n - 1)))
    }
}

pub open spec fn king_moves(s: Seq<Option<IFigure>>, from: int, fig: IFigure) -> Seq<Move> {
    king_rays_moves(s, from, fig, 4)
}

/// Every move of the piece `fig` standing on `from`, in scan order.
pub open spec fn gen_moves(s: Seq<Option<IFigure>>, from: int, fig: IFigure) -> Seq<Move> {
    match fig.kind {
        Kind::Man => man_moves(s, from, fig),
        Kind::King => king_moves(s, from, fig),
    }
}

fn try_capture(b: &Board, from: i32, fig: IFigure, t: i32, captured: IFigure, moves: &mut Vec<Move>)
    requires
        on_board(from as int),
        on_board(t as int),
        b@[t as int] == Some(captured),
    ensures
        final(moves)@ == old(moves)@ + capture_at(b@, from as int, fig, t as int),
{
    if captured.color != fig.color && t % 10 != 0 && t % 10 != 9 && t >= 10 && t < 90 {
        let land = t + get_capture_direction(from, t);
        if b.get(land as usize).is_none() {
            moves.push(
                Move {
                    moved_figure_no: from,
                    moved_figure: fig,
                    square_no: land,
                    captured_figure_no: Some(t),
                    captured_figure: Some(captured),
                },
            );
        }
    }
    assert(moves@ =~= old(moves)@ + capture_at(b@, from as int, fig, t as int));
}

fn add_move_forward(b: &Board, from: i32, fig: IFigure, t: i32, moves: &mut Vec<Move>)
    requires
        on_board(from as int),
        on_board(t as int),
    ensures
        final(moves)@ == old(moves)@ + forward_moves_to(b@, from as int, fig, t as int),
{
    match b.get(t as usize) {
        Some(captured) => try_capture(b, from, fig, t, captured, moves),
        None => {
            moves.push(
                Move {
                    moved_figure_no: from,
                    moved_figure: fig,
                    square_no: t,
                    captured_figure_no: None,
                    captured_figure: None,
                },
            );
            assert(moves@ =~= old(moves)@ + forward_moves_to(b@, from as int, fig, t as int));
        },
    }
}

fn add_move_backwards(b: &Board, from: i32, fig: IFigure, t: i32, moves: &mut Vec<Move>)
    requires
        on_board(from as int),
        on_board(t as int),
    ensures
        final(moves)@ == old(moves)@ + backward_moves_to(b@, from as int, fig, t as int),
{
    if let Some(captured) = b.get(t as usize) {
        try_capture(b, from, fig, t, captured, moves);
    } else {
        assert(moves@ =~= old(moves)@ + backward_moves_to(b@, from as int, fig, t as int));
    }
}

proof fn lemma_targets_on_board(sq: int, color: Color, forward: bool)
    requires
        on_board(sq),
    ensures
        forall|i: int| 0 <= i < man_targets(sq, color, forward).len()
            ==> on_board(#[trigger] man_targets(sq, color, forward)[i]),
{
}

fn get_man_moves(b: &Board, from: i32, fig: IFigure) -> (r: Vec<Move>)
    requires
        on_board(from as int),
    ensures
        r@ == man_moves(b@, from as int, fig),
{
    let (forward, backward) = man_target_squares(from, fig.color);
    proof {
        lemma_targets_on_board(from as int, fig.color, true);
        lemma_targets_on_board(from as int, fig.color, false);
    }
    let ghost fs = as_ints(forward@);
    let ghost bs = as_ints(backward@);
    let mut moves: Vec<Move> = Vec::new();
    let mut k: usize = 0;
    while k < forward.len()
        invariant
            k <= forward@.len(),
            on_board(from as int),
            fs == as_ints(forward@),
            forall|i: int| 0 <= i < fs.len() ==> on_board(#[trigger] fs[i]),
            moves@ == forward_moves(b@, from as int, fig, fs.take(k as int)),
        decreases forward@.len() - k,
    {
        assert(fs.take(k + 1).drop_last() =~= fs.take(k as int));
        assert(fs[k as int] == forward@[k as int] as int);
        add_move_forward(b, from, fig, forward[k], &mut moves);
        k = k + 1;
    }
    assert(fs.take(k as int) =~= fs);
    let mut back: Vec<Move> = Vec::new();
    let mut k: usize = 0;
    while k < backward.len()
        invariant
            k <= backward@.len(),
            on_board(from as int),
            bs == as_ints(backward@),
            forall|i: int| 0 <= i < bs.len() ==> on_board(#[trigger] bs[i]),
            back@ == backward_moves(b@, from as int, fig, bs.take(k as int)),
        decreases backward@.len() - k,
    {
        assert(bs.take(k + 1).drop_last() =~= bs.take(k as int));
        assert(bs[k as int] == backward@[k as int] as int);
        add_move_backwards(b, from, fig, backward[k], &mut back);
        k = k + 1;
    }
    assert(bs.take(k as int) =~= bs);
    moves.append(&mut back);
    moves
}

proof fn lemma_ray_on_board(a: int, d: int)
    ensures
        forall|i: int| 0 <= i < ray_squares(a, d).len() ==> on_board(#[trigger] ray_squares(a, d)[i]),
    decreases (if d > 0 { 100 - a } else { a + 1 }),
{
    if valid_step(a, d) {
        lemma_ray_on_board(a + d, d);
        assert forall|i: int| 0 <= i < ray_squares(a, d).len() implies on_board(#[trigger] ray_squares(a, d)[i]) by {
            if i > 0 {
                assert(ray_squares(a, d)[i] == ray_squares(a + d, d)[i - 1]);
            }
        }
    }
}

fn scan_ray(b: &Board, from: i32, fig: IFigure, ray: &Vec<i32>, moves: &mut Vec<Move>)
    requires
        on_board(from as int),
        forall|i: int| 0 <= i < ray@.len() ==> on_board(#[trigger] ray@[i] as int),
    ensures
        final(moves)@ == old(moves)@ + ray_moves(b@, from as int, fig, as_ints(ray@)),
{
    let ghost ts = as_ints(ray@);
    let mut k: usize = 0;
    assert(ts.skip(0) =~= ts);
    while k < ray.len()
        invariant
            k <= ray@.len(),
            on_board(from as int),
            ts == as_ints(ray@),
            forall|i: int| 0 <= i < ray@.len() ==> on_board(#[trigger] ray@[i] as int),
            old(moves)@ + ray_moves(b@, from as int, fig, ts) == moves@ + ray_moves(b@, from as int, fig, ts.skip(k as int)),
        decreases ray@.len() - k,
    {
        let t = ray[k];
        let ghost rest = ts.skip(k as int);
        assert(rest[0] == t as int);
        assert(rest.drop_first() =~= ts.skip(k + 1));
        match b.get(t as usize) {
            Some(captured) => {
                try_capture(b, from, fig, t, captured, moves);
                assert(old(moves)@ + ray_moves(b@, from as int, fig, ts) =~= moves@);
                return;
            },
            None => {
                let ghost before = moves@;
                moves.push(
                    Move {
                        moved_figure_no: from,
                        moved_figure: fig,
                        square_no: t,
                        captured_figure_no: None,
                        captured_figure: None,
                    },
                );
                assert(before + ray_moves(b@, from as int, fig, rest)
                    =~= moves@ + ray_moves(b@, from as int, fig, ts.skip(k + 1)));
            },
        }
        k = k + 1;
    }
    assert(ts.skip(k as int).len() == 0);
    assert(moves@ + ray_moves(b@, from as int, fig, ts.skip(k as int)) =~= moves@);
}

fn get_king_moves(b: &Board, from: i32, fig: IFigure) -> (r: Vec<Move>)
    requires
        on_board(from as int),
    ensures
        r@ == king_moves(b@, from as int, fig),
{
    let rays = king_target_squares(from);
    let mut moves: Vec<Move> = Vec::new();
    let mut i: usize = 0;
    while i < rays.len()
        invariant
            i <= 4,
            rays@.len() == 4,
            on_board(from as int),
            forall|j: int| 0 <= j < 4 ==> as_ints(#[trigger] rays@[j]@) == ray_squares(from as int, king_dir(j)),
            moves@ == king_rays_moves(b@, from as int, fig, i as int),
        decreases 4 - i,
    {
        let ray = &rays[i];
        proof {
            lemma_ray_on_board(from as int, king_dir(i as int));
            assert forall|j: int| 0 <= j < ray@.len() implies on_board(#[trigger] ray@[j] as int) by {
                assert(as_ints(ray@)[j] == ray@[j] as int);
            }
        }
        scan_ray(b, from, fig, ray, &mut moves);
        i = i + 1;
    }
    moves
}

/// Every move of the piece `fig` standing on `from`, in scan order.
pub fn get_poss_moves(moved_figure_no: i32, moved_figure: IFigure, b: &Board) -> (r: Vec<Move>)
    requires
        on_board(moved_figure_no as int),
    ensures
        r@ == gen_moves(b@, moved_figure_no as int, moved_figure),
{
    match moved_figure.kind {
        Kind::Man => get_man_moves(b, moved_figure_no, moved_figure),
        Kind::King => get_king_moves(b, moved_figure_no, moved_figure),
    }
}

/// Going from `a` by steps of `d`, every square before `c` is empty, and `c` is
/// reached without leaving the board or wrapping round a side border.
pub open spec fn clear_path(s: Seq<Option<IFigure>>, a: int, d: int, c: int) -> bool
    decreases (if d > 0 { 100 - a } else { a + 1 }),
{
    valid_step(a, d) && (a + d == c || (s[a + d] is None && clear_path(s, a + d, d, c)))
}

/// `to` is reached from `from` along some diagonal over empty squares.
pub open spec fn open_diagonal(s: Seq<Option<IFigure>>, from: int, to: int) -> bool {
    clear_path(s, from, -11, to) || clear_path(s, from, -9, to) || clear_path(s, from, 9, to)
        || clear_path(s, from, 11, to)
}

/// `c` is reached from `from` along the diagonal `d` over empty squares, and `to`
/// is the next square past `c` on that diagonal.
pub open spec fn jump_along(s: Seq<Option<IFigure>>, from: int, d: int, c: int, to: int) -> bool {
    clear_path(s, from, d, c) && valid_step(c, d) && to == c + d
}

/// `to` lies just past the captured square `c`, on the diagonal from `from` to `c`.
pub open spec fn jump(s: Seq<Option<IFigure>>, from: int, c: int, to: int) -> bool {
    jump_along(s, from, -11, c, to) || jump_along(s, from, -9, c, to) || jump_along(s, from, 9, c, to)
        || jump_along(s, from, 11, c, to)
}

/// What every generated move satisfies: it moves `fig` from `from` to an empty
/// square on the board, a plain move along an open diagonal, a capture over one
/// enemy piece to the square just beyond it.
pub open spec fn legal_step(s: Seq<Option<IFigure>>, from: int, fig: IFigure, m: Move) -> bool {
    &&& m.moved_figure_no == from
    &&& m.moved_figure == fig
    &&& on_board(m.square_no as int)
    &&& s[m.square_no as int] is None
    &&& match m.captured_figure_no {
        None => m.captured_figure is None && open_diagonal(s, from, m.square_no as int),
        Some(c) => match m.captured_figure {
            Some(p) => s[c as int] == Some(p) && p.color != fig.color && jump(s, from, c as int, m.square_no as int),
            None => false,
        },
    }
}

/// Where `c` stands relative to `a` after one or more steps of `d`.
pub open spec fn diagonal_offset(a: int, d: int, c: int) -> bool {
    &&& is_diagonal(d)
    &&& on_board(a)
    &&& on_board(c)
    &&& (d == 9 ==> row(c) - row(a) == col(a) - col(c) && row(c) > row(a))
    &&& (d == 11 ==> row(c) - row(a) == col(c) - col(a) && row(c) > row(a))
    &&& (d == -9 ==> row(a) - row(c) == col(c) - col(a) && row(c) < row(a))
    &&& (d == -11 ==> row(a) - row(c) == col(a) - col(c) && row(c) < row(a))
}

proof fn lemma_step_offset(a: int, d: int)
    requires
        valid_step(a, d),
    ensures
        diagonal_offset(a, d, a + d),
{
}

proof fn lemma_offset_extend(a: int, d: int, c: int)
    requires
        diagonal_offset(a, d, c),
        valid_step(c, d),
    ensures
        diagonal_offset(a, d, c + d),
{
    lemma_step_offset(c, d);
}

proof fn lemma_path_offset(s: Seq<Option<IFigure>>, a: int, d: int, c: int)
    requires
        clear_path(s, a, d, c),
    ensures
        diagonal_offset(a, d, c),
    decreases (if d > 0 { 100 - a } else { a + 1 }),
{
    lemma_step_offset(a, d);
    if a + d != c {
        lemma_path_offset(s, a + d, d, c);
        let b = a + d;
        assert(diagonal_offset(b, d, c));
    }
}

proof fn lemma_offset_direction(a: int, d: int, c: int)
    requires
        diagonal_offset(a, d, c),
    ensures
        capture_direction(c - a) == d,
{
    let r = if d > 0 { row(c) - row(a) } else { row(a) - row(c) };
    assert(1 <= r <= 9);
    if d == 9 || d == -9 {
        assert((9 * r) % 11 != 0);
    } else {
        assert((11 * r) % 11 == 0);
    }
}

proof fn lemma_path_extend(s: Seq<Option<IFigure>>, a: int, d: int, c: int)
    requires
        s.len() == 100,
        clear_path(s, a, d, c),
        s[c] is None,
        valid_step(c, d),
    ensures
        clear_path(s, a, d, c + d),
    decreases (if d > 0 { 100 - a } else { a + 1 }),
{
    assert(clear_path(s, c, d, c + d));
    if a + d != c {
        lemma_path_extend(s, a + d, d, c);
    }
}

proof fn lemma_capture_at(s: Seq<Option<IFigure>>, from: int, fig: IFigure, d: int, t: int)
    requires
        s.len() == 100,
        clear_path(s, from, d, t),
    ensures
        forall|i: int| 0 <= i < capture_at(s, from, fig, t).len()
            ==> legal_step(s, from, fig, #[trigger] capture_at(s, from, fig, t)[i]),
{
    lemma_path_offset(s, from, d, t);
    lemma_offset_direction(from, d, t);
    if capture_at(s, from, fig, t).len() > 0 {
        let m = capture_at(s, from, fig, t)[0];
        assert(valid_step(t, d));
        assert(jump_along(s, from, d, t, m.square_no as int));
    }
}

proof fn lemma_forward_moves(s: Seq<Option<IFigure>>, from: int, fig: IFigure, ts: Seq<int>, forward: bool)
    requires
        s.len() == 100,
        forall|i: int| 0 <= i < ts.len() ==> valid_step(from, #[trigger] ts[i] - from),
    ensures
        forward ==> forall|i: int| 0 <= i < forward_moves(s, from, fig, ts).len()
            ==> legal_step(s, from, fig, #[trigger] forward_moves(s, from, fig, ts)[i]),
        !forward ==> forall|i: int| 0 <= i < backward_moves(s, from, fig, ts).len()
            ==> legal_step(s, from, fig, #[trigger] backward_moves(s, from, fig, ts)[i]),
    decreases ts.len(),
{
    if ts.len() > 0 {
        let t = ts.last();
        let d = t - from;
        lemma_forward_moves(s, from, fig, ts.drop_last(), forward);
        assert(clear_path(s, from, d, t));
        lemma_capture_at(s, from, fig, d, t);
        if s[t] is None {
            assert(open_diagonal(s, from, t));
        }
        let pre_f = forward_moves(s, from, fig, ts.drop_last());
        let pre_b = backward_moves(s, from, fig, ts.drop_last());
        let last_f = forward_moves_to(s, from, fig, t);
        let last_b = backward_moves_to(s, from, fig, t);
        if forward {
            assert forall|i: int| 0 <= i < forward_moves(s, from, fig, ts).len()
                implies legal_step(s, from, fig, #[trigger] forward_moves(s, from, fig, ts)[i]) by {
                if i < pre_f.len() {
                    assert(forward_moves(s, from, fig, ts)[i] == pre_f[i]);
                } else {
                    assert(forward_moves(s, from, fig, ts)[i] == last_f[i - pre_f.len()]);
                }
            }
        } else {
            assert forall|i: int| 0 <= i < backward_moves(s, from, fig, ts).len()
                implies legal_step(s, from, fig, #[trigger] backward_moves(s, from, fig, ts)[i]) by {
                if i < pre_b.len() {
                    assert(backward_moves(s, from, fig, ts)[i] == pre_b[i]);
                } else {
                    assert(backward_moves(s, from, fig, ts)[i] == last_b[i - pre_b.len()]);
                }
            }
        }
    }
}

proof fn lemma_man_targets(from: int, color: Color, forward: bool)
    requires
        on_board(from),
    ensures
        forall|i: int| 0 <= i < man_targets(from, color, forward).len()
            ==> valid_step(from, #[trigger] man_targets(from, color, forward)[i] - from),
{
}

proof fn lemma_ray_moves(s: Seq<Option<IFigure>>, from: int, fig: IFigure, d: int, cur: int)
    requires
        s.len() == 100,
        cur == from || (clear_path(s, from, d, cur) && s[cur] is None),
    ensures
        forall|i: int| 0 <= i < ray_moves(s, from, fig, ray_squares(cur, d)).len()
            ==> legal_step(s, from, fig, #[trigger] ray_moves(s, from, fig, ray_squares(cur, d))[i]),
    decreases (if d > 0 { 100 - cur } else { cur + 1 }),
{
    if valid_step(cur, d) {
        let t = cur + d;
        let ts = ray_squares(cur, d);
        assert(ts[0] == t);
        assert(ts.drop_first() =~= ray_squares(t, d));
        if cur != from {
            lemma_path_extend(s, from, d, cur);
        }
        assert(clear_path(s, from, d, t));
        if s[t] is None {
            lemma_ray_moves(s, from, fig, d, t);
            assert(open_diagonal(s, from, t));
            let rest = ray_moves(s, from, fig, ray_squares(t, d));
            assert forall|i: int| 0 <= i < ray_moves(s, from, fig, ts).len()
                implies legal_step(s, from, fig, #[trigger] ray_moves(s, from, fig, ts)[i]) by {
                if i > 0 {
                    assert(ray_moves(s, from, fig, ts)[i] == rest[i - 1]);
                }
            }
        } else {
            lemma_capture_at(s, from, fig, d, t);
        }
    }
}

proof fn lemma_king_rays(s: Seq<Option<IFigure>>, from: int, fig: IFigure, n: int)
    requires
        s.len() == 100,
        n <= 4,
    ensures
        forall|i: int| 0 <= i < king_rays_moves(s, from, fig, n).len()
            ==> legal_step(s, from, fig, #[trigger] king_rays_moves(s, from, fig, n)[i]),
    decreases n,
{
    if n > 0 {
        lemma_king_rays(s, from, fig, n - 1);
        lemma_ray_moves(s, from, fig, king_dir(n - 1), from);
        let pre = king_rays_moves(s, from, fig, n - 1);
        let last = ray_moves(s, from, fig, ray_squares(from, king_dir(n - 1)));
        assert forall|i: int| 0 <= i < king_rays_moves(s, from, fig, n).len()
            implies legal_step(s, from, fig, #[trigger] king_rays_moves(s, from, fig, n)[i]) by {
            if i < pre.len() {
                assert(king_rays_moves(s, from, fig, n)[i] == pre[i]);
            } else {
                assert(king_rays_moves(s, from, fig, n)[i] == last[i - pre.len()]);
            }
        }
    }
}

/// Every move generated for a piece is a legal step of that piece.
pub proof fn lemma_gen_moves_legal(s: Seq<Option<IFigure>>, from: int, fig: IFigure)
    requires
        s.len() == 100,
        on_board(from),
    ensures
        forall|i: int| 0 <= i < gen_moves(s, from, fig).len()
            ==> legal_step(s, from, fig, #[trigger] gen_moves(s, from, fig)[i]),
{
    match fig.kind {
        Kind::Man => {
            lemma_man_targets(from, fig.color, true);
            lemma_man_targets(from, fig.color, false);
            lemma_forward_moves(s, from, fig, man_targets(from, fig.color, true), true);
            lemma_forward_moves(s, from, fig, man_targets(from, fig.color, false), false);
        },
        Kind::King => {
            lemma_king_rays(s, from, fig, 4);
        },
    }
}

pub open spec fn distance(a: int, b: int) -> int {
    if a >= b { a - b } else { b - a }
}

/// `to` is a different square of the same diagonal as `from`.
pub open spec fn same_diagonal(from: int, to: int) -> bool {
    &&& row(to) != row(from)
    &&& distance(row(to), row(from)) == distance(col(to), col(from))
}

proof fn lemma_legal_step_geometry(s: Seq<Option<IFigure>>, from: int, fig: IFigure, m: Move)
    requires
        s.len() == 100,
        legal_step(s, from, fig, m),
    ensures
        same_diagonal(from, m.square_no as int),
        m.captured_figure_no matches Some(c) ==> {
            &&& on_board(c as int)
            &&& same_diagonal(from, c as int)
            &&& c != m.square_no
        },
{
    let to = m.square_no as int;
    match m.captured_figure_no {
        None => {
            let d = if clear_path(s, from, -11, to) {
                -11
            } else if clear_path(s, from, -9, to) {
                -9
            } else if clear_path(s, from, 9, to) {
                9
            } else {
                11
            };
            lemma_path_offset(s, from, d, to);
        },
        Some(c) => {
            let c = c as int;
            let d = if jump_along(s, from, -11, c, to) {
                -11
            } else if jump_along(s, from, -9, c, to) {
                -9
            } else if jump_along(s, from, 9, c, to) {
                9
            } else {
                11
            };
            lemma_path_offset(s, from, d, c);
            lemma_offset_extend(from, d, c);
        },
    }
}

/// Border safety: every move generated for a piece on the board ends on the
/// board, on another square of the mover's diagonal, so no move wraps round
/// the left or right border or runs off the top or bottom edge.
pub proof fn lemma_border_safety(s: Seq<Option<IFigure>>, from: int, fig: IFigure)
    requires
        s.len() == 100,
        on_board(from),
    ensures
        forall|i: int| #![trigger gen_moves(s, from, fig)[i]] 0 <= i < gen_moves(s, from, fig).len() ==> {
            &&& gen_moves(s, from, fig)[i].moved_figure_no == from
            &&& on_board(gen_moves(s, from, fig)[i].square_no as int)
            &&& same_diagonal(from, gen_moves(s, from, fig)[i].square_no as int)
        },
{
    lemma_gen_moves_legal(s, from, fig);
    assert forall|i: int| #![trigger gen_moves(s, from, fig)[i]] 0 <= i < gen_moves(s, from, fig).len() implies {
        &&& gen_moves(s, from, fig)[i].moved_figure_no == from
        &&& on_board(gen_moves(s, from, fig)[i].square_no as int)
        &&& same_diagonal(from, gen_moves(s, from, fig)[i].square_no as int)
    } by {
        lemma_legal_step_geometry(s, from, fig, gen_moves(s, from, fig)[i]);
    }
}

/// Capture legality: a generated capture removes an enemy piece that stands on
/// the mover's diagonal with only empty squares between them, and lands on the
/// empty square just beyond it on that diagonal.
pub proof fn lemma_capture_legality(s: Seq<Option<IFigure>>, from: int, fig: IFigure)
    requires
        s.len() == 100,
        on_board(from),
    ensures
        forall|i: int| #![trigger gen_moves(s, from, fig)[i]]
            0 <= i < gen_moves(s, from, fig).len() && gen_moves(s, from, fig)[i].captured_figure_no is Some
            ==> {
                let m = gen_moves(s, from, fig)[i];
                let c = m.captured_figure_no.unwrap() as int;
                &&& s[m.square_no as int] is None
                &&& m.captured_figure is Some
                &&& s[c] == m.captured_figure
                &&& m.captured_figure.unwrap().color != fig.color
                &&& jump(s, from, c, m.square_no as int)
            },
{
    lemma_gen_moves_legal(s, from, fig);
}

/// A generated move of the piece standing on `from` can be played.
pub proof fn lemma_gen_moves_applicable(s: Seq<Option<IFigure>>, from: int, fig: IFigure)
    requires
        s.len() == 100,
        on_board(from),
        s[from] == Some(fig),
    ensures
        forall|i: int| 0 <= i < gen_moves(s, from, fig).len()
            ==> move_applicable(s, #[trigger] gen_moves(s, from, fig)[i]),
{
    lemma_gen_moves_legal(s, from, fig);
    assert forall|i: int| 0 <= i < gen_moves(s, from, fig).len()
        implies move_applicable(s, #[trigger] gen_moves(s, from, fig)[i]) by {
        lemma_legal_step_geometry(s, from, fig, gen_moves(s, from, fig)[i]);
    }
}

} // verus!
