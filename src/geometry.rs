use vstd::prelude::*;
use crate::board::on_board;
use crate::types::Color;

verus! {

pub open spec fn row(sq: int) -> int {
    sq / 10
}

pub open spec fn col(sq: int) -> int {
    sq % 10
}

/// The four diagonal offsets: up-left, up-right, down-left, down-right.
pub open spec fn is_diagonal(d: int) -> bool {
    d == -11 || d == -9 || d == 9 || d == 11
}

/// One diagonal step from `a` by offset `d` stays on the board and does not
/// wrap round the left or right border.
pub open spec fn valid_step(a: int, d: int) -> bool {
    &&& is_diagonal(d)
    &&& on_board(a)
    &&& on_board(a + d)
    &&& ((d == -11 || d == 9) ==> col(a) != 0)
    &&& ((d == -9 || d == 11) ==> col(a) != 9)
}

/// The diagonal offset of a capture, recovered from the difference between the
/// captured square and the mover's square by its sign and its residue mod 11.
pub open spec fn capture_direction(diff: int) -> int {
    if diff > 0 {
        if diff % 11 == 0 { 11 } else { 9 }
    } else if diff % 11 == 0 {
        -11
    } else {
        -9
    }
}

/// The square one step away, if that step is valid.
pub open spec fn step_target(a: int, d: int) -> Seq<int> {
    if valid_step(a, d) { seq![a + d] } else { seq![] }
}

/// The diagonal neighbours of a man: forward ones (toward the opponent's side)
/// or backward ones, in scan order.
pub open spec fn man_targets(sq: int, color: Color, forward: bool) -> Seq<int> {
    if forward == (color == Color::White) {
        step_target(sq, -11) + step_target(sq, -9)
    } else {
        step_target(sq, 9) + step_target(sq, 11)
    }
}

/// The squares met going from `a` in direction `d` until the edge, nearest first.
pub open spec fn ray_squares(a: int, d: int) -> Seq<int>
    decreases (if d > 0 { 100 - a } else { a + 1 }),
{
    if valid_step(a, d) {
        seq![a + d] + ray_squares(a + d, d)
    } else {
        seq![]
    }
}

/// The order in which a king scans its rays: up-right, down-right, up-left, down-left.
pub open spec fn king_dir(i: int) -> int {
    if i == 0 {
        -9
    } else if i == 1 {
        11
    } else if i == 2 {
        -11
    } else {
        9
    }
}

pub open spec fn as_ints(v: Seq<i32>) -> Seq<int> {
    v.map_values(|x: i32| x as int)
}

pub fn is_valid_step(a: i32, d: i32) -> (r: bool)
    requires
        on_board(a as int),
        is_diagonal(d as int),
    ensures
        r == valid_step(a as int, d as int),
{
    let t = a + d;
    if t < 0 || t >= 100 {
        false
    } else if (d == -11 || d == 9) && a % 10 == 0 {
        false
    } else if (d == -9 || d == 11) && a % 10 == 9 {
        false
    } else {
        true
    }
}

pub fn get_capture_direction(moved_figure_no: i32, captured_figure_no: i32) -> (r: i32)
    requires
        on_board(moved_figure_no as int),
        on_board(captured_figure_no as int),
    ensures
        r as int == capture_direction(captured_figure_no - moved_figure_no),
{
    let diff = captured_figure_no - moved_figure_no;
    if diff > 0 {
        if diff % 11 == 0 { 11 } else { 9 }
    } else {
        let neg = -diff;
        assert((diff % 11 == 0) == (neg % 11 == 0));
        if neg % 11 == 0 { -11 } else { -9 }
    }
}

fn push_step_target(v: &mut Vec<i32>, a: i32, d: i32)
    requires
        on_board(a as int),
        is_diagonal(d as int),
    ensures
        as_ints(final(v)@) == as_ints(old(v)@) + step_target(a as int, d as int),
{
    if is_valid_step(a, d) {
        v.push(a + d);
        assert(as_ints(v@) =~= as_ints(old(v)@) + step_target(a as int, d as int));
    } else {
        assert(as_ints(v@) =~= as_ints(old(v)@) + step_target(a as int, d as int));
    }
}

/// The forward and the backward neighbours of a man on `sq`.
pub fn man_target_squares(sq: i32, color: Color) -> (r: (Vec<i32>, Vec<i32>))
    requires
        on_board(sq as int),
    ensures
        as_ints(r.0@) == man_targets(sq as int, color, true),
        as_ints(r.1@) == man_targets(sq as int, color, false),
{
    let mut up: Vec<i32> = Vec::new();
    push_step_target(&mut up, sq, -11);
    push_step_target(&mut up, sq, -9);
    let mut down: Vec<i32> = Vec::new();
    push_step_target(&mut down, sq, 9);
    push_step_target(&mut down, sq, 11);
    assert(as_ints(Seq::<i32>::empty()) =~= Seq::<int>::empty());
    match color {
        Color::White => (up, down),
        Color::Black => (down, up),
    }
}

/// The squares of one ray of a king on `sq`, nearest first.
pub fn get_target_squares_by_direction(sq: i32, d: i32) -> (r: Vec<i32>)
    requires
        on_board(sq as int),
        is_diagonal(d as int),
    ensures
        as_ints(r@) == ray_squares(sq as int, d as int),
{
    let mut v: Vec<i32> = Vec::new();
    let mut cur: i32 = sq;
    assert(as_ints(v@) =~= Seq::<int>::empty());
    while is_valid_step(cur, d)
        invariant
            on_board(cur as int),
            is_diagonal(d as int),
            as_ints(v@) + ray_squares(cur as int, d as int) == ray_squares(sq as int, d as int),
        decreases (if d > 0 { 100 - cur } else { cur + 1 }),
    {
        let ghost before = as_ints(v@);
        v.push(cur + d);
        assert(as_ints(v@) =~= before + seq![cur + d]);
        assert(before + ray_squares(cur as int, d as int) =~= as_ints(v@) + ray_squares(cur + d, d as int));
        cur = cur + d;
    }
    assert(as_ints(v@) + ray_squares(cur as int, d as int) =~= as_ints(v@));
    v
}

/// The four rays of a king on `sq`, in scan order.
pub fn king_target_squares(sq: i32) -> (r: Vec<Vec<i32>>)
    requires
        on_board(sq as int),
    ensures
        r@.len() == 4,
        forall|i: int| 0 <= i < 4 ==> as_ints(#[trigger] r@[i]@) == ray_squares(sq as int, king_dir(i)),
{
    let right_up = get_target_squares_by_direction(sq, -9);
    let right_down = get_target_squares_by_direction(sq, 11);
    let left_up = get_target_squares_by_direction(sq, -11);
    let left_down = get_target_squares_by_direction(sq, 9);
    vec![right_up, right_down, left_up, left_down]
}

} // verus!
