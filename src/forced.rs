use vstd::prelude::*;
use crate::board::{apply_move, lemma_undo_move, move_applicable, moves_applicable, Board};
use crate::movegen::{gen_moves, get_poss_moves, lemma_gen_moves_applicable};
use crate::types::{Color, IFigure, Move};

verus! {

broadcast use vstd::array::group_array_axioms;

/// Number of occupied squares among the first `n`.
pub open spec fn pieces(s: Seq<Option<IFigure>>, n: int) -> int
    decreases n,
{
    if n <= 0 {
        0
    } else {
        pieces(s, n - 1) + (if s[n - 1] is Some { 1int } else { 0int })
    }
}

pub open spec fn occupied(v: Option<IFigure>) -> int {
    if v is Some { 1 } else { 0 }
}

proof fn lemma_pieces_update(s: Seq<Option<IFigure>>, i: int, v: Option<IFigure>, n: int)
    requires
        0 <= i < s.len(),
        n <= s.len(),
    ensures
        pieces(s.update(i, v), n) == pieces(s, n) + (if i < n { occupied(v) - occupied(s[i]) } else { 0 }),
    decreases n,
{
    if n > 0 {
        lemma_pieces_update(s, i, v, n - 1);
    }
}

proof fn lemma_pieces_bounds(s: Seq<Option<IFigure>>, n: int)
    requires
        0 <= n,
    ensures
        0 <= pieces(s, n) <= n,
    decreases n,
{
    if n > 0 {
        lemma_pieces_bounds(s, n - 1);
    }
}

/// A capture that can be played leaves one piece fewer on the board.
proof fn lemma_capture_removes_one(s: Seq<Option<IFigure>>, m: Move)
    requires
        s.len() == 100,
        move_applicable(s, m),
        m.captured_figure_no is Some,
    ensures
        pieces(apply_move(s, m), 100) == pieces(s, 100) - 1,
        pieces(s, 100) >= 1,
{
    let from = m.moved_figure_no as int;
    let to = m.square_no as int;
    let c = m.captured_figure_no.unwrap() as int;
    let s1 = s.update(from, None);
    let s2 = s1.update(to, Some(m.moved_figure));
    lemma_pieces_update(s, from, None, 100);
    lemma_pieces_update(s1, to, Some(m.moved_figure), 100);
    lemma_pieces_update(s2, c, None, 100);
    lemma_pieces_bounds(apply_move(s, m), 100);
}

/// The captures among `ms`, in order.
pub open spec fn captures_only(ms: Seq<Move>) -> Seq<Move>
    decreases ms.len(),
{
    if ms.len() == 0 {
        seq![]
    } else {
        captures_only(ms.drop_last()) + (if ms.last().captured_figure_no is Some {
            seq![ms.last()]
        } else {
            seq![]
        })
    }
}

/// Length of the longest sequence in `cs`; 0 when there is none.
pub open spec fn max_len(cs: Seq<Seq<Move>>) -> int
    decreases cs.len(),
{
    if cs.len() == 0 {
        0
    } else {
        let m = max_len(cs.drop_last());
        if cs.last().len() > m { cs.last().len() as int } else { m }
    }
}

/// The sequences of `cs` of length `k`, in order.
pub open spec fn keep_len(cs: Seq<Seq<Move>>, k: int) -> Seq<Seq<Move>>
    decreases cs.len(),
{
    if cs.len() == 0 {
        seq![]
    } else {
        keep_len(cs.drop_last(), k) + (if cs.last().len() == k { seq![cs.last()] } else { seq![] })
    }
}

/// The sequences of `cs` of the greatest length.
pub open spec fn longest(cs: Seq<Seq<Move>>) -> Seq<Seq<Move>> {
    keep_len(cs, max_len(cs))
}

/// The capture chain `[m]` alone, or `m` followed by each of `cs`.
pub open spec fn extend(m: Move, cs: Seq<Seq<Move>>) -> Seq<Seq<Move>> {
    if cs.len() == 0 {
        seq![seq![m]]
    } else {
        prefixed(m, cs)
    }
}

/// `m` followed by each of `cs`.
pub open spec fn prefixed(m: Move, cs: Seq<Seq<Move>>) -> Seq<Seq<Move>> {
    cs.map_values(|c: Seq<Move>| seq![m] + c)
}

/// The captures that the piece moved by `m` can go on with once `m` is played.
pub open spec fn continuations(s: Seq<Option<IFigure>>, m: Move) -> Seq<Move> {
    captures_only(gen_moves(apply_move(s, m), m.square_no as int, m.moved_figure))
}

/// Every capture chain that starts with one of `caps` and goes on, as long as
/// it can, by the longest continuations, in the order of `caps`. `fuel` bounds
/// the depth; it is never reached when it is the number of pieces on the board.
pub open spec fn chains(s: Seq<Option<IFigure>>, caps: Seq<Move>, fuel: nat) -> Seq<Seq<Move>>
    decreases fuel, caps.len(),
{
    if caps.len() == 0 {
        seq![]
    } else {
        let m = caps.last();
        let sub = if fuel == 0 {
            seq![]
        } else {
            longest(chains(apply_move(s, m), continuations(s, m), (fuel - 1) as nat))
        };
        chains(s, caps.drop_last(), fuel) + extend(m, sub)
    }
}

/// The longest capture chains that start with one of `caps`.
pub open spec fn resolve(s: Seq<Option<IFigure>>, caps: Seq<Move>) -> Seq<Seq<Move>> {
    longest(chains(s, caps, pieces(s, 100) as nat))
}

/// The single captures open to the pieces of `color` standing on the first `n`
/// squares, square by square.
pub open spec fn side_captures_upto(s: Seq<Option<IFigure>>, color: Color, n: int) -> Seq<Move>
    decreases n,
{
    if n <= 0 {
        seq![]
    } else {
        side_captures_upto(s, color, n - 1) + match s[n - 1] {
            Some(f) => if f.color == color { captures_only(gen_moves(s, n - 1, f)) } else { seq![] },
            None => seq![],
        }
    }
}

pub open spec fn side_captures(s: Seq<Option<IFigure>>, color: Color) -> Seq<Move> {
    side_captures_upto(s, color, 100)
}

/// Every complete capture chain open to `color`.
pub open spec fn all_chains(s: Seq<Option<IFigure>>, color: Color) -> Seq<Seq<Move>> {
    chains(s, side_captures(s, color), pieces(s, 100) as nat)
}

/// The capture chains that `color` must choose from: the longest ones; empty
/// when `color` has no capture.
pub open spec fn forced_chains(s: Seq<Option<IFigure>>, color: Color) -> Seq<Seq<Move>> {
    resolve(s, side_captures(s, color))
}

pub open spec fn chains_view(v: Seq<Vec<Move>>) -> Seq<Seq<Move>> {
    v.map_values(|c: Vec<Move>| c@)
}

pub open spec fn all_capture_steps(caps: Seq<Move>) -> bool {
    forall|i: int| 0 <= i < caps.len() ==> (#[trigger] caps[i]).captured_figure_no is Some
}

pub open spec fn all_applicable(s: Seq<Option<IFigure>>, caps: Seq<Move>) -> bool {
    forall|i: int| 0 <= i < caps.len() ==> move_applicable(s, #[trigger] caps[i])
}

fn capture_moves_of(moves: &Vec<Move>) -> (r: Vec<Move>)
    ensures
        r@ == captures_only(moves@),
{
    let mut r: Vec<Move> = Vec::new();
    let mut k: usize = 0;
    while k < moves.len()
        invariant
            k <= moves@.len(),
            r@ == captures_only(moves@.take(k as int)),
        decreases moves@.len() - k,
    {
        assert(moves@.take(k + 1).drop_last() =~= moves@.take(k as int));
        let m = moves[k];
        if m.captured_figure_no.is_some() {
            r.push(m);
        }
        k = k + 1;
        assert(r@ =~= captures_only(moves@.take(k as int)));
    }
    assert(moves@.take(k as int) =~= moves@);
    r
}

pub(crate) proof fn lemma_captures_only(ms: Seq<Move>)
    ensures
        forall|i: int| 0 <= i < captures_only(ms).len() ==> {
            &&& (#[trigger] captures_only(ms)[i]).captured_figure_no is Some
            &&& ms.contains(captures_only(ms)[i])
        },
    decreases ms.len(),
{
    if ms.len() > 0 {
        lemma_captures_only(ms.drop_last());
        let pre = captures_only(ms.drop_last());
        assert forall|i: int| 0 <= i < captures_only(ms).len() implies {
            &&& (#[trigger] captures_only(ms)[i]).captured_figure_no is Some
            &&& ms.contains(captures_only(ms)[i])
        } by {
            if i < pre.len() {
                assert(captures_only(ms)[i] == pre[i]);
                let j = choose|j: int| 0 <= j < ms.drop_last().len() && ms.drop_last()[j] == pre[i];
                assert(ms[j] == pre[i]);
            } else {
                assert(captures_only(ms)[i] == ms.last());
                assert(ms[ms.len() - 1] == ms.last());
            }
        }
    }
}

pub(crate) fn copy_chain(c: &Vec<Move>) -> (r: Vec<Move>)
    ensures
        r@ == c@,
{
    let mut r: Vec<Move> = Vec::new();
    let mut k: usize = 0;
    while k < c.len()
        invariant
            k <= c@.len(),
            r@ == c@.take(k as int),
        decreases c@.len() - k,
    {
        r.push(c[k]);
        k = k + 1;
        assert(r@ =~= c@.take(k as int));
    }
    assert(c@.take(k as int) =~= c@);
    r
}

fn prepend(m: Move, c: &Vec<Move>) -> (r: Vec<Move>)
    ensures
        r@ == seq![m] + c@,
{
    let mut r: Vec<Move> = Vec::new();
    r.push(m);
    let mut k: usize = 0;
    while k < c.len()
        invariant
            k <= c@.len(),
            r@ == seq![m] + c@.take(k as int),
        decreases c@.len() - k,
    {
        r.push(c[k]);
        k = k + 1;
        assert(r@ =~= seq![m] + c@.take(k as int));
    }
    assert(c@.take(k as int) =~= c@);
    r
}

/// The longest sequences of `cs`, with their length.
fn keep_longest(cs: &Vec<Vec<Move>>) -> (r: (usize, Vec<Vec<Move>>))
    ensures
        r.0 as int == max_len(chains_view(cs@)),
        chains_view(r.1@) == longest(chains_view(cs@)),
{
    let ghost v = chains_view(cs@);
    let mut best: usize = 0;
    let mut k: usize = 0;
    while k < cs.len()
        invariant
            k <= cs@.len(),
            v == chains_view(cs@),
            best as int == max_len(v.take(k as int)),
        decreases cs@.len() - k,
    {
        assert(v.take(k + 1).drop_last() =~= v.take(k as int));
        assert(v.take(k + 1).last() == cs@[k as int]@);
        if cs[k].len() > best {
            best = cs[k].len();
        }
        k = k + 1;
    }
    assert(v.take(k as int) =~= v);
    let mut r: Vec<Vec<Move>> = Vec::new();
    let mut k: usize = 0;
    while k < cs.len()
        invariant
            k <= cs@.len(),
            v == chains_view(cs@),
            best as int == max_len(v),
            chains_view(r@) == keep_len(v.take(k as int), best as int),
        decreases cs@.len() - k,
    {
        assert(v.take(k + 1).drop_last() =~= v.take(k as int));
        assert(v.take(k + 1).last() == cs@[k as int]@);
        let ghost before = chains_view(r@);
        if cs[k].len() == best {
            let c = copy_chain(&cs[k]);
            r.push(c);
            assert(chains_view(r@) =~= before + seq![cs@[k as int]@]);
        } else {
            assert(chains_view(r@) =~= before);
        }
        k = k + 1;
    }
    assert(v.take(k as int) =~= v);
    (best, r)
}

impl Board {
    /// The longest capture chains that start with one of `capture_moves`, with
    /// their length. Each capture is tried on the board and taken back before the
    /// next, so the board is left as it was.
    pub(crate) fn get_forced_from_captures(&mut self, capture_moves: &Vec<Move>) -> (r: (usize, Vec<Vec<Move>>))
        requires
            all_capture_steps(capture_moves@),
            all_applicable(old(self)@, capture_moves@),
        ensures
            final(self)@ == old(self)@,
            chains_view(r.1@) == resolve(old(self)@, capture_moves@),
            r.0 as int == max_len(chains(old(self)@, capture_moves@, pieces(old(self)@, 100) as nat)),
        decreases pieces(old(self)@, 100),
    {
        let ghost s0 = self@;
        let ghost caps = capture_moves@;
        if capture_moves.len() == 0 {
            let r: Vec<Vec<Move>> = Vec::new();
            assert(chains_view(r@) =~= Seq::<Seq<Move>>::empty());
            return (0, r);
        }
        assert(s0.len() == 100);
        proof {
            lemma_capture_removes_one(s0, caps[0]);
        }
        let ghost fuel = pieces(s0, 100) as nat;
        let mut all: Vec<Vec<Move>> = Vec::new();
        let mut i: usize = 0;
        assert(chains_view(all@) =~= chains(s0, caps.take(0), fuel));
        while i < capture_moves.len()
            invariant
                i <= caps.len(),
                caps == capture_moves@,
                s0.len() == 100,
                self@ == s0,
                fuel == pieces(s0, 100),
                fuel >= 1,
                s0 == old(self)@,
                all_capture_steps(caps),
                all_applicable(s0, caps),
                chains_view(all@) == chains(s0, caps.take(i as int), fuel),
            decreases caps.len() - i,
        {
            let m = capture_moves[i];
            assert(move_applicable(s0, m));
            assert(m.captured_figure_no is Some);
            proof {
                lemma_capture_removes_one(s0, m);
                lemma_pieces_bounds(apply_move(s0, m), 100);
            }
            self.make_move(&m);
            let ghost s1 = self@;
            proof {
                lemma_gen_moves_applicable(s1, m.square_no as int, m.moved_figure);
                lemma_captures_only(gen_moves(s1, m.square_no as int, m.moved_figure));
            }
            let moves = get_poss_moves(m.square_no, m.moved_figure, self);
            let conts = capture_moves_of(&moves);
            assert(all_applicable(s1, conts@)) by {
                assert forall|j: int| 0 <= j < conts@.len() implies move_applicable(s1, #[trigger] conts@[j]) by {
                    let k = choose|k: int| 0 <= k < moves@.len() && moves@[k] == conts@[j];
                    assert(move_applicable(s1, moves@[k]));
                }
            }
            let (_depth, sub) = self.get_forced_from_captures(&conts);
            self.unmake_move(&m);
            proof {
                lemma_undo_move(s0, m);
            }
            let ghost subv = chains_view(sub@);
            assert(subv == longest(chains(apply_move(s0, m), continuations(s0, m), (fuel - 1) as nat)));
            let ghost before = chains_view(all@);
            if sub.len() == 0 {
                let mut single: Vec<Move> = Vec::new();
                single.push(m);
                all.push(single);
                assert(chains_view(all@) =~= before + extend(m, subv));
            } else {
                let mut j: usize = 0;
                while j < sub.len()
                    invariant
                        j <= sub@.len(),
                        subv == chains_view(sub@),
                        chains_view(all@) == before + prefixed(m, subv.take(j as int)),
                    decreases sub@.len() - j,
                {
                    let c = prepend(m, &sub[j]);
                    assert(prefixed(m, subv.take(j + 1)) =~= prefixed(m, subv.take(j as int)).push(seq![m] + subv[j as int]));
                    let ghost prev = all@;
                    all.push(c);
                    assert(chains_view(all@) =~= chains_view(prev).push(seq![m] + subv[j as int]));
                    j = j + 1;
                    assert(chains_view(all@) =~= before + prefixed(m, subv.take(j as int)));
                }
                assert(subv.take(j as int) =~= subv);
            }
            assert(caps.take(i + 1).drop_last() =~= caps.take(i as int));
            assert(caps.take(i + 1).last() == m);
            i = i + 1;
        }
        assert(caps.take(i as int) =~= caps);
        keep_longest(&all)
    }
}

proof fn lemma_keep_len(cs: Seq<Seq<Move>>, k: int)
    ensures
        forall|i: int| 0 <= i < keep_len(cs, k).len() ==> {
            &&& (#[trigger] keep_len(cs, k)[i]).len() == k
            &&& cs.contains(keep_len(cs, k)[i])
        },
        forall|j: int| 0 <= j < cs.len() && (#[trigger] cs[j]).len() == k ==> keep_len(cs, k).contains(cs[j]),
    decreases cs.len(),
{
    if cs.len() > 0 {
        let pre = cs.drop_last();
        lemma_keep_len(pre, k);
        assert forall|i: int| 0 <= i < keep_len(cs, k).len() implies {
            &&& (#[trigger] keep_len(cs, k)[i]).len() == k
            &&& cs.contains(keep_len(cs, k)[i])
        } by {
            if i < keep_len(pre, k).len() {
                assert(keep_len(cs, k)[i] == keep_len(pre, k)[i]);
                let j = choose|j: int| 0 <= j < pre.len() && pre[j] == keep_len(pre, k)[i];
                assert(cs[j] == pre[j]);
            } else {
                assert(keep_len(cs, k)[i] == cs.last());
                assert(cs[cs.len() - 1] == cs.last());
            }
        }
        assert forall|j: int| 0 <= j < cs.len() && (#[trigger] cs[j]).len() == k implies keep_len(cs, k).contains(cs[j]) by {
            if j < pre.len() {
                assert(pre[j] == cs[j]);
                let t = choose|t: int| 0 <= t < keep_len(pre, k).len() && keep_len(pre, k)[t] == pre[j];
                assert(keep_len(cs, k)[t] == keep_len(pre, k)[t]);
            } else {
                let n = keep_len(cs, k).len() - 1;
                assert(keep_len(cs, k)[n] == cs.last());
            }
        }
    }
}

proof fn lemma_max_len(cs: Seq<Seq<Move>>)
    ensures
        forall|j: int| 0 <= j < cs.len() ==> (#[trigger] cs[j]).len() <= max_len(cs),
        cs.len() > 0 ==> exists|j: int| 0 <= j < cs.len() && (#[trigger] cs[j]).len() == max_len(cs),
        max_len(cs) >= 0,
    decreases cs.len(),
{
    if cs.len() > 0 {
        let pre = cs.drop_last();
        lemma_max_len(pre);
        assert forall|j: int| 0 <= j < cs.len() implies (#[trigger] cs[j]).len() <= max_len(cs) by {
            if j < pre.len() {
                assert(pre[j] == cs[j]);
            }
        }
        if cs.last().len() >= max_len(pre) {
            assert(cs[cs.len() - 1].len() == max_len(cs));
        } else {
            let j = choose|j: int| 0 <= j < pre.len() && (#[trigger] pre[j]).len() == max_len(pre);
            assert(cs[j] == pre[j]);
        }
    }
}

/// The sequences kept by `longest` are exactly those of the greatest length.
pub proof fn lemma_longest(cs: Seq<Seq<Move>>)
    ensures
        forall|i: int| 0 <= i < longest(cs).len() ==> {
            &&& (#[trigger] longest(cs)[i]).len() == max_len(cs)
            &&& cs.contains(longest(cs)[i])
        },
        forall|j: int| 0 <= j < cs.len() ==> (#[trigger] cs[j]).len() <= max_len(cs),
        forall|j: int| 0 <= j < cs.len() && (#[trigger] cs[j]).len() == max_len(cs) ==> longest(cs).contains(cs[j]),
        cs.len() > 0 ==> longest(cs).len() > 0,
{
    lemma_keep_len(cs, max_len(cs));
    lemma_max_len(cs);
    if cs.len() > 0 {
        let j = choose|j: int| 0 <= j < cs.len() && (#[trigger] cs[j]).len() == max_len(cs);
        assert(longest(cs).contains(cs[j]));
    }
}

/// What holds of every capture chain: it is not empty, it can be played move by
/// move, and it starts with one of the given captures.
pub open spec fn valid_chains(s: Seq<Option<IFigure>>, caps: Seq<Move>, cs: Seq<Seq<Move>>) -> bool {
    forall|i: int| 0 <= i < cs.len() ==> {
        &&& (#[trigger] cs[i]).len() >= 1
        &&& moves_applicable(s, cs[i])
        &&& caps.contains(cs[i][0])
    }
}

pub proof fn lemma_chains_valid(s: Seq<Option<IFigure>>, caps: Seq<Move>, fuel: nat)
    requires
        s.len() == 100,
        all_capture_steps(caps),
        all_applicable(s, caps),
    ensures
        valid_chains(s, caps, chains(s, caps, fuel)),
        caps.len() > 0 ==> chains(s, caps, fuel).len() > 0,
    decreases fuel, caps.len(),
{
    if caps.len() > 0 {
        let m = caps.last();
        let pre = caps.drop_last();
        assert(caps[caps.len() - 1] == m);
        assert(all_applicable(s, pre)) by {
            assert forall|i: int| 0 <= i < pre.len() implies move_applicable(s, #[trigger] pre[i]) by {
                assert(pre[i] == caps[i]);
            }
        }
        assert(all_capture_steps(pre)) by {
            assert forall|i: int| 0 <= i < pre.len() implies (#[trigger] pre[i]).captured_figure_no is Some by {
                assert(pre[i] == caps[i]);
            }
        }
        lemma_chains_valid(s, pre, fuel);
        let a = chains(s, pre, fuel);
        let s1 = apply_move(s, m);
        let sub = if fuel == 0 {
            seq![]
        } else {
            longest(chains(s1, continuations(s, m), (fuel - 1) as nat))
        };
        if fuel > 0 {
            let conts = continuations(s, m);
            let moves = gen_moves(s1, m.square_no as int, m.moved_figure);
            lemma_gen_moves_applicable(s1, m.square_no as int, m.moved_figure);
            lemma_captures_only(moves);
            assert(all_applicable(s1, conts)) by {
                assert forall|j: int| 0 <= j < conts.len() implies move_applicable(s1, #[trigger] conts[j]) by {
                    let k = choose|k: int| 0 <= k < moves.len() && moves[k] == conts[j];
                    assert(move_applicable(s1, moves[k]));
                }
            }
            lemma_chains_valid(s1, conts, (fuel - 1) as nat);
            lemma_longest(chains(s1, conts, (fuel - 1) as nat));
        }
        let e = extend(m, sub);
        assert(caps.contains(m));
        assert(move_applicable(s, m));
        assert forall|i: int| 0 <= i < e.len() implies {
            &&& (#[trigger] e[i]).len() >= 1
            &&& moves_applicable(s, e[i])
            &&& caps.contains(e[i][0])
        } by {
            if sub.len() == 0 {
                assert(e[i] == seq![m]);
                assert(seq![m].drop_first() =~= Seq::<Move>::empty());
                assert(seq![m][0] == m);
                assert(moves_applicable(s1, Seq::<Move>::empty()));
                assert(moves_applicable(s, seq![m]));
            } else {
                let c = sub[i];
                let cs = chains(s1, continuations(s, m), (fuel - 1) as nat);
                assert(cs.contains(c));
                let k = choose|k: int| 0 <= k < cs.len() && cs[k] == c;
                assert(valid_chains(s1, continuations(s, m), cs));
                assert(cs[k].len() >= 1);
                assert(moves_applicable(s1, c));
                assert(e[i] == seq![m] + c);
                assert((seq![m] + c).drop_first() =~= c);
                assert((seq![m] + c)[0] == m);
                assert(moves_applicable(s, seq![m] + c));
            }
        }
        let whole = chains(s, caps, fuel);
        assert(whole == a + e);
        assert forall|i: int| 0 <= i < whole.len() implies {
            &&& (#[trigger] whole[i]).len() >= 1
            &&& moves_applicable(s, whole[i])
            &&& caps.contains(whole[i][0])
        } by {
            if i < a.len() {
                assert(whole[i] == a[i]);
                let k = choose|k: int| 0 <= k < pre.len() && pre[k] == a[i][0];
                assert(caps[k] == pre[k]);
            } else {
                assert(whole[i] == e[i - a.len()]);
            }
        }
    }
}

/// Maximal-chain law: the chains that a side must choose from are exactly its
/// complete capture chains of the greatest length; a shorter chain is never
/// among them, however many captures it holds.
pub proof fn lemma_maximal_chain(s: Seq<Option<IFigure>>, color: Color)
    ensures
        forall|i: int| 0 <= i < forced_chains(s, color).len() ==> {
            &&& (#[trigger] forced_chains(s, color)[i]).len() == max_len(all_chains(s, color))
            &&& all_chains(s, color).contains(forced_chains(s, color)[i])
        },
        forall|j: int| 0 <= j < all_chains(s, color).len()
            ==> (#[trigger] all_chains(s, color)[j]).len() <= max_len(all_chains(s, color)),
        forall|j: int| 0 <= j < all_chains(s, color).len()
            && (#[trigger] all_chains(s, color)[j]).len() == max_len(all_chains(s, color))
            ==> forced_chains(s, color).contains(all_chains(s, color)[j]),
{
    lemma_longest(all_chains(s, color));
}

fn side_capture_moves(b: &Board, color: Color) -> (r: Vec<Move>)
    ensures
        r@ == side_captures(b@, color),
        all_capture_steps(r@),
        all_applicable(b@, r@),
{
    let ghost s = b@;
    assert(s.len() == 100);
    let mut caps: Vec<Move> = Vec::new();
    let mut sq: usize = 0;
    while sq < 100
        invariant
            sq <= 100,
            s == b@,
            s.len() == 100,
            caps@ == side_captures_upto(s, color, sq as int),
            all_capture_steps(caps@),
            all_applicable(s, caps@),
        decreases 100 - sq,
    {
        let ghost before = caps@;
        match b.get(sq) {
            Some(f) => {
                if f.color == color {
                    let moves = get_poss_moves(sq as i32, f, b);
                    let mut found = capture_moves_of(&moves);
                    proof {
                        lemma_gen_moves_applicable(s, sq as int, f);
                        lemma_captures_only(moves@);
                    }
                    let ghost fv = found@;
                    caps.append(&mut found);
                    assert(caps@ =~= before + fv);
                    assert forall|j: int| 0 <= j < caps@.len() implies {
                        &&& move_applicable(s, #[trigger] caps@[j])
                        &&& caps@[j].captured_figure_no is Some
                    } by {
                        if j >= before.len() {
                            assert(caps@[j] == fv[j - before.len()]);
                            let k = choose|k: int| 0 <= k < moves@.len() && moves@[k] == fv[j - before.len()];
                            assert(move_applicable(s, moves@[k]));
                        } else {
                            assert(caps@[j] == before[j]);
                        }
                    }
                } else {
                    assert(side_captures_upto(s, color, sq + 1) =~= before);
                }
            },
            None => {
                assert(side_captures_upto(s, color, sq + 1) =~= before);
            },
        }
        sq = sq + 1;
    }
    caps
}

impl Board {
    /// The longest capture chains open to `color`, each from its first capture
    /// on; empty when `color` has no capture. The board is left as it was.
    pub fn get_forced_moves(&mut self, color: Color) -> (r: Vec<Vec<Move>>)
        ensures
            final(self)@ == old(self)@,
            chains_view(r@) == forced_chains(old(self)@, color),
    {
        let caps = side_capture_moves(self, color);
        let (_depth, chains) = self.get_forced_from_captures(&caps);
        chains
    }
}

} // verus!
