//! String pulling: the taut waypoint path through a corridor of portals.

use crate::geometry::{cross2, orient, Point3};
use vstd::prelude::*;

verus! {

/// The edge between two consecutive triangles of a corridor, as seen by one
/// who crosses it: its end point on the left and its end point on the right.
#[derive(Clone, Copy, Debug, PartialEq, Eq, Structural)]
pub struct Portal {
    pub left: Point3,
    pub right: Point3,
}

/// The state of the funnel: its apex, the ends of its two legs, and the
/// portals at which the three were taken.
pub struct Funnel {
    pub apex: Point3,
    pub left: Point3,
    pub right: Point3,
    pub apex_at: int,
    pub left_at: int,
    pub right_at: int,
}

/// The funnel collapsed onto the point `p` of portal `at`.
pub open spec fn collapsed(p: Point3, at: int) -> Funnel {
    Funnel { apex: p, left: p, right: p, apex_at: at, left_at: at, right_at: at }
}

/// The funnel `s` is about to meet portal `i`: both legs were taken at
/// portals from the apex on, and strictly after it unless the funnel has only
/// just collapsed.
pub open spec fn funnel_ready(portals: Seq<Portal>, s: Funnel, i: int) -> bool {
    &&& 0 <= s.apex_at < i <= portals.len()
    &&& s.apex_at <= s.left_at < i
    &&& s.apex_at <= s.right_at < i
    &&& if i == s.apex_at + 1 {
        s.left == s.apex && s.right == s.apex
    } else {
        s.left_at > s.apex_at && s.right_at > s.apex_at
    }
}

/// The waypoint `p`, unless it repeats the waypoint before it.
pub open spec fn emit(last: Point3, p: Point3) -> Seq<Point3> {
    if p == last {
        Seq::empty()
    } else {
        seq![p]
    }
}

/// The right end of portal `i` lies inside the funnel or on its right leg.
pub open spec fn narrows_right(portals: Seq<Portal>, s: Funnel, i: int) -> bool {
    cross2(s.apex, s.right, portals[i].right) >= 0
}

/// The right end of portal `i` lies on or beyond the left leg: the path must
/// bend around the end of the left leg. A portal end at the apex itself, or a
/// funnel whose right leg is still at the apex, crosses nothing.
pub open spec fn right_crosses_left(portals: Seq<Portal>, s: Funnel, i: int) -> bool {
    s.apex != s.right && portals[i].right != s.apex && cross2(s.apex, s.left, portals[i].right)
        >= 0
}

/// The left end of portal `i` lies inside the funnel or on its left leg.
pub open spec fn narrows_left(portals: Seq<Portal>, s: Funnel, i: int) -> bool {
    cross2(s.apex, s.left, portals[i].left) <= 0
}

/// The left end of portal `i` lies on or beyond the right leg: the path must
/// bend around the end of the right leg. A portal end at the apex itself, or a
/// funnel whose left leg is still at the apex, crosses nothing.
pub open spec fn left_crosses_right(portals: Seq<Portal>, s: Funnel, i: int) -> bool {
    s.apex != s.left && portals[i].left != s.apex && cross2(s.apex, s.right, portals[i].left)
        <= 0
}

/// The funnel with its right leg moved to the right end of portal `i`, where
/// that narrows it.
pub open spec fn after_right(portals: Seq<Portal>, s: Funnel, i: int) -> Funnel {
    if narrows_right(portals, s, i) {
        Funnel { right: portals[i].right, right_at: i, ..s }
    } else {
        s
    }
}

/// The funnel with its left leg moved to the left end of portal `i`, where
/// that narrows it.
pub open spec fn after_left(portals: Seq<Portal>, s: Funnel, i: int) -> Funnel {
    if narrows_left(portals, s, i) {
        Funnel { left: portals[i].left, left_at: i, ..s }
    } else {
        s
    }
}

/// The waypoints that follow `last` when the funnel `s` is pulled through the
/// portals from portal `i` on. Each portal first offers its right end, then
/// its left end; an end that narrows the funnel moves the leg, an end that
/// crosses the other leg makes that leg's end a waypoint and the new apex.
pub open spec fn pull(portals: Seq<Portal>, s: Funnel, i: int, last: Point3) -> Seq<Point3>
    decreases portals.len() - s.apex_at, portals.len() - i,
    when funnel_ready(portals, s, i)
{
    if i >= portals.len() {
        Seq::empty()
    } else if narrows_right(portals, s, i) && right_crosses_left(portals, s, i) {
        emit(last, s.left) + pull(portals, collapsed(s.left, s.left_at), s.left_at + 1, s.left)
    } else {
        let s1 = after_right(portals, s, i);
        if narrows_left(portals, s1, i) && left_crosses_right(portals, s1, i) {
            emit(last, s1.right) + pull(
                portals,
                collapsed(s1.right, s1.right_at),
                s1.right_at + 1,
                s1.right,
            )
        } else {
            pull(portals, after_left(portals, s1, i), i + 1, last)
        }
    }
}

/// `body` with `goal` behind it, unless `body` already leads to `goal`.
pub open spec fn closed_with(body: Seq<Point3>, goal: Point3) -> Seq<Point3> {
    if body.len() >= 2 && body.last() == goal {
        body
    } else {
        body.push(goal)
    }
}

/// The taut path through the portals: from the first portal's point, around
/// the corners that the funnel finds, to the last portal's point. It has at
/// least two points, also where the first and the last coincide.
pub open spec fn funnel_path(portals: Seq<Portal>) -> Seq<Point3> {
    if portals.len() == 0 {
        Seq::empty()
    } else {
        let start = portals[0].left;
        closed_with(
            seq![start] + pull(portals, collapsed(start, 0), 1, start),
            portals.last().left,
        )
    }
}

/// The taut path starts at the first portal and ends at the last.
pub proof fn lemma_funnel_path_ends(portals: Seq<Portal>)
    requires
        portals.len() > 0,
    ensures
        funnel_path(portals).len() >= 2,
        funnel_path(portals)[0] == portals[0].left,
        funnel_path(portals).last() == portals.last().left,
{
}

/// Through a start and a goal with nothing between them the taut path is the
/// straight segment.
pub proof fn lemma_funnel_path_direct(portals: Seq<Portal>)
    requires
        portals.len() == 2,
        portals[0].left == portals[0].right,
        portals[1].left == portals[1].right,
    ensures
        funnel_path(portals) =~= seq![portals[0].left, portals[1].left],
{
    let start = portals[0].left;
    let s = collapsed(start, 0);
    assert(funnel_ready(portals, s, 1));
    lemma_collapsed_leg(start, portals[1].right);
    lemma_collapsed_leg(start, portals[1].left);
    let s1 = after_right(portals, s, 1);
    let s2 = after_left(portals, s1, 1);
    assert(funnel_ready(portals, s2, 2));
    assert(pull(portals, s2, 2, start) =~= Seq::<Point3>::empty());
    assert(pull(portals, s, 1, start) =~= Seq::<Point3>::empty());
}

/// The goal `g` lies on or beyond the left leg of the funnel that the start
/// `s` and the portal span, so that the path has to bend around the
/// portal's left end.
pub open spec fn bends_left(s: Point3, portal: Portal, g: Point3) -> bool {
    &&& cross2(s, portal.right, g) >= 0
    &&& cross2(s, portal.left, g) >= 0
    &&& portal.right != s
    &&& portal.left != s
    &&& portal.left != g
    &&& g != s
}

/// The goal `g` lies beyond the right leg of the funnel that the start `s`
/// and the portal span, so that the path has to bend around the portal's
/// right end.
pub open spec fn bends_right(s: Point3, portal: Portal, g: Point3) -> bool {
    &&& cross2(s, portal.right, g) < 0
    &&& cross2(s, portal.left, g) <= 0
    &&& portal.left != s
}

/// The funnel collapsed onto `p` at the last portal but one finds no
/// further waypoint before the goal.
proof fn lemma_pull_last(portals: Seq<Portal>, p: Point3)
    requires
        portals.len() >= 2,
        portals.last().left == portals.last().right,
    ensures
        pull(portals, collapsed(p, portals.len() - 2), portals.len() - 1, p) =~= Seq::<Point3>::empty(),
{
    let n = portals.len() as int;
    let g = portals[n - 1].left;
    let c = collapsed(p, n - 2);
    lemma_collapsed_leg(p, g);
    assert(funnel_ready(portals, c, n - 1));
    let c1 = after_right(portals, c, n - 1);
    let c2 = after_left(portals, c1, n - 1);
    assert(funnel_ready(portals, c2, n));
    assert(pull(portals, c2, n, p) =~= Seq::<Point3>::empty());
}

/// Through one portal between a start and a goal the taut path is straight
/// where the goal lies within the funnel that the start and the portal
/// span, and bends around the end of the portal that the goal lies beyond
/// otherwise.
pub proof fn lemma_funnel_path_one_portal(portals: Seq<Portal>)
    requires
        portals.len() == 3,
        portals[0].left == portals[0].right,
        portals[2].left == portals[2].right,
    ensures
        funnel_path(portals) =~= if bends_left(portals[0].left, portals[1], portals[2].left) {
            seq![portals[0].left, portals[1].left, portals[2].left]
        } else if bends_right(portals[0].left, portals[1], portals[2].left) {
            seq![portals[0].left, portals[1].right, portals[2].left]
        } else {
            seq![portals[0].left, portals[2].left]
        },
{
    let s = portals[0].left;
    let l = portals[1].left;
    let r = portals[1].right;
    let g = portals[2].left;
    let c0 = collapsed(s, 0);
    lemma_collapsed_leg(s, l);
    lemma_collapsed_leg(s, r);
    lemma_collapsed_leg(s, g);
    lemma_collapsed_leg(g, g);
    assert(cross2(s, g, g) == 0) by (nonlinear_arith)
        requires
            cross2(s, g, g) == (g.x - s.x) * (g.z - s.z) - (g.z - s.z) * (g.x - s.x),
    ;
    assert(funnel_ready(portals, c0, 1));
    let c1 = after_right(portals, c0, 1);
    let f = after_left(portals, c1, 1);
    assert(f == (Funnel { apex: s, left: l, right: r, apex_at: 0, left_at: 1, right_at: 1 }));
    assert(funnel_ready(portals, f, 2));
    assert(pull(portals, c0, 1, s) == pull(portals, f, 2, s));
    lemma_pull_last(portals, l);
    lemma_pull_last(portals, r);
    let found = pull(portals, f, 2, s);
    assert(cross2(s, r, s) == 0) by (nonlinear_arith)
        requires
            cross2(s, r, s) == (r.x - s.x) * (s.z - s.z) - (r.z - s.z) * (s.x - s.x),
    ;
    assert(cross2(s, l, s) == 0) by (nonlinear_arith)
        requires
            cross2(s, l, s) == (l.x - s.x) * (s.z - s.z) - (l.z - s.z) * (s.x - s.x),
    ;
    assert(funnel_path(portals) == closed_with(seq![s] + found, g));
    if narrows_right(portals, f, 2) && right_crosses_left(portals, f, 2) {
        assert(found =~= emit(s, l));
        if l == s {
            assert(seq![s] + found =~= seq![s]);
        } else {
            assert(seq![s] + found =~= seq![s, l]);
        }
    } else {
        let f1 = after_right(portals, f, 2);
        if narrows_left(portals, f1, 2) && left_crosses_right(portals, f1, 2) {
            assert(funnel_ready(portals, collapsed(f1.right, f1.right_at), f1.right_at + 1));
            if narrows_right(portals, f, 2) {
                assert(f1.right == g && f1.right_at == 2);
                assert(pull(portals, collapsed(g, 2), 3, g) =~= Seq::<Point3>::empty());
                assert(found =~= emit(s, g));
                assert(seq![s] + found =~= seq![s, g]);
            } else {
                assert(found =~= emit(s, r));
                assert(seq![s] + found =~= seq![s, r]);
            }
        } else {
            let f2 = after_left(portals, f1, 2);
            assert(funnel_ready(portals, f2, 3));
            assert(pull(portals, f2, 3, s) =~= Seq::<Point3>::empty());
            assert(found =~= Seq::<Point3>::empty());
            assert(seq![s] + found =~= seq![s]);
        }
    }
}

/// `p` is an end of one of the portals.
pub open spec fn is_portal_end(portals: Seq<Portal>, p: Point3) -> bool {
    exists|k: int|
        0 <= k < portals.len() && ((#[trigger] portals[k]).left == p || portals[k].right == p)
}

/// Where `p` and every point of `rest` are ends of portals, so is every
/// point of `rest` with the waypoint `p` before it.
proof fn lemma_joined_ends(portals: Seq<Portal>, last: Point3, p: Point3, rest: Seq<Point3>)
    requires
        is_portal_end(portals, p),
        forall|j: int| 0 <= j < rest.len() ==> is_portal_end(portals, #[trigger] rest[j]),
    ensures
        forall|j: int|
            0 <= j < (emit(last, p) + rest).len() ==> is_portal_end(
                portals,
                #[trigger] (emit(last, p) + rest)[j],
            ),
{
    let head = emit(last, p);
    let whole = head + rest;
    assert forall|j: int| 0 <= j < whole.len() implies is_portal_end(portals, #[trigger] whole[j]) by {
        if j < head.len() {
            assert(whole[j] == p);
        } else {
            assert(whole[j] == rest[j - head.len()]);
        }
    }
}

/// Every waypoint that the funnel finds is an end of a portal.
pub proof fn lemma_pull_ends(portals: Seq<Portal>, s: Funnel, i: int, last: Point3)
    requires
        funnel_ready(portals, s, i),
        is_portal_end(portals, s.left),
        is_portal_end(portals, s.right),
    ensures
        forall|j: int|
            0 <= j < pull(portals, s, i, last).len() ==> is_portal_end(
                portals,
                #[trigger] pull(portals, s, i, last)[j],
            ),
    decreases portals.len() - s.apex_at, portals.len() - i,
{
    if i < portals.len() {
        lemma_collapsed_leg(s.apex, portals[i].right);
        lemma_collapsed_leg(s.apex, portals[i].left);
        assert(is_portal_end(portals, portals[i].right));
        assert(is_portal_end(portals, portals[i].left));
        let s1 = after_right(portals, s, i);
        if narrows_right(portals, s, i) && right_crosses_left(portals, s, i) {
            let rest = pull(portals, collapsed(s.left, s.left_at), s.left_at + 1, s.left);
            lemma_pull_ends(portals, collapsed(s.left, s.left_at), s.left_at + 1, s.left);
            lemma_joined_ends(portals, last, s.left, rest);
            assert(pull(portals, s, i, last) == emit(last, s.left) + rest);
        } else if narrows_left(portals, s1, i) && left_crosses_right(portals, s1, i) {
            let rest = pull(portals, collapsed(s1.right, s1.right_at), s1.right_at + 1, s1.right);
            lemma_pull_ends(portals, collapsed(s1.right, s1.right_at), s1.right_at + 1, s1.right);
            lemma_joined_ends(portals, last, s1.right, rest);
            assert(pull(portals, s, i, last) == emit(last, s1.right) + rest);
        } else {
            lemma_pull_ends(portals, after_left(portals, s1, i), i + 1, last);
            assert(pull(portals, s, i, last) == pull(
                portals,
                after_left(portals, s1, i),
                i + 1,
                last,
            ));
        }
    } else {
        assert(pull(portals, s, i, last).len() == 0);
    }
}

/// Every point of the taut path is an end of a portal: the path bends only
/// at corners of the corridor.
pub proof fn lemma_funnel_path_corners(portals: Seq<Portal>)
    ensures
        forall|j: int|
            0 <= j < funnel_path(portals).len() ==> is_portal_end(
                portals,
                #[trigger] funnel_path(portals)[j],
            ),
{
    if portals.len() > 0 {
        let start = portals[0].left;
        assert(is_portal_end(portals, portals[0].left));
        assert(is_portal_end(portals, portals[portals.len() - 1].left));
        lemma_pull_ends(portals, collapsed(start, 0), 1, start);
    }
}

/// Where `rest` neither starts at `p` nor repeats a point, `rest` with the
/// waypoint `p` before it neither starts at `last` nor repeats a point.
proof fn lemma_joined_moves(last: Point3, p: Point3, rest: Seq<Point3>)
    requires
        rest.len() > 0 ==> rest[0] != p,
        forall|j: int| 0 <= j < rest.len() - 1 ==> #[trigger] rest[j] != rest[j + 1],
    ensures
        (emit(last, p) + rest).len() > 0 ==> (emit(last, p) + rest)[0] != last,
        forall|j: int|
            0 <= j < (emit(last, p) + rest).len() - 1 ==> #[trigger] (emit(last, p) + rest)[j] != (
            emit(last, p) + rest)[j + 1],
{
    let head = emit(last, p);
    let whole = head + rest;
    assert forall|j: int| 0 <= j < whole.len() - 1 implies #[trigger] whole[j] != whole[j + 1] by {
        if head.len() > 0 {
            if j > 0 {
                assert(whole[j] == rest[j - 1]);
                assert(whole[j + 1] == rest[j]);
            } else {
                assert(whole[1] == rest[0]);
            }
        } else {
            assert(whole[j] == rest[j]);
            assert(whole[j + 1] == rest[j + 1]);
        }
    }
    if whole.len() > 0 && head.len() == 0 {
        assert(whole[0] == rest[0]);
    }
}

/// The waypoints that the funnel finds never repeat the waypoint before them.
pub proof fn lemma_pull_moves(portals: Seq<Portal>, s: Funnel, i: int, last: Point3)
    requires
        funnel_ready(portals, s, i),
    ensures
        pull(portals, s, i, last).len() > 0 ==> pull(portals, s, i, last)[0] != last,
        forall|j: int|
            0 <= j < pull(portals, s, i, last).len() - 1 ==> #[trigger] pull(portals, s, i, last)[j]
                != pull(portals, s, i, last)[j + 1],
    decreases portals.len() - s.apex_at, portals.len() - i,
{
    if i < portals.len() {
        lemma_collapsed_leg(s.apex, portals[i].right);
        lemma_collapsed_leg(s.apex, portals[i].left);
        let s1 = after_right(portals, s, i);
        if narrows_right(portals, s, i) && right_crosses_left(portals, s, i) {
            let rest = pull(portals, collapsed(s.left, s.left_at), s.left_at + 1, s.left);
            lemma_pull_moves(portals, collapsed(s.left, s.left_at), s.left_at + 1, s.left);
            lemma_joined_moves(last, s.left, rest);
            assert(pull(portals, s, i, last) == emit(last, s.left) + rest);
        } else if narrows_left(portals, s1, i) && left_crosses_right(portals, s1, i) {
            let rest = pull(portals, collapsed(s1.right, s1.right_at), s1.right_at + 1, s1.right);
            lemma_pull_moves(portals, collapsed(s1.right, s1.right_at), s1.right_at + 1, s1.right);
            lemma_joined_moves(last, s1.right, rest);
            assert(pull(portals, s, i, last) == emit(last, s1.right) + rest);
        } else {
            lemma_pull_moves(portals, after_left(portals, s1, i), i + 1, last);
            assert(pull(portals, s, i, last) == pull(
                portals,
                after_left(portals, s1, i),
                i + 1,
                last,
            ));
        }
    } else {
        assert(pull(portals, s, i, last).len() == 0);
    }
}

/// The taut path never stays in place: consecutive points differ, unless
/// the whole path is one point twice.
pub proof fn lemma_funnel_path_moves(portals: Seq<Portal>)
    ensures
        forall|j: int|
            0 <= j < funnel_path(portals).len() - 1 && funnel_path(portals).len() > 2
                ==> #[trigger] funnel_path(portals)[j] != funnel_path(portals)[j + 1],
{
    if portals.len() > 0 {
        let start = portals[0].left;
        let goal = portals[portals.len() - 1].left;
        let found = pull(portals, collapsed(start, 0), 1, start);
        let body = seq![start] + found;
        let whole = funnel_path(portals);
        lemma_pull_moves(portals, collapsed(start, 0), 1, start);
        assert forall|j: int| 0 <= j < body.len() - 1 implies #[trigger] body[j] != body[j + 1] by {
            if j > 0 {
                assert(body[j] == found[j - 1]);
                assert(body[j + 1] == found[j]);
            } else {
                assert(body[1] == found[0]);
            }
        }
        assert forall|j: int| 0 <= j < whole.len() - 1 && whole.len() > 2 implies #[trigger] whole[j]
            != whole[j + 1] by {
            if j < body.len() - 1 {
                assert(whole[j] == body[j]);
                assert(whole[j + 1] == body[j + 1]);
            }
        }
    }
}

/// A ray from a point through itself has every point on it.
pub proof fn lemma_collapsed_leg(o: Point3, q: Point3)
    ensures
        cross2(o, o, q) == 0,
{
    assert(cross2(o, o, q) == 0) by (nonlinear_arith)
        requires
            cross2(o, o, q) == (o.x - o.x) * (q.z - o.z) - (o.z - o.z) * (q.x - o.x),
    ;
}

/// Pulls the string through the portals.
pub fn string_pull(portals: &Vec<Portal>) -> (path: Vec<Point3>)
    ensures
        path@ == funnel_path(portals@),
        forall|j: int| 0 <= j < path@.len() ==> is_portal_end(portals@, #[trigger] path@[j]),
        forall|j: int|
            0 <= j < path@.len() - 1 && path@.len() > 2 ==> #[trigger] path@[j] != path@[j + 1],
{
    proof {
        lemma_funnel_path_corners(portals@);
        lemma_funnel_path_moves(portals@);
    }
    let n: usize = portals.len();
    let mut path: Vec<Point3> = Vec::new();
    if n == 0 {
        assert(path@ =~= funnel_path(portals@));
        return path;
    }
    let goal: Point3 = portals[n - 1].left;
    let mut apex: Point3 = portals[0].left;
    let mut left: Point3 = apex;
    let mut right: Point3 = apex;
    let mut apex_at: usize = 0;
    let mut left_at: usize = 0;
    let mut right_at: usize = 0;
    let mut last: Point3 = apex;
    path.push(apex);
    let mut i: usize = 1;
    while i < n
        invariant
            n == portals.len(),
            goal == portals@.last().left,
            path.len() >= 1,
            last == path@.last(),
            funnel_ready(
                portals@,
                (Funnel {
                    apex,
                    left,
                    right,
                    apex_at: apex_at as int,
                    left_at: left_at as int,
                    right_at: right_at as int,
                }),
                i as int,
            ),
            seq![portals@[0].left] + pull(
                portals@,
                collapsed(portals@[0].left, 0),
                1,
                portals@[0].left,
            ) =~= path@ + pull(
                portals@,
                (Funnel {
                    apex,
                    left,
                    right,
                    apex_at: apex_at as int,
                    left_at: left_at as int,
                    right_at: right_at as int,
                }),
                i as int,
                last,
            ),
        decreases n - apex_at, n - i,
    {
        let ghost s = Funnel {
            apex,
            left,
            right,
            apex_at: apex_at as int,
            left_at: left_at as int,
            right_at: right_at as int,
        };
        let ghost before = path@;
        let portal: Portal = portals[i];
        proof {
            lemma_collapsed_leg(apex, portal.right);
            lemma_collapsed_leg(apex, portal.left);
        }
        if orient(apex, right, portal.right) >= 0 {
            if apex == right || portal.right == apex || orient(apex, left, portal.right) < 0 {
                right = portal.right;
                right_at = i;
            } else {
                if left != last {
                    path.push(left);
                }
                proof {
                    assert(path@ =~= before + emit(last, s.left));
                }
                last = left;
                apex = left;
                apex_at = left_at;
                right = left;
                right_at = left_at;
                i = apex_at + 1;
                continue ;
            }
        }
        let ghost s1 = after_right(portals@, s, i as int);
        if orient(apex, left, portal.left) <= 0 {
            if apex == left || portal.left == apex || orient(apex, right, portal.left) > 0 {
                left = portal.left;
                left_at = i;
            } else {
                if right != last {
                    path.push(right);
                }
                proof {
                    assert(path@ =~= before + emit(last, s1.right));
                }
                last = right;
                apex = right;
                apex_at = right_at;
                left = right;
                left_at = right_at;
                i = apex_at + 1;
                continue ;
            }
        }
        i += 1;
    }
    if path.len() == 1 || last != goal {
        path.push(goal);
    }
    proof {
        assert(path@ =~= funnel_path(portals@));
        assert forall|j: int| 0 <= j < path@.len() implies is_portal_end(
            portals@,
            #[trigger] path@[j],
        ) by {
            assert(path@[j] == funnel_path(portals@)[j]);
        }
        assert forall|j: int| 0 <= j < path@.len() - 1 && path@.len() > 2 implies #[trigger] path@[j]
            != path@[j + 1] by {
            assert(path@[j] == funnel_path(portals@)[j]);
            assert(path@[j + 1] == funnel_path(portals@)[j + 1]);
        }
    }
    path
}

} // verus!
