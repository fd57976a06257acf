//! Constructive solid geometry: the rule that decides which intersections of a
//! CSG node's children are part of the combined surface.

use vstd::prelude::*;
use crate::group::{lemma_fresh_keeps_acyclic, linked, Group};
use crate::intersection::{Intersection, IntersectionList};
use crate::shape::{
    acyclic, arena_rank, edge, group_edge, is_leaf, lemma_append_leaves_keeps_acyclic,
    lemma_leaf_has_no_edges, lemma_rank_decreases, valid_arena, Shape, ShapeArr, ShapeEnum, ShapeIdx,
};

verus! {

/// The operation that combines the left and right child of a CSG node.
#[derive(Clone, Copy, Debug, PartialEq, Eq, Structural)]
pub enum CsgOp {
    UNION,
    INTERSECTION,
    DIFFERENCE,
}

/// A CSG node: an operation applied to a left and a right operand.
#[derive(Clone, Copy)]
pub struct Csg {
    pub shape_idx: ShapeIdx,
    pub left: Option<ShapeIdx>,
    pub right: Option<ShapeIdx>,
    pub op: CsgOp,
}

impl Csg {
    /// Adds a new CSG node with operation `op` and no operands to the arena
    /// and returns its index.
    pub fn new(shapes: &mut ShapeArr, name: String, op: CsgOp) -> (idx: ShapeIdx)
        ensures
            idx == old(shapes)@.len(),
            final(shapes)@.len() == old(shapes)@.len() + 1,
            final(shapes)@.drop_last() == old(shapes)@,
            Shape::fresh(
                final(shapes)@[idx as int],
                ShapeEnum::CsgEnum(Csg { shape_idx: idx, left: None, right: None, op }),
                Some(name),
            ),
            valid_arena(old(shapes)@) ==> valid_arena(final(shapes)@),
            valid_arena(old(shapes)@) && acyclic(old(shapes)@) ==> acyclic(final(shapes)@),
    {
        let idx = shapes.len();
        let g = Csg { shape_idx: idx, left: None, right: None, op };
        let shape = Shape::new_with_name(ShapeEnum::CsgEnum(g), name);
        shapes.push(shape);
        proof {
            assert(final(shapes)@.drop_last() =~= old(shapes)@);
            lemma_fresh_keeps_acyclic(old(shapes)@, final(shapes)@);
        }
        idx
    }

    /// Adds `shape_left` and `shape_right` to the arena as the left and right
    /// operand of the CSG node at `parent_idx`; returns their indices.
    pub fn add_child(
        shapes: &mut ShapeArr,
        parent_idx: ShapeIdx,
        shape_left: Shape,
        shape_right: Shape,
    ) -> (r: (ShapeIdx, ShapeIdx))
        requires
            parent_idx < old(shapes)@.len(),
            old(shapes)@[parent_idx as int].is_csg(),
        ensures
            r.0 == old(shapes)@.len(),
            r.1 == old(shapes)@.len() + 1,
            final(shapes)@.len() == old(shapes)@.len() + 2,
            final(shapes)@[r.0 as int] == Shape::with_parent(shape_left, parent_idx),
            final(shapes)@[r.1 as int] == Shape::with_parent(shape_right, parent_idx),
            final(shapes)@[parent_idx as int] == (Shape {
                shape: ShapeEnum::CsgEnum(
                    Csg {
                        left: Some(r.0),
                        right: Some(r.1),
                        ..old(shapes)@[parent_idx as int].csg_data()
                    },
                ),
                ..old(shapes)@[parent_idx as int]
            }),
            forall|j: int|
                0 <= j < old(shapes)@.len() && j != parent_idx ==> #[trigger] final(shapes)@[j]
                    == old(shapes)@[j],
            valid_arena(old(shapes)@) && is_leaf(shape_left) && is_leaf(shape_right) ==> valid_arena(
                final(shapes)@),
            valid_arena(old(shapes)@) && acyclic(old(shapes)@) && is_leaf(shape_left) && is_leaf(
                shape_right,
            ) ==> acyclic(final(shapes)@),
    {
        let mut shape_left = shape_left;
        let mut shape_right = shape_right;
        shape_right.set_parent(parent_idx);
        shape_left.set_parent(parent_idx);
        shapes.push(shape_left);
        let shape_idx_left = shapes.len() - 1;
        shapes.push(shape_right);
        let shape_idx_right = shapes.len() - 1;
        shapes[parent_idx].set_left(shape_idx_left);
        shapes[parent_idx].set_right(shape_idx_right);
        proof {
            let s = final(shapes)@;
            let o = old(shapes)@;
            assert(s[parent_idx as int].child_seq().len() == 0);
            if valid_arena(o) && acyclic(o) && is_leaf(shape_left) && is_leaf(shape_right) {
                let p = parent_idx as int;
                assert forall|a: int, b: ShapeIdx| o.len() <= a < s.len() implies !#[trigger] edge(
                    s,
                    a,
                    b,
                ) by {
                    lemma_leaf_has_no_edges(s, a, b);
                }
                assert forall|b: ShapeIdx| #[trigger] edge(s, p, b) implies edge(o, p, b) || b
                    >= o.len() by {
                    if group_edge(s, p, b) {
                        assert(s[p].child_seq().contains(b));
                    }
                }
                lemma_append_leaves_keeps_acyclic(o, s, p);
            }
            if valid_arena(o) && is_leaf(shape_left) && is_leaf(shape_right) {
                assert forall|i: int| 0 <= i < s.len() implies {
                    &&& (#[trigger] s[i]).parent matches Some(p) ==> p < s.len()
                    &&& forall|k: int|
                        0 <= k < s[i].child_seq().len() ==> #[trigger] s[i].child_seq()[k]
                            < s.len()
                    &&& s[i].is_csg() ==> (s[i].csg_data().left matches Some(l) ==> l < s.len())
                    &&& s[i].is_csg() ==> (s[i].csg_data().right matches Some(r) ==> r < s.len())
                } by {
                    if i < o.len() && i != parent_idx {
                        assert(s[i] == o[i]);
                    }
                }
            }
        }
        (shape_idx_left, shape_idx_right)
    }

    /// Makes the shape at `shape_idx` the last child of the group at
    /// `parent_idx` (a group, since only groups keep a list of children).
    pub fn add_child_idx(shapes: &mut ShapeArr, parent_idx: ShapeIdx, shape_idx: ShapeIdx)
        requires
            parent_idx < old(shapes)@.len(),
            shape_idx < old(shapes)@.len(),
            old(shapes)@[parent_idx as int].is_group(),
        ensures
            linked(old(shapes)@, final(shapes)@, parent_idx, shape_idx),
            valid_arena(old(shapes)@) ==> valid_arena(final(shapes)@),
    {
        Group::add_child_idx(shapes, parent_idx, shape_idx);
    }

    /// The display text of a CSG node.
    pub open spec fn display_text(&self) -> Seq<char> {
        "Csg: "@ + "   "@
    }

    /// The debug text of a CSG node.
    pub open spec fn debug_text(&self) -> Seq<char> {
        "Csg { value: \"TODO Csg\" }"@
    }

    /// The display text of the CSG node (see `display_text`).
    pub fn to_string(&self) -> (r: String)
        ensures
            r@ == self.display_text(),
    {
        let mut out = String::from_str("Csg: ");
        out.append("   ");
        out
    }

    /// The debug text of the CSG node (see `debug_text`).
    pub fn to_debug_string(&self) -> (r: String)
        ensures
            r@ == self.debug_text(),
    {
        String::from_str("Csg { value: \"TODO Csg\" }")
    }

    pub fn get_left(&self) -> (r: ShapeIdx)
        requires
            self.left is Some,
        ensures
            Some(r) == self.left,
    {
        self.left.unwrap()
    }

    pub fn get_right(&self) -> (r: ShapeIdx)
        requires
            self.right is Some,
        ensures
            Some(r) == self.right,
    {
        self.right.unwrap()
    }

    pub fn set_left(&mut self, idx: ShapeIdx)
        ensures
            *final(self) == (Csg { left: Some(idx), ..*old(self) }),
    {
        self.left = Some(idx);
    }

    pub fn set_right(&mut self, idx: ShapeIdx)
        ensures
            *final(self) == (Csg { right: Some(idx), ..*old(self) }),
    {
        self.right = Some(idx);
    }

    pub fn get_op(&self) -> (r: &CsgOp)
        ensures
            *r == self.op,
    {
        &self.op
    }
}

/// Whether an intersection survives the operation `op`.
/// `lhit`: the intersection is on the left child; `inl` / `inr`: the ray is
/// currently inside the left / right child.
pub open spec fn allowed_spec(op: CsgOp, lhit: bool, inl: bool, inr: bool) -> bool {
    match op {
        CsgOp::UNION => (lhit && !inr) || (!lhit && !inl),
        CsgOp::INTERSECTION => (lhit && inr) || (!lhit && inl),
        CsgOp::DIFFERENCE => (lhit && !inr) || (!lhit && inl),
    }
}

/// Evaluates the CSG rule for one intersection.
pub fn intersection_allowed(op: &CsgOp, lhit: bool, inl: bool, inr: bool) -> (r: bool)
    ensures
        r == allowed_spec(*op, lhit, inl, inr),
{
    match op {
        CsgOp::UNION => (lhit && !inr) || (!lhit && !inl),
        CsgOp::INTERSECTION => (lhit && inr) || (!lhit && inl),
        CsgOp::DIFFERENCE => (lhit && !inr) || (!lhit && inl),
    }
}

/// The shapes that a shape is made of: `a` includes `b` when `a` is `b`, or
/// when `a` is a group with a child that includes `b`, or a CSG node with an
/// operand that includes `b`. (A CSG node without both operands includes
/// nothing.)
pub open spec fn includes_spec(shapes: Seq<Shape>, a: int, b: ShapeIdx) -> bool
    decreases arena_rank(shapes)(a), shapes[a].child_seq().len() + 1,
    when valid_arena(shapes) && acyclic(shapes) && 0 <= a < shapes.len()
{
    match shapes[a].shape {
        ShapeEnum::GroupEnum(g) => includes_any(shapes, a, g.children@.len() as int, b),
        ShapeEnum::CsgEnum(c) => match (c.left, c.right) {
            (Some(l), Some(r)) => {
                proof {
                    lemma_rank_decreases(shapes, a, l);
                    lemma_rank_decreases(shapes, a, r);
                }
                includes_spec(shapes, l as int, b) || includes_spec(shapes, r as int, b)
            },
            _ => false,
        },
        _ => a == b,
    }
}

/// One of the first `k` children of the group at `a` includes `b`.
pub open spec fn includes_any(shapes: Seq<Shape>, a: int, k: int, b: ShapeIdx) -> bool
    decreases arena_rank(shapes)(a), k,
    when valid_arena(shapes) && acyclic(shapes) && 0 <= a < shapes.len() && 0 <= k
        <= shapes[a].child_seq().len()
{
    if k <= 0 {
        false
    } else {
        let c = shapes[a].child_seq()[k - 1];
        proof {
            assert(shapes[a].child_seq().contains(c));
            assert(group_edge(shapes, a, c));
            lemma_rank_decreases(shapes, a, c);
        }
        includes_any(shapes, a, k - 1, b) || includes_spec(shapes, c as int, b)
    }
}

/// A shape is made of what each of its parts is made of: when a child of a
/// group (or an operand of a CSG node) includes `b`, the group (the node)
/// includes `b`; and a shape that is neither includes exactly itself.
pub proof fn lemma_includes_through_parts(shapes: Seq<Shape>, a: int, c: ShapeIdx, b: ShapeIdx)
    requires
        valid_arena(shapes),
        acyclic(shapes),
        0 <= a < shapes.len(),
        edge(shapes, a, c),
        shapes[a].is_csg() ==> shapes[a].csg_data().left is Some && shapes[a].csg_data().right is Some,
        includes_spec(shapes, c as int, b),
    ensures
        includes_spec(shapes, a, b),
{
    if group_edge(shapes, a, c) {
        let n = shapes[a].child_seq().len() as int;
        let k = choose|k: int| 0 <= k < n && shapes[a].child_seq()[k] == c;
        assert(includes_any(shapes, a, k + 1, b) == (includes_any(shapes, a, k, b) || includes_spec(
            shapes,
            c as int,
            b,
        )));
        lemma_includes_any_grows(shapes, a, k + 1, n, b);
    }
}

/// A shape that is neither a group nor a CSG node includes itself and nothing else.
pub proof fn lemma_primitive_includes_itself(shapes: Seq<Shape>, a: int, b: ShapeIdx)
    requires
        valid_arena(shapes),
        acyclic(shapes),
        0 <= a < shapes.len(),
        !shapes[a].is_group(),
        !shapes[a].is_csg(),
    ensures
        includes_spec(shapes, a, b) == (a == b),
{
}

/// Every CSG node that `a` is made of has both operands.
pub open spec fn complete_below(shapes: Seq<Shape>, a: int) -> bool
    decreases arena_rank(shapes)(a), shapes[a].child_seq().len() + 1,
    when valid_arena(shapes) && acyclic(shapes) && 0 <= a < shapes.len()
{
    match shapes[a].shape {
        ShapeEnum::GroupEnum(g) => complete_all(shapes, a, g.children@.len() as int),
        ShapeEnum::CsgEnum(c) => match (c.left, c.right) {
            (Some(l), Some(r)) => {
                proof {
                    lemma_rank_decreases(shapes, a, l);
                    lemma_rank_decreases(shapes, a, r);
                }
                complete_below(shapes, l as int) && complete_below(shapes, r as int)
            },
            _ => false,
        },
        _ => true,
    }
}

/// Each of the first `k` children of the group at `a` is `complete_below`.
pub open spec fn complete_all(shapes: Seq<Shape>, a: int, k: int) -> bool
    decreases arena_rank(shapes)(a), k,
    when valid_arena(shapes) && acyclic(shapes) && 0 <= a < shapes.len() && 0 <= k
        <= shapes[a].child_seq().len()
{
    if k <= 0 {
        true
    } else {
        let c = shapes[a].child_seq()[k - 1];
        proof {
            assert(shapes[a].child_seq().contains(c));
            assert(group_edge(shapes, a, c));
            lemma_rank_decreases(shapes, a, c);
        }
        complete_all(shapes, a, k - 1) && complete_below(shapes, c as int)
    }
}

/// The intersections that survive the CSG operation `op`, walking `xs` in
/// order. `lhits[i]` tells whether `xs[i]` lies on the left operand; `inl` and
/// `inr` tell whether the ray is inside the left / right operand before `xs[0]`.
/// Each hit on an operand toggles whether the ray is inside it.
pub open spec fn csg_filter<T>(
    op: CsgOp,
    xs: Seq<Intersection<T>>,
    lhits: Seq<bool>,
    inl: bool,
    inr: bool,
) -> Seq<Intersection<T>>
    decreases xs.len(),
{
    if xs.len() == 0 {
        Seq::empty()
    } else {
        let lhit = lhits[0];
        let rest = csg_filter(
            op,
            xs.drop_first(),
            lhits.drop_first(),
            if lhit { !inl } else { inl },
            if lhit { inr } else { !inr },
        );
        if allowed_spec(op, lhit, inl, inr) {
            seq![xs[0]] + rest
        } else {
            rest
        }
    }
}

/// For each intersection of `xs`, whether it lies on the shape at `left`.
pub open spec fn left_hits<T>(shapes: Seq<Shape>, left: int, xs: Seq<Intersection<T>>) -> Seq<bool> {
    Seq::new(xs.len(), |i: int| includes_spec(shapes, left, xs[i].shape))
}

/// What a CSG node may be asked to filter: a CSG node whose left operand is
/// set, lies in a well-formed acyclic arena and has every CSG node below it complete.
pub open spec fn filterable(csg: Shape, shapes: Seq<Shape>) -> bool {
    &&& csg.is_csg()
    &&& valid_arena(shapes)
    &&& acyclic(shapes)
    &&& csg.csg_data().left matches Some(l) && l < shapes.len() && complete_below(shapes, l as int)
}

/// Keeps, in order, the intersections of `xs` that belong to the surface of
/// the CSG node `csg` (see `csg_filter`).
pub fn filter_intersections<T: Copy>(
    csg: &Shape,
    xs: &IntersectionList<T>,
    shapes: &ShapeArr,
) -> (r: IntersectionList<T>)
    requires
        filterable(*csg, shapes@),
    ensures
        r@ == csg_filter(
            csg.csg_data().op,
            xs@,
            left_hits(shapes@, csg.csg_data().left.unwrap() as int, xs@),
            false,
            false,
        ),
{
    let mut inl = false;
    let mut inr = false;
    let mut result = IntersectionList::new();
    let left = csg.get_left();
    let op = csg.get_op();
    let list = xs.get_intersections();
    let n = list.len();
    let ghost lh = left_hits(shapes@, left as int, xs@);
    let ghost total = csg_filter(*op, xs@, lh, false, false);
    let mut i: usize = 0;
    proof {
        assert(xs@.skip(0) =~= xs@);
        assert(lh.skip(0) =~= lh);
        assert(result@ + csg_filter(*op, xs@.skip(0), lh.skip(0), inl, inr) =~= total);
    }
    while i < n
        invariant
            filterable(*csg, shapes@),
            Some(left) == csg.csg_data().left,
            *op == csg.csg_data().op,
            list@ == xs@,
            n == xs@.len(),
            lh == left_hits(shapes@, left as int, xs@),
            total == csg_filter(*op, xs@, lh, false, false),
            i <= n,
            result@ + csg_filter(*op, xs@.skip(i as int), lh.skip(i as int), inl, inr) == total,
        decreases n - i,
    {
        let x = list[i];
        let lhit = a_includes_b(shapes, left, x.shape);
        proof {
            let tail = xs@.skip(i as int);
            let ltail = lh.skip(i as int);
            assert(tail[0] == x);
            assert(ltail[0] == lhit);
            assert(tail.drop_first() =~= xs@.skip(i as int + 1));
            assert(ltail.drop_first() =~= lh.skip(i as int + 1));
        }
        let ghost before = result@;
        if intersection_allowed(op, lhit, inl, inr) {
            result.add(x);
            proof {
                assert(result@ =~= before + seq![x]);
                assert(before + seq![x] + csg_filter(
                    *op,
                    xs@.skip(i as int + 1),
                    lh.skip(i as int + 1),
                    if lhit { !inl } else { inl },
                    if lhit { inr } else { !inr },
                ) =~= before + (seq![x] + csg_filter(
                    *op,
                    xs@.skip(i as int + 1),
                    lh.skip(i as int + 1),
                    if lhit { !inl } else { inl },
                    if lhit { inr } else { !inr },
                )));
            }
        }
        if lhit {
            inl = !inl;
        } else {
            inr = !inr;
        }
        i = i + 1;
    }
    proof {
        assert(xs@.skip(n as int) =~= Seq::<Intersection<T>>::empty());
        assert(result@ + Seq::<Intersection<T>>::empty() =~= result@);
    }
    result
}

/// How many of the hits lie on the given side (`true`: the left operand).
pub open spec fn crossings(lhits: Seq<bool>, side: bool) -> nat {
    lhits.filter(|h: bool| h == side).len()
}

/// Inside-ness after crossing a surface `n` times, starting from `start`.
pub open spec fn after_crossings(start: bool, n: nat) -> bool {
    if n % 2 == 1 {
        !start
    } else {
        start
    }
}

proof fn lemma_crossings_front(lhits: Seq<bool>, side: bool)
    requires
        lhits.len() > 0,
    ensures
        crossings(lhits, side) == crossings(lhits.drop_first(), side) + if lhits[0] == side {
            1nat
        } else {
            0nat
        },
{
    let p = |h: bool| h == side;
    assert(lhits =~= seq![lhits[0]] + lhits.drop_first());
    Seq::filter_distributes_over_add(seq![lhits[0]], lhits.drop_first(), p);
    reveal_with_fuel(Seq::filter, 2);
    assert(seq![lhits[0]].drop_last() =~= Seq::<bool>::empty());
}

proof fn lemma_crossings_empty(side: bool)
    ensures
        crossings(Seq::<bool>::empty(), side) == 0,
{
    reveal(Seq::filter);
}

/// Filtering a list with one more intersection at its end adds that
/// intersection exactly when the rule allows it in the state reached after
/// the earlier ones.
proof fn lemma_filter_append<T>(
    op: CsgOp,
    xs: Seq<Intersection<T>>,
    lhits: Seq<bool>,
    x: Intersection<T>,
    l: bool,
    inl: bool,
    inr: bool,
)
    requires
        lhits.len() == xs.len(),
    ensures
        csg_filter(op, xs + seq![x], lhits + seq![l], inl, inr) == csg_filter(op, xs, lhits, inl, inr)
            + if allowed_spec(
            op,
            l,
            after_crossings(inl, crossings(lhits, true)),
            after_crossings(inr, crossings(lhits, false)),
        ) {
            seq![x]
        } else {
            Seq::empty()
        },
    decreases xs.len(),
{
    let xa = xs + seq![x];
    let la = lhits + seq![l];
    if xs.len() == 0 {
        lemma_crossings_empty(true);
        lemma_crossings_empty(false);
        assert(xa.drop_first() =~= Seq::<Intersection<T>>::empty());
        assert(xa[0] == x);
        assert(la[0] == l);
        assert(csg_filter(op, xs, lhits, inl, inr) =~= Seq::<Intersection<T>>::empty());
        assert(csg_filter(op, xa.drop_first(), la.drop_first(), if l { !inl } else { inl }, if l { inr } else { !inr }) =~= Seq::<Intersection<T>>::empty());
        assert(csg_filter(op, xa, la, inl, inr) =~= csg_filter(op, xs, lhits, inl, inr) + if allowed_spec(op, l, inl, inr) {
            seq![x]
        } else {
            Seq::empty()
        });
    } else {
        let h = lhits[0];
        let inl2 = if h { !inl } else { inl };
        let inr2 = if h { inr } else { !inr };
        assert(xa.drop_first() =~= xs.drop_first() + seq![x]);
        assert(la.drop_first() =~= lhits.drop_first() + seq![l]);
        assert(xa[0] == xs[0]);
        assert(la[0] == h);
        lemma_filter_append(op, xs.drop_first(), lhits.drop_first(), x, l, inl2, inr2);
        lemma_crossings_front(lhits, true);
        lemma_crossings_front(lhits, false);
        let n_l = crossings(lhits.drop_first(), true);
        let n_r = crossings(lhits.drop_first(), false);
        assert(after_crossings(inl2, n_l) == after_crossings(inl, crossings(lhits, true)));
        assert(after_crossings(inr2, n_r) == after_crossings(inr, crossings(lhits, false)));
        let tail = if allowed_spec(
            op,
            l,
            after_crossings(inl, crossings(lhits, true)),
            after_crossings(inr, crossings(lhits, false)),
        ) {
            seq![x]
        } else {
            Seq::empty()
        };
        let rest = csg_filter(op, xs.drop_first(), lhits.drop_first(), inl2, inr2);
        if allowed_spec(op, h, inl, inr) {
            assert(seq![xs[0]] + (rest + tail) =~= (seq![xs[0]] + rest) + tail);
        }
    }
}

/// What a CSG node keeps, stated by position: the `i`-th intersection is kept
/// exactly when the CSG rule allows it for the state the ray is in when it
/// reaches it: inside the left operand when it started there and crossed the
/// left surface an even number of times before (or started outside and crossed
/// it an odd number of times), and likewise for the right operand, whose
/// state flips on every hit of the right operand, whatever the operation. The
/// intersections kept before `i` are those kept from the first `i` alone.
pub proof fn lemma_filter_keeps_by_crossings<T>(
    op: CsgOp,
    xs: Seq<Intersection<T>>,
    lhits: Seq<bool>,
    inl: bool,
    inr: bool,
    i: int,
)
    requires
        lhits.len() == xs.len(),
        0 <= i < xs.len(),
    ensures
        csg_filter::<T>(op, Seq::empty(), Seq::empty(), inl, inr).len() == 0,
        csg_filter(op, xs.take(xs.len() as int), lhits.take(xs.len() as int), inl, inr) == csg_filter(
            op,
            xs,
            lhits,
            inl,
            inr,
        ),
        csg_filter(op, xs.take(i + 1), lhits.take(i + 1), inl, inr) == csg_filter(
            op,
            xs.take(i),
            lhits.take(i),
            inl,
            inr,
        ) + if allowed_spec(
            op,
            lhits[i],
            after_crossings(inl, crossings(lhits.take(i), true)),
            after_crossings(inr, crossings(lhits.take(i), false)),
        ) {
            seq![xs[i]]
        } else {
            Seq::empty()
        },
{
    assert(xs.take(xs.len() as int) =~= xs);
    assert(lhits.take(xs.len() as int) =~= lhits);
    assert(xs.take(i + 1) =~= xs.take(i) + seq![xs[i]]);
    assert(lhits.take(i + 1) =~= lhits.take(i) + seq![lhits[i]]);
    lemma_filter_append(op, xs.take(i), lhits.take(i), xs[i], lhits[i], inl, inr);
}

/// The surviving intersections are some of the given ones, in the given
/// order: the filter never invents or reorders an intersection.
pub proof fn lemma_filter_keeps_subsequence<T>(
    op: CsgOp,
    xs: Seq<Intersection<T>>,
    lhits: Seq<bool>,
    inl: bool,
    inr: bool,
)
    ensures
        csg_filter(op, xs, lhits, inl, inr).len() <= xs.len(),
        forall|k: int|
            0 <= k < csg_filter(op, xs, lhits, inl, inr).len() ==> xs.contains(
                #[trigger] csg_filter(op, xs, lhits, inl, inr)[k],
            ),
    decreases xs.len(),
{
    if xs.len() > 0 {
        let lhit = lhits[0];
        let inl2 = if lhit { !inl } else { inl };
        let inr2 = if lhit { inr } else { !inr };
        lemma_filter_keeps_subsequence(op, xs.drop_first(), lhits.drop_first(), inl2, inr2);
        let rest = csg_filter(op, xs.drop_first(), lhits.drop_first(), inl2, inr2);
        let r = csg_filter(op, xs, lhits, inl, inr);
        assert forall|k: int| 0 <= k < r.len() implies xs.contains(#[trigger] r[k]) by {
            if allowed_spec(op, lhit, inl, inr) && k == 0 {
                assert(xs[0] == r[0]);
            } else {
                let j = if allowed_spec(op, lhit, inl, inr) { k - 1 } else { k };
                assert(r[k] == rest[j]);
                assert(xs.drop_first().contains(rest[j]));
                let m = choose|m: int| 0 <= m < xs.drop_first().len() && xs.drop_first()[m] == rest[j];
                assert(xs[m + 1] == rest[j]);
            }
        }
    }
}

/// Union and intersection do not depend on which operand is the left one:
/// swapping the operands (each hit changes side, and so do the inside flags)
/// keeps the same intersections.
pub proof fn lemma_union_intersection_symmetric<T>(
    op: CsgOp,
    xs: Seq<Intersection<T>>,
    lhits: Seq<bool>,
    inl: bool,
    inr: bool,
)
    requires
        op == CsgOp::UNION || op == CsgOp::INTERSECTION,
        lhits.len() == xs.len(),
    ensures
        csg_filter(op, xs, lhits, inl, inr) == csg_filter(
            op,
            xs,
            lhits.map_values(|h: bool| !h),
            inr,
            inl,
        ),
    decreases xs.len(),
{
    if xs.len() > 0 {
        let neg = lhits.map_values(|h: bool| !h);
        let lhit = lhits[0];
        let inl2 = if lhit { !inl } else { inl };
        let inr2 = if lhit { inr } else { !inr };
        assert(neg.drop_first() =~= lhits.drop_first().map_values(|h: bool| !h));
        lemma_union_intersection_symmetric(op, xs.drop_first(), lhits.drop_first(), inl2, inr2);
    }
}

/// When every intersection lies on the left operand (the ray never meets the
/// right one), a union and a difference keep all of them and an intersection
/// keeps none.
pub proof fn lemma_only_left_hits<T>(
    op: CsgOp,
    xs: Seq<Intersection<T>>,
    lhits: Seq<bool>,
    inl: bool,
)
    requires
        lhits.len() == xs.len(),
        forall|i: int| 0 <= i < lhits.len() ==> #[trigger] lhits[i],
    ensures
        op == CsgOp::UNION || op == CsgOp::DIFFERENCE ==> csg_filter(op, xs, lhits, inl, false)
            == xs,
        op == CsgOp::INTERSECTION ==> csg_filter(op, xs, lhits, inl, false).len() == 0,
    decreases xs.len(),
{
    if xs.len() > 0 {
        assert(lhits[0]);
        assert forall|i: int| 0 <= i < lhits.drop_first().len() implies #[trigger] lhits.drop_first()[i] by {
            assert(lhits[i + 1]);
        }
        lemma_only_left_hits(op, xs.drop_first(), lhits.drop_first(), !inl);
        if op == CsgOp::UNION || op == CsgOp::DIFFERENCE {
            assert(seq![xs[0]] + xs.drop_first() =~= xs);
        }
    }
}

/// Whether the shape at `a` includes the shape at `b` (see `includes_spec`).
pub fn a_includes_b(shapes: &ShapeArr, a: ShapeIdx, b: ShapeIdx) -> (r: bool)
    requires
        valid_arena(shapes@),
        acyclic(shapes@),
        a < shapes@.len(),
        complete_below(shapes@, a as int),
    ensures
        r == includes_spec(shapes@, a as int, b),
    decreases arena_rank(shapes@)(a as int),
{
    let ghost s = shapes@;
    match &shapes[a].shape {
        ShapeEnum::GroupEnum(g) => {
            let n = g.children.len();
            let mut i: usize = 0;
            while i < n
                invariant
                    s == shapes@,
                    valid_arena(s),
                    acyclic(s),
                    a < s.len(),
                    s[a as int].shape == ShapeEnum::GroupEnum(*g),
                    n == g.children@.len(),
                    i <= n,
                    complete_below(s, a as int),
                    complete_all(s, a as int, n as int),
                    complete_all(s, a as int, i as int) || i < n,
                    !includes_any(s, a as int, i as int, b),
                decreases n - i,
            {
                let c = g.children[i];
                proof {
                    assert(s[a as int].child_seq()[i as int] == c);
                    assert(s[a as int].child_seq().contains(c));
                    assert(group_edge(s, a as int, c));
                    lemma_rank_decreases(s, a as int, c);
                    lemma_complete_all_prefix(s, a as int, n as int, i as int + 1);
                }
                if a_includes_b(shapes, c, b) {
                    proof {
                        assert(includes_any(s, a as int, i as int + 1, b));
                        lemma_includes_any_grows(s, a as int, i as int + 1, n as int, b);
                    }
                    return true;
                }
                i = i + 1;
            }
            false
        },
        ShapeEnum::CsgEnum(csg) => {
            let l = csg.get_left();
            let r = csg.get_right();
            proof {
                lemma_rank_decreases(s, a as int, l);
                lemma_rank_decreases(s, a as int, r);
            }
            if a_includes_b(shapes, l, b) {
                return true;
            }
            a_includes_b(shapes, r, b)
        },
        _ => a == b,
    }
}

/// `complete_all` over `n` children holds over every shorter prefix too.
proof fn lemma_complete_all_prefix(shapes: Seq<Shape>, a: int, n: int, k: int)
    requires
        valid_arena(shapes),
        acyclic(shapes),
        0 <= a < shapes.len(),
        0 <= k <= n <= shapes[a].child_seq().len(),
        complete_all(shapes, a, n),
    ensures
        complete_all(shapes, a, k),
        k >= 1 ==> complete_below(shapes, shapes[a].child_seq()[k - 1] as int),
    decreases n - k,
{
    if k < n {
        lemma_complete_all_prefix(shapes, a, n, k + 1);
        assert(complete_all(shapes, a, k + 1) == (complete_all(shapes, a, k) && complete_below(
            shapes,
            shapes[a].child_seq()[k] as int,
        )));
    }
    if k >= 1 {
        assert(complete_all(shapes, a, k) == (complete_all(shapes, a, k - 1) && complete_below(
            shapes,
            shapes[a].child_seq()[k - 1] as int,
        )));
    }
}

/// Once one of the first `k` children includes `b`, so does one of the first `n >= k`.
proof fn lemma_includes_any_grows(shapes: Seq<Shape>, a: int, k: int, n: int, b: ShapeIdx)
    requires
        valid_arena(shapes),
        acyclic(shapes),
        0 <= a < shapes.len(),
        0 <= k <= n <= shapes[a].child_seq().len(),
        includes_any(shapes, a, k, b),
    ensures
        includes_any(shapes, a, n, b),
    decreases n - k,
{
    if k < n {
        assert(includes_any(shapes, a, k + 1, b) == (includes_any(shapes, a, k, b) || includes_spec(
            shapes,
            shapes[a].child_seq()[k] as int,
            b,
        )));
        lemma_includes_any_grows(shapes, a, k + 1, n, b);
    }
}

} // verus!
