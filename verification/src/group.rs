//! Groups: shapes that gather child shapes under one transformation.

use vstd::prelude::*;
use crate::shape::{
    acyclic, edge, group_edge, group_rank, groups_acyclic, is_leaf,
    lemma_append_leaves_keeps_acyclic, lemma_group_rank_decreases, lemma_leaf_has_no_edges,
    valid_arena, Shape, ShapeArr, ShapeEnum, ShapeIdx,
};
use crate::text::{list_text, push_list};

verus! {

/// A group of child shapes.
pub struct Group {
    pub shape_idx: ShapeIdx,
    pub children: Vec<ShapeIdx>,
}

/// `s` is a group made at arena index `idx`, with no children yet.
pub open spec fn fresh_group(s: Shape, idx: ShapeIdx, name: String, part_of_group: bool) -> bool {
    &&& s.is_group()
    &&& s.own_idx() == idx
    &&& s.child_seq().len() == 0
    &&& s.casts_shadow
    &&& s.part_of_group == part_of_group
    &&& s.parent is None
    &&& s.name == Some(name)
}

/// `after` is `before` where `parent` lists `child` as its last child and
/// `child` names `parent` as its parent; nothing else changed.
pub open spec fn linked(before: Seq<Shape>, after: Seq<Shape>, parent: ShapeIdx, child: ShapeIdx) -> bool {
    &&& after.len() == before.len()
    &&& forall|j: int|
        0 <= j < before.len() && j != parent && j != child ==> #[trigger] after[j] == before[j]
    &&& after[child as int].parent == Some(parent)
    &&& child != parent ==> after[child as int] == Shape::with_parent(before[child as int], parent)
    &&& child != parent ==> Shape::appended_child(before[parent as int], after[parent as int], child)
    &&& child == parent ==> Shape::appended_child(
        Shape::with_parent(before[parent as int], parent),
        after[parent as int],
        child,
    )
}

/// Appending a group without children keeps a well-formed arena acyclic.
pub(crate) proof fn lemma_fresh_keeps_acyclic(old: Seq<Shape>, new: Seq<Shape>)
    requires
        new.len() == old.len() + 1,
        new.drop_last() == old,
        new.last().child_seq().len() == 0,
        new.last().is_group() || (new.last().is_csg() && new.last().csg_data().left is None
            && new.last().csg_data().right is None),
    ensures
        valid_arena(old) && acyclic(old) ==> acyclic(new),
{
    if valid_arena(old) && acyclic(old) {
        assert forall|a: int| 0 <= a < old.len() && a != -1 implies #[trigger] new[a] == old[a] by {
            assert(new.drop_last()[a] == new[a]);
        }
        assert forall|a: int, b: ShapeIdx| old.len() <= a < new.len() implies !#[trigger] edge(
            new,
            a,
            b,
        ) by {
            lemma_leaf_has_no_edges(new, a, b);
        }
        lemma_append_leaves_keeps_acyclic(old, new, -1);
    }
}

/// The shapes that printing the tree below `a` at indentation `depth` visits,
/// in order, each with its indentation: `a` itself, then, when `a` is a
/// group, the tree below each child at `depth + 2`.
pub open spec fn tree_order_spec(shapes: Seq<Shape>, a: int, depth: int) -> Seq<(int, ShapeIdx)>
    decreases group_rank(shapes)(a), shapes[a].child_seq().len() + 1,
    when valid_arena(shapes) && groups_acyclic(shapes) && 0 <= a < shapes.len()
{
    seq![(depth, a as ShapeIdx)] + tree_order_all(
        shapes,
        a,
        shapes[a].child_seq().len() as int,
        depth + 2,
    )
}

/// The trees below the first `k` children of `a`, one after the other.
pub open spec fn tree_order_all(shapes: Seq<Shape>, a: int, k: int, depth: int) -> Seq<(int, ShapeIdx)>
    decreases group_rank(shapes)(a), k,
    when valid_arena(shapes) && groups_acyclic(shapes) && 0 <= a < shapes.len() && 0 <= k
        <= shapes[a].child_seq().len()
{
    if k <= 0 {
        Seq::empty()
    } else {
        proof {
            lemma_group_rank_decreases(shapes, a, k - 1);
        }
        tree_order_all(shapes, a, k - 1, depth) + tree_order_spec(
            shapes,
            shapes[a].child_seq()[k - 1] as int,
            depth,
        )
    }
}

/// How many levels of groups lie below `a`.
pub open spec fn group_height(shapes: Seq<Shape>, a: int) -> nat
    decreases group_rank(shapes)(a), shapes[a].child_seq().len() + 1,
    when valid_arena(shapes) && groups_acyclic(shapes) && 0 <= a < shapes.len()
{
    group_height_all(shapes, a, shapes[a].child_seq().len() as int)
}

/// One more than the greatest height among the first `k` children of `a`; 0 without children.
pub open spec fn group_height_all(shapes: Seq<Shape>, a: int, k: int) -> nat
    decreases group_rank(shapes)(a), k,
    when valid_arena(shapes) && groups_acyclic(shapes) && 0 <= a < shapes.len() && 0 <= k
        <= shapes[a].child_seq().len()
{
    if k <= 0 {
        0
    } else {
        proof {
            lemma_group_rank_decreases(shapes, a, k - 1);
        }
        let h = group_height(shapes, shapes[a].child_seq()[k - 1] as int) + 1;
        let rest = group_height_all(shapes, a, k - 1);
        if h > rest {
            h
        } else {
            rest
        }
    }
}

/// `out` is the listing of `a` at `depth`, split at `off`: the first entry
/// is `a` itself, and `out[off[k] .. off[k + 1]]` lists the `k`-th child of
/// `a`, for every child, the pieces following each other up to the end.
pub open spec fn split_by_children(
    shapes: Seq<Shape>,
    a: int,
    depth: int,
    out: Seq<(int, ShapeIdx)>,
    off: Seq<int>,
) -> bool {
    let n = shapes[a].child_seq().len() as int;
    &&& out.len() >= 1
    &&& out[0] == (depth, a as ShapeIdx)
    &&& off.len() == n + 1
    &&& off[0] == 1
    &&& off[n] == out.len()
    &&& forall|k: int|
        0 <= k < n ==> off[k] <= #[trigger] off[k + 1] && out.subrange(off[k], off[k + 1])
            == tree_order_spec(shapes, shapes[a].child_seq()[k] as int, depth + 2)
}

/// The listings of the first `k` children come before those of the others.
proof fn lemma_tree_order_all_prefix(shapes: Seq<Shape>, a: int, k: int, m: int, depth: int)
    requires
        valid_arena(shapes),
        groups_acyclic(shapes),
        0 <= a < shapes.len(),
        0 <= k <= m <= shapes[a].child_seq().len(),
    ensures
        tree_order_all(shapes, a, k, depth).len() <= tree_order_all(shapes, a, m, depth).len(),
        tree_order_all(shapes, a, m, depth).subrange(0, tree_order_all(shapes, a, k, depth).len() as int)
            == tree_order_all(shapes, a, k, depth),
    decreases m - k,
{
    if k < m {
        lemma_tree_order_all_prefix(shapes, a, k, m - 1, depth);
        lemma_group_rank_decreases(shapes, a, m - 1);
        let p = tree_order_all(shapes, a, m - 1, depth);
        let q = tree_order_all(shapes, a, k, depth);
        let full = tree_order_all(shapes, a, m, depth);
        assert(full == p + tree_order_spec(shapes, shapes[a].child_seq()[m - 1] as int, depth));
        assert(full.subrange(0, q.len() as int) =~= p.subrange(0, q.len() as int));
    } else {
        assert(tree_order_all(shapes, a, m, depth).subrange(0, tree_order_all(shapes, a, k, depth).len() as int)
            =~= tree_order_all(shapes, a, k, depth));
    }
}

/// Printing the tree below `a` lists `a` at `depth`, then the whole tree
/// below each of its children at `depth + 2`, child after child in order and
/// nothing else: every child, not only some, is expanded in full.
pub proof fn lemma_tree_order_lists_every_child(shapes: Seq<Shape>, a: int, depth: int)
    requires
        valid_arena(shapes),
        groups_acyclic(shapes),
        0 <= a < shapes.len(),
    ensures
        exists|off: Seq<int>| split_by_children(shapes, a, depth, tree_order_spec(shapes, a, depth), off),
{
    let n = shapes[a].child_seq().len() as int;
    let out = tree_order_spec(shapes, a, depth);
    let all = tree_order_all(shapes, a, n, depth + 2);
    assert(out == seq![(depth, a as ShapeIdx)] + all);
    let off = Seq::new((n + 1) as nat, |k: int| 1 + tree_order_all(shapes, a, k, depth + 2).len() as int);
    assert(tree_order_all(shapes, a, 0, depth + 2).len() == 0);
    assert forall|k: int| 0 <= k < n implies off[k] <= #[trigger] off[k + 1] && out.subrange(
        off[k],
        off[k + 1],
    ) == tree_order_spec(shapes, shapes[a].child_seq()[k] as int, depth + 2) by {
        lemma_group_rank_decreases(shapes, a, k);
        let p = tree_order_all(shapes, a, k, depth + 2);
        let c = tree_order_spec(shapes, shapes[a].child_seq()[k] as int, depth + 2);
        let q = tree_order_all(shapes, a, k + 1, depth + 2);
        assert(q == p + c);
        lemma_tree_order_all_prefix(shapes, a, k + 1, n, depth + 2);
        assert(all.subrange(0, q.len() as int) == q);
        assert(out.subrange(off[k], off[k + 1]) =~= all.subrange(p.len() as int, q.len() as int));
        assert(all.subrange(p.len() as int, q.len() as int) =~= q.subrange(p.len() as int, q.len() as int));
        assert(q.subrange(p.len() as int, q.len() as int) =~= c);
    }
    assert(split_by_children(shapes, a, depth, out, off));
}

/// Each child's height is below the height over all children.
proof fn lemma_child_height(shapes: Seq<Shape>, a: int, n: int, k: int)
    requires
        valid_arena(shapes),
        groups_acyclic(shapes),
        0 <= a < shapes.len(),
        0 <= k < n <= shapes[a].child_seq().len(),
    ensures
        group_height(shapes, shapes[a].child_seq()[k] as int) + 1 <= group_height_all(shapes, a, n),
    decreases n - k,
{
    lemma_group_rank_decreases(shapes, a, n - 1);
    if k < n - 1 {
        lemma_child_height(shapes, a, n - 1, k);
    }
}

impl Group {
    /// The display text of a group.
    pub open spec fn display_text(&self) -> Seq<char> {
        "Group: "@ + "   "@
    }

    /// The debug text of a group, which lists its children.
    pub open spec fn debug_text(&self) -> Seq<char> {
        "Group { value: \"TODO Group\", parent: \"TODO parent\", children: "@ + list_text(
            self.children@,
        ) + " }"@
    }

    /// The display text of the group (see `display_text`).
    pub fn to_string(&self) -> (r: String)
        ensures
            r@ == self.display_text(),
    {
        let mut out = String::from_str("Group: ");
        out.append("   ");
        out
    }

    /// The debug text of the group (see `debug_text`).
    pub fn to_debug_string(&self) -> (r: String)
        ensures
            r@ == self.debug_text(),
    {
        let mut out = String::from_str(
            "Group { value: \"TODO Group\", parent: \"TODO parent\", children: ",
        );
        push_list(&mut out, &self.children);
        out.append(" }");
        out
    }

    /// The shapes that printing the tree below `root_idx` visits, with the
    /// indentation each is printed at (see `tree_order_spec`).
    pub fn tree_order(shapes: &ShapeArr, root_idx: ShapeIdx, depth: usize) -> (r: Vec<(usize, ShapeIdx)>)
        requires
            valid_arena(shapes@),
            groups_acyclic(shapes@),
            root_idx < shapes@.len(),
            depth + 2 * group_height(shapes@, root_idx as int) <= usize::MAX,
        ensures
            r@.map_values(|e: (usize, ShapeIdx)| (e.0 as int, e.1)) == tree_order_spec(
                shapes@,
                root_idx as int,
                depth as int,
            ),
            r@.len() == tree_order_spec(shapes@, root_idx as int, depth as int).len(),
            forall|i: int|
                0 <= i < r@.len() ==> (#[trigger] r@[i]).0 == tree_order_spec(
                    shapes@,
                    root_idx as int,
                    depth as int,
                )[i].0 && r@[i].1 == tree_order_spec(shapes@, root_idx as int, depth as int)[i].1,
    {
        let mut out: Vec<(usize, ShapeIdx)> = Vec::new();
        Self::tree_order_into(shapes, root_idx, depth, &mut out);
        proof {
            assert(out@.map_values(|e: (usize, ShapeIdx)| (e.0 as int, e.1)) =~= Seq::<
                (int, ShapeIdx),
            >::empty() + tree_order_spec(shapes@, root_idx as int, depth as int));
            let m = out@.map_values(|e: (usize, ShapeIdx)| (e.0 as int, e.1));
            assert forall|i: int| 0 <= i < out@.len() implies (#[trigger] out@[i]).0
                == tree_order_spec(shapes@, root_idx as int, depth as int)[i].0 && out@[i].1
                == tree_order_spec(shapes@, root_idx as int, depth as int)[i].1 by {
                assert(m[i] == (out@[i].0 as int, out@[i].1));
            }
        }
        out
    }

    fn tree_order_into(
        shapes: &ShapeArr,
        root_idx: ShapeIdx,
        depth: usize,
        out: &mut Vec<(usize, ShapeIdx)>,
    )
        requires
            valid_arena(shapes@),
            groups_acyclic(shapes@),
            root_idx < shapes@.len(),
            depth + 2 * group_height(shapes@, root_idx as int) <= usize::MAX,
        ensures
            final(out)@.map_values(|e: (usize, ShapeIdx)| (e.0 as int, e.1)) == old(out)@.map_values(
                |e: (usize, ShapeIdx)| (e.0 as int, e.1),
            ) + tree_order_spec(shapes@, root_idx as int, depth as int),
        decreases group_rank(shapes@)(root_idx as int),
    {
        let ghost s = shapes@;
        let ghost a = root_idx as int;
        let ghost start = old(out)@.map_values(|e: (usize, ShapeIdx)| (e.0 as int, e.1));
        out.push((depth, root_idx));
        proof {
            assert(out@.map_values(|e: (usize, ShapeIdx)| (e.0 as int, e.1)) =~= start + seq![
                (depth as int, root_idx),
            ]);
        }
        if let ShapeEnum::GroupEnum(g) = &shapes[root_idx].shape {
            let n = g.children.len();
            let mut i: usize = 0;
            proof {
                assert(tree_order_all(s, a, 0, depth + 2) =~= Seq::<(int, ShapeIdx)>::empty());
                assert(start + seq![(depth as int, root_idx)] =~= start + seq![
                    (depth as int, root_idx),
                ] + tree_order_all(s, a, 0, depth + 2));
            }
            while i < n
                invariant
                    s == shapes@,
                    valid_arena(s),
                    groups_acyclic(s),
                    0 <= a < s.len(),
                    a == root_idx,
                    s[a].shape == ShapeEnum::GroupEnum(*g),
                    n == s[a].child_seq().len(),
                    i <= n,
                    depth + 2 * group_height(s, a) <= usize::MAX,
                    group_height(s, a) == group_height_all(s, a, n as int),
                    out@.map_values(|e: (usize, ShapeIdx)| (e.0 as int, e.1)) == start + seq![
                        (depth as int, root_idx),
                    ] + tree_order_all(s, a, i as int, depth + 2),
                decreases n - i,
            {
                let c = g.children[i];
                proof {
                    assert(s[a].child_seq()[i as int] == c);
                    lemma_group_rank_decreases(s, a, i as int);
                    lemma_child_height(s, a, n as int, i as int);
                }
                let ghost before = out@.map_values(|e: (usize, ShapeIdx)| (e.0 as int, e.1));
                Self::tree_order_into(shapes, c, depth + 2, out);
                proof {
                    assert(tree_order_all(s, a, i as int + 1, depth + 2) == tree_order_all(
                        s,
                        a,
                        i as int,
                        depth + 2,
                    ) + tree_order_spec(s, c as int, depth + 2));
                    assert(out@.map_values(|e: (usize, ShapeIdx)| (e.0 as int, e.1)) =~= start
                        + seq![(depth as int, root_idx)] + tree_order_all(s, a, i as int + 1, depth + 2));
                }
                i = i + 1;
            }
        } else {
            proof {
                assert(s[a].child_seq().len() == 0);
                assert(tree_order_all(s, a, 0, depth + 2) =~= Seq::<(int, ShapeIdx)>::empty());
                assert(start + seq![(depth as int, root_idx)] =~= start + seq![
                    (depth as int, root_idx),
                ] + tree_order_all(s, a, 0, depth + 2));
            }
        }
    }

    /// Adds a new, empty group to the arena and returns its index.
    pub fn new(shapes: &mut ShapeArr, name: String) -> (idx: ShapeIdx)
        ensures
            idx == old(shapes)@.len(),
            final(shapes)@.len() == old(shapes)@.len() + 1,
            final(shapes)@.drop_last() == old(shapes)@,
            fresh_group(final(shapes)@[idx as int], idx, name, false),
            valid_arena(old(shapes)@) ==> valid_arena(final(shapes)@),
            valid_arena(old(shapes)@) && acyclic(old(shapes)@) ==> acyclic(final(shapes)@),
    {
        let idx = shapes.len();
        let g = Group { shape_idx: idx, children: Vec::new() };
        let shape = Shape::new_with_name(ShapeEnum::GroupEnum(g), name);
        shapes.push(shape);
        proof {
            assert(final(shapes)@.drop_last() =~= old(shapes)@);
            lemma_fresh_keeps_acyclic(old(shapes)@, final(shapes)@);
        }
        idx
    }

    /// Adds a new, empty group that is marked as part of a group.
    pub fn new_part_of_group(shapes: &mut ShapeArr, name: String) -> (idx: ShapeIdx)
        ensures
            idx == old(shapes)@.len(),
            final(shapes)@.len() == old(shapes)@.len() + 1,
            final(shapes)@.drop_last() == old(shapes)@,
            fresh_group(final(shapes)@[idx as int], idx, name, true),
            valid_arena(old(shapes)@) ==> valid_arena(final(shapes)@),
            valid_arena(old(shapes)@) && acyclic(old(shapes)@) ==> acyclic(final(shapes)@),
    {
        let idx = shapes.len();
        let g = Group { shape_idx: idx, children: Vec::new() };
        let mut shape = Shape::new_with_name(ShapeEnum::GroupEnum(g), name);
        shape.set_part_of_group(true);
        shapes.push(shape);
        proof {
            assert(final(shapes)@.drop_last() =~= old(shapes)@);
            lemma_fresh_keeps_acyclic(old(shapes)@, final(shapes)@);
        }
        idx
    }

    /// Adds `shape` to the arena as the last child of the group at `parent_idx`
    /// and returns the new shape's index.
    pub fn add_child(shapes: &mut ShapeArr, parent_idx: ShapeIdx, shape: Shape) -> (idx: ShapeIdx)
        requires
            parent_idx < old(shapes)@.len(),
            old(shapes)@[parent_idx as int].is_group(),
        ensures
            idx == old(shapes)@.len(),
            final(shapes)@.len() == old(shapes)@.len() + 1,
            final(shapes)@[idx as int] == Shape::with_parent(shape, parent_idx),
            Shape::appended_child(old(shapes)@[parent_idx as int], final(shapes)@[parent_idx as int], idx),
            forall|j: int|
                0 <= j < old(shapes)@.len() && j != parent_idx ==> #[trigger] final(shapes)@[j]
                    == old(shapes)@[j],
            valid_arena(old(shapes)@) && is_leaf(shape) ==> valid_arena(final(shapes)@),
            valid_arena(old(shapes)@) && acyclic(old(shapes)@) && is_leaf(shape) ==> acyclic(
                final(shapes)@,
            ),
    {
        let mut shape = shape;
        shape.set_parent(parent_idx);
        shapes.push(shape);
        let shape_idx = shapes.len() - 1;
        shapes[parent_idx].get_children_mut().push(shape_idx);
        proof {
            let s = final(shapes)@;
            if valid_arena(old(shapes)@) && acyclic(old(shapes)@) && is_leaf(shape) {
                let o = old(shapes)@;
                let p = parent_idx as int;
                assert(is_leaf(s[o.len() as int]));
                assert forall|a: int, b: ShapeIdx| o.len() <= a < s.len() implies !#[trigger] edge(
                    s,
                    a,
                    b,
                ) by {
                    lemma_leaf_has_no_edges(s, a, b);
                }
                assert forall|b: ShapeIdx| #[trigger] edge(s, p, b) implies edge(o, p, b) || b
                    >= o.len() by {
                    if group_edge(s, p, b) && b < o.len() {
                        let k = choose|k: int| 0 <= k < s[p].child_seq().len() && s[p].child_seq()[k] == b;
                        if k < o[p].child_seq().len() {
                            assert(o[p].child_seq()[k] == b);
                            assert(o[p].child_seq().contains(b));
                        }
                    }
                }
                lemma_append_leaves_keeps_acyclic(o, s, p);
            }
            if valid_arena(old(shapes)@) && is_leaf(shape) {
                assert forall|i: int| 0 <= i < s.len() implies {
                    &&& (#[trigger] s[i]).parent matches Some(p) ==> p < s.len()
                    &&& forall|k: int|
                        0 <= k < s[i].child_seq().len() ==> #[trigger] s[i].child_seq()[k]
                            < s.len()
                    &&& s[i].is_csg() ==> (s[i].csg_data().left matches Some(l) ==> l < s.len())
                    &&& s[i].is_csg() ==> (s[i].csg_data().right matches Some(r) ==> r < s.len())
                } by {
                    if i == parent_idx {
                        assert forall|k: int| 0 <= k < s[i].child_seq().len() implies
                            #[trigger] s[i].child_seq()[k] < s.len() by {
                            if k < old(shapes)@[i].child_seq().len() {
                                assert(s[i].child_seq()[k] == old(shapes)@[i].child_seq()[k]);
                            }
                        }
                    } else if i < old(shapes)@.len() {
                        assert(s[i] == old(shapes)@[i]);
                    }
                }
            }
        }
        shape_idx
    }

    /// Makes the shape at `shape_idx` the last child of the group at `parent_idx`.
    pub fn add_child_idx(shapes: &mut ShapeArr, parent_idx: ShapeIdx, shape_idx: ShapeIdx)
        requires
            parent_idx < old(shapes)@.len(),
            shape_idx < old(shapes)@.len(),
            old(shapes)@[parent_idx as int].is_group(),
        ensures
            linked(old(shapes)@, final(shapes)@, parent_idx, shape_idx),
            valid_arena(old(shapes)@) ==> valid_arena(final(shapes)@),
    {
        shapes[parent_idx].get_children_mut().push(shape_idx);
        shapes[shape_idx].set_parent(parent_idx);
        proof {
            let s = final(shapes)@;
            let o = old(shapes)@;
            if valid_arena(o) {
                assert forall|i: int| 0 <= i < s.len() implies {
                    &&& (#[trigger] s[i]).parent matches Some(p) ==> p < s.len()
                    &&& forall|k: int|
                        0 <= k < s[i].child_seq().len() ==> #[trigger] s[i].child_seq()[k]
                            < s.len()
                    &&& s[i].is_csg() ==> (s[i].csg_data().left matches Some(l) ==> l < s.len())
                    &&& s[i].is_csg() ==> (s[i].csg_data().right matches Some(r) ==> r < s.len())
                } by {
                    if i == parent_idx {
                        assert forall|k: int| 0 <= k < s[i].child_seq().len() implies
                            #[trigger] s[i].child_seq()[k] < s.len() by {
                            if k < o[i].child_seq().len() {
                                assert(s[i].child_seq()[k] == o[i].child_seq()[k]);
                            }
                        }
                    } else if i == shape_idx {
                        assert(s[i].child_seq() == o[i].child_seq());
                    } else {
                        assert(s[i] == o[i]);
                    }
                }
            }
        }
    }
}

} // verus!
