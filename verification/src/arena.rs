//! Checks that decide, at run time, the conditions under which the scene-graph
//! walks are defined: every index in range, and no shape containing itself.

use vstd::prelude::*;
use crate::group::{group_height, group_height_all};
use crate::shape::{
    acyclic, arena_rank, edge, group_edge, group_rank, group_ranked_by, groups_acyclic,
    indices_in_range, lemma_group_rank_decreases, ranked_by, valid_arena, Shape, ShapeArr,
    ShapeEnum, ShapeIdx,
};

verus! {

/// The edges that a check follows: those between groups and their children
/// only, or all of them.
pub open spec fn edge_of(shapes: Seq<Shape>, a: int, b: ShapeIdx, groups_only: bool) -> bool {
    if groups_only {
        group_edge(shapes, a, b)
    } else {
        edge(shapes, a, b)
    }
}

/// `rank` decreases along every edge the check follows.
pub open spec fn ranked_on(shapes: Seq<Shape>, rank: spec_fn(int) -> nat, groups_only: bool) -> bool {
    forall|a: int, b: ShapeIdx|
        0 <= a < shapes.len() && #[trigger] edge_of(shapes, a, b, groups_only) ==> rank(b as int) < rank(a)
}

/// Every shape with a level has all its successors at lower levels.
pub open spec fn levels_sound(shapes: Seq<Shape>, level: Seq<Option<usize>>, groups_only: bool) -> bool {
    &&& level.len() == shapes.len()
    &&& forall|a: int, b: ShapeIdx|
        0 <= a < shapes.len() && level[a] is Some && #[trigger] edge_of(shapes, a, b, groups_only)
            ==> b < shapes.len() && level[b as int] is Some && level[b as int].unwrap()
            < level[a].unwrap()
}

/// Every shape without a level has a successor without a level.
pub open spec fn levels_stuck(shapes: Seq<Shape>, level: Seq<Option<usize>>, groups_only: bool) -> bool {
    forall|a: int|
        0 <= a < shapes.len() && #[trigger] level[a] is None ==> exists|b: ShapeIdx|
            b < shapes.len() && edge_of(shapes, a, b, groups_only) && level[b as int] is None
}

/// How many entries hold a level.
pub open spec fn count_some(level: Seq<Option<usize>>) -> nat
    decreases level.len(),
{
    if level.len() == 0 {
        0
    } else {
        count_some(level.drop_last()) + if level.last() is Some {
            1nat
        } else {
            0nat
        }
    }
}

proof fn lemma_count_some_bound(level: Seq<Option<usize>>)
    ensures
        count_some(level) <= level.len(),
    decreases level.len(),
{
    if level.len() > 0 {
        lemma_count_some_bound(level.drop_last());
    }
}

proof fn lemma_count_some_set(level: Seq<Option<usize>>, i: int, v: usize)
    requires
        0 <= i < level.len(),
        level[i] is None,
    ensures
        count_some(level.update(i, Some(v))) == count_some(level) + 1,
    decreases level.len(),
{
    let u = level.update(i, Some(v));
    if i == level.len() - 1 {
        assert(u.drop_last() =~= level.drop_last());
    } else {
        assert(u.drop_last() =~= level.drop_last().update(i, Some(v)));
        lemma_count_some_set(level.drop_last(), i, v);
    }
}

/// From a shape left without a level, every candidate rank fails to decrease
/// along some edge.
proof fn lemma_stuck_has_no_rank(
    shapes: Seq<Shape>,
    level: Seq<Option<usize>>,
    groups_only: bool,
    rank: spec_fn(int) -> nat,
    x: int,
)
    requires
        level.len() == shapes.len(),
        levels_stuck(shapes, level, groups_only),
        0 <= x < shapes.len(),
        level[x] is None,
    ensures
        !ranked_on(shapes, rank, groups_only),
    decreases rank(x),
{
    let b = choose|b: ShapeIdx|
        b < shapes.len() && edge_of(shapes, x, b, groups_only) && level[b as int] is None;
    if rank(b as int) < rank(x) {
        lemma_stuck_has_no_rank(shapes, level, groups_only, rank, b as int);
    }
}

/// The level the shape at `a` can take now: one above the highest level of
/// its successors, or `None` while one of them has none yet.
fn level_for(
    shapes: &ShapeArr,
    level: &Vec<Option<usize>>,
    a: usize,
    groups_only: bool,
    bound: usize,
) -> (r: Option<usize>)
    requires
        valid_arena(shapes@),
        level@.len() == shapes@.len(),
        a < shapes@.len(),
        forall|i: int| 0 <= i < level@.len() && (#[trigger] level@[i]) is Some ==> level@[i].unwrap() < bound,
    ensures
        r is Some ==> r.unwrap() <= bound && forall|b: ShapeIdx| #[trigger] edge_of(shapes@, a as int, b, groups_only) ==> b
            < shapes@.len() && level@[b as int] is Some && level@[b as int].unwrap() < r.unwrap(),
        r is None ==> exists|b: ShapeIdx|
            b < shapes@.len() && edge_of(shapes@, a as int, b, groups_only) && level@[b as int] is None,
{
    let ghost s = shapes@;
    let mut best: usize = 0;
    let shape = &shapes[a];
    if let ShapeEnum::GroupEnum(g) = &shape.shape {
        let n = g.children.len();
        let mut i: usize = 0;
        while i < n
            invariant
                s == shapes@,
                valid_arena(s),
                level@.len() == s.len(),
                forall|j: int| 0 <= j < level@.len() && (#[trigger] level@[j]) is Some ==> level@[j].unwrap() < bound,
                a < s.len(),
                s[a as int].shape == ShapeEnum::GroupEnum(*g),
                n == g.children@.len(),
                i <= n,
                best <= bound,
                forall|k: int|
                    0 <= k < i ==> level@[g.children@[k] as int] is Some && level@[g.children@[k] as int].unwrap()
                        < best,
            decreases n - i,
        {
            let c = g.children[i];
            proof {
                assert(s[a as int].child_seq()[i as int] == c);
            }
            match level[c] {
                Some(l) => {
                    if l + 1 > best {
                        best = l + 1;
                    }
                },
                None => {
                    proof {
                        assert(s[a as int].child_seq().contains(c));
                        assert(group_edge(s, a as int, c));
                        assert(edge(s, a as int, c));
                        assert(edge_of(s, a as int, c, groups_only));
                    }
                    return None;
                },
            }
            i = i + 1;
        }
        proof {
            assert forall|b: ShapeIdx| #[trigger] edge_of(s, a as int, b, groups_only) implies b < s.len()
                && level@[b as int] is Some && level@[b as int].unwrap() < best by {
                if group_edge(s, a as int, b) {
                    let k = choose|k: int| 0 <= k < s[a as int].child_seq().len() && s[a as int].child_seq()[k] == b;
                    assert(g.children@[k] == b);
                }
            }
        }
        return Some(best);
    }
    if !groups_only {
        if let ShapeEnum::CsgEnum(c) = &shape.shape {
            if let Some(l) = c.left {
                match level[l] {
                    Some(v) => {
                        if v + 1 > best {
                            best = v + 1;
                        }
                    },
                    None => {
                        proof {
                            assert(s[a as int].is_csg() && s[a as int].csg_data().left == Some(l));
                            assert(l < s.len());
                            assert(edge(s, a as int, l));
                            assert(edge_of(s, a as int, l, groups_only));
                        }
                        return None;
                    },
                }
            }
            if let Some(r) = c.right {
                match level[r] {
                    Some(v) => {
                        if v + 1 > best {
                            best = v + 1;
                        }
                    },
                    None => {
                        proof {
                            assert(s[a as int].is_csg() && s[a as int].csg_data().right == Some(r));
                            assert(r < s.len());
                            assert(edge(s, a as int, r));
                            assert(edge_of(s, a as int, r, groups_only));
                        }
                        return None;
                    },
                }
            }
        }
    }
    proof {
        assert forall|b: ShapeIdx| #[trigger] edge_of(s, a as int, b, groups_only) implies b < s.len()
            && level@[b as int] is Some && level@[b as int].unwrap() < best by {
            if group_edge(s, a as int, b) {
                assert(s[a as int].child_seq().contains(b));
            }
        }
    }
    Some(best)
}

/// Gives levels to as many shapes as possible: a shape gets one once all its
/// successors have one.
fn assign_levels(shapes: &ShapeArr, groups_only: bool) -> (level: Vec<Option<usize>>)
    requires
        valid_arena(shapes@),
    ensures
        levels_sound(shapes@, level@, groups_only),
        levels_stuck(shapes@, level@, groups_only),
        forall|i: int| 0 <= i < level@.len() && (#[trigger] level@[i]) is Some ==> level@[i].unwrap() < shapes@.len(),
{
    let n = shapes.len();
    let mut level: Vec<Option<usize>> = Vec::new();
    let mut i: usize = 0;
    while i < n
        invariant
            i <= n,
            level@.len() == i,
            forall|j: int| 0 <= j < i ==> #[trigger] level@[j] is None,
            count_some(level@) == 0,
        decreases n - i,
    {
        proof {
            assert(level@.push(None).drop_last() =~= level@);
        }
        level.push(None);
        i = i + 1;
    }
    let mut count: usize = 0;
    let mut progress = true;
    proof {
        lemma_count_some_bound(level@);
    }
    while progress
        invariant
            n == shapes@.len(),
            valid_arena(shapes@),
            level@.len() == n,
            count <= n,
            count == count_some(level@),
            levels_sound(shapes@, level@, groups_only),
            forall|j: int| 0 <= j < level@.len() && (#[trigger] level@[j]) is Some ==> level@[j].unwrap() < count,
            !progress ==> levels_stuck(shapes@, level@, groups_only),
        decreases n - count + (if progress { 1int } else { 0int }),
    {
        progress = false;
        let ghost count0 = count;
        let mut a: usize = 0;
        while a < n
            invariant
                n == shapes@.len(),
                valid_arena(shapes@),
                level@.len() == n,
                count <= n,
                count == count_some(level@),
                count >= count0,
                progress ==> count > count0,
                levels_sound(shapes@, level@, groups_only),
                forall|j: int| 0 <= j < level@.len() && (#[trigger] level@[j]) is Some ==> level@[j].unwrap() < count,
                a <= n,
                !progress ==> forall|j: int|
                    0 <= j < a && #[trigger] level@[j] is None ==> exists|b: ShapeIdx|
                        b < shapes@.len() && edge_of(shapes@, j, b, groups_only) && level@[b as int] is None,
            decreases n - a,
        {
            if level[a].is_none() {
                match level_for(shapes, &level, a, groups_only, count) {
                    Some(l) => {
                        let ghost before = level@;
                        proof {
                            lemma_count_some_set(before, a as int, l);
                            lemma_count_some_bound(level@.update(a as int, Some(l)));
                        }
                        level.set(a, Some(l));
                        count = count + 1;
                        progress = true;
                    },
                    None => {},
                }
            }
            a = a + 1;
        }
    }
    level
}

/// Whether every index that a shape of the arena holds points into the arena.
pub fn arena_is_valid(shapes: &ShapeArr) -> (r: bool)
    ensures
        r == valid_arena(shapes@),
{
    let n = shapes.len();
    let mut i: usize = 0;
    while i < n
        invariant
            n == shapes@.len(),
            i <= n,
            forall|j: int| 0 <= j < i ==> indices_in_range(#[trigger] shapes@[j], n as int),
        decreases n - i,
    {
        let s = &shapes[i];
        if let Some(p) = s.parent {
            if p >= n {
                return false;
            }
        }
        match &s.shape {
            ShapeEnum::GroupEnum(g) => {
                let m = g.children.len();
                let mut k: usize = 0;
                while k < m
                    invariant
                        n == shapes@.len(),
                        i < n,
                        shapes@[i as int].shape == ShapeEnum::GroupEnum(*g),
                        m == g.children@.len(),
                        k <= m,
                        forall|j: int| 0 <= j < k ==> #[trigger] g.children@[j] < n,
                    decreases m - k,
                {
                    if g.children[k] >= n {
                        proof {
                            assert(shapes@[i as int].child_seq() == g.children@);
                            assert(shapes@[i as int].child_seq()[k as int] >= n);
                            assert(!indices_in_range(shapes@[i as int], n as int));
                        }
                        return false;
                    }
                    k = k + 1;
                }
                proof {
                    assert(shapes@[i as int].child_seq() == g.children@);
                }
            },
            ShapeEnum::CsgEnum(c) => {
                if let Some(l) = c.left {
                    if l >= n {
                        return false;
                    }
                }
                if let Some(r) = c.right {
                    if r >= n {
                        return false;
                    }
                }
            },
            _ => {},
        }
        i = i + 1;
    }
    true
}

/// A shape left without a level shows that no rank decreases along the edges.
proof fn lemma_unlevelled_has_no_rank(
    shapes: Seq<Shape>,
    level: Seq<Option<usize>>,
    groups_only: bool,
    x: int,
)
    requires
        level.len() == shapes.len(),
        levels_stuck(shapes, level, groups_only),
        0 <= x < shapes.len(),
        level[x] is None,
    ensures
        forall|rank: spec_fn(int) -> nat| !#[trigger] ranked_on(shapes, rank, groups_only),
{
    assert forall|rank: spec_fn(int) -> nat| !#[trigger] ranked_on(shapes, rank, groups_only) by {
        lemma_stuck_has_no_rank(shapes, level, groups_only, rank, x);
    }
}

/// Levels for all shapes, when every shape got one.
fn all_levels(shapes: &ShapeArr, groups_only: bool) -> (r: Option<Vec<usize>>)
    requires
        valid_arena(shapes@),
    ensures
        r matches Some(v) ==> v@.len() == shapes@.len() && forall|a: int, b: ShapeIdx|
            0 <= a < shapes@.len() && #[trigger] edge_of(shapes@, a, b, groups_only) ==> b
                < shapes@.len() && v@[b as int] < v@[a],
        r is None ==> forall|rank: spec_fn(int) -> nat| !#[trigger] ranked_on(shapes@, rank, groups_only),
{
    let level = assign_levels(shapes, groups_only);
    let n = shapes.len();
    let mut v: Vec<usize> = Vec::new();
    let mut i: usize = 0;
    while i < n
        invariant
            n == shapes@.len(),
            level@.len() == n,
            levels_sound(shapes@, level@, groups_only),
            levels_stuck(shapes@, level@, groups_only),
            i <= n,
            v@.len() == i,
            forall|j: int| 0 <= j < i ==> (#[trigger] level@[j]) is Some && v@[j] == level@[j].unwrap(),
        decreases n - i,
    {
        match level[i] {
            Some(l) => v.push(l),
            None => {
                proof {
                    lemma_unlevelled_has_no_rank(shapes@, level@, groups_only, i as int);
                }
                return None;
            },
        }
        i = i + 1;
    }
    proof {
        assert forall|a: int, b: ShapeIdx|
            0 <= a < shapes@.len() && #[trigger] edge_of(shapes@, a, b, groups_only) implies b
                < shapes@.len() && v@[b as int] < v@[a] by {
            assert(level@[a] is Some);
        }
    }
    Some(v)
}

/// Whether no shape of the arena contains itself, through groups or CSG operands.
pub fn arena_is_acyclic(shapes: &ShapeArr) -> (r: bool)
    requires
        valid_arena(shapes@),
    ensures
        r == acyclic(shapes@),
{
    match all_levels(shapes, false) {
        Some(v) => {
            proof {
                let rank = |i: int| -> nat { v@[i] as nat };
                assert forall|a: int, b: ShapeIdx|
                    0 <= a < shapes@.len() && #[trigger] edge(shapes@, a, b) implies rank(b as int)
                        < rank(a) by {
                    assert(edge_of(shapes@, a, b, false));
                }
                assert(ranked_by(shapes@, rank));
            }
            true
        },
        None => {
            proof {
                if acyclic(shapes@) {
                    let rank = arena_rank(shapes@);
                    assert(ranked_by(shapes@, rank));
                    assert forall|a: int, b: ShapeIdx|
                        0 <= a < shapes@.len() && #[trigger] edge_of(shapes@, a, b, false) implies rank(
                            b as int,
                        ) < rank(a) by {
                        assert(edge(shapes@, a, b));
                    }
                    assert(ranked_on(shapes@, rank, false));
                }
            }
            false
        },
    }
}

/// The height of the groups below `a` is at most the level of `a`.
proof fn lemma_height_below_level(shapes: Seq<Shape>, v: Seq<usize>, a: int)
    requires
        valid_arena(shapes),
        groups_acyclic(shapes),
        0 <= a < shapes.len(),
        v.len() == shapes.len(),
        forall|x: int, b: ShapeIdx|
            0 <= x < shapes.len() && #[trigger] edge_of(shapes, x, b, true) ==> b < shapes.len()
                && v[b as int] < v[x],
    ensures
        group_height(shapes, a) <= v[a],
    decreases group_rank(shapes)(a), shapes[a].child_seq().len() + 1,
{
    lemma_height_all_below_level(shapes, v, a, shapes[a].child_seq().len() as int);
}

proof fn lemma_height_all_below_level(shapes: Seq<Shape>, v: Seq<usize>, a: int, k: int)
    requires
        valid_arena(shapes),
        groups_acyclic(shapes),
        0 <= a < shapes.len(),
        0 <= k <= shapes[a].child_seq().len(),
        v.len() == shapes.len(),
        forall|x: int, b: ShapeIdx|
            0 <= x < shapes.len() && #[trigger] edge_of(shapes, x, b, true) ==> b < shapes.len()
                && v[b as int] < v[x],
    ensures
        group_height_all(shapes, a, k) <= v[a],
    decreases group_rank(shapes)(a), k,
{
    if k > 0 {
        let c = shapes[a].child_seq()[k - 1];
        lemma_group_rank_decreases(shapes, a, k - 1);
        assert(shapes[a].child_seq().contains(c));
        assert(edge_of(shapes, a, c, true));
        lemma_height_below_level(shapes, v, c as int);
        lemma_height_all_below_level(shapes, v, a, k - 1);
    }
}

/// Whether no group contains itself; when none does, a bound on how many
/// levels of groups lie below any shape.
pub fn groups_are_acyclic(shapes: &ShapeArr) -> (r: Option<usize>)
    requires
        valid_arena(shapes@),
    ensures
        r is Some == groups_acyclic(shapes@),
        r matches Some(h) ==> forall|a: int|
            0 <= a < shapes@.len() ==> #[trigger] group_height(shapes@, a) <= h,
{
    match all_levels(shapes, true) {
        Some(v) => {
            let n = v.len();
            let mut h: usize = 0;
            let mut i: usize = 0;
            while i < n
                invariant
                    n == v@.len(),
                    i <= n,
                    forall|j: int| 0 <= j < i ==> #[trigger] v@[j] <= h,
                decreases n - i,
            {
                if v[i] > h {
                    h = v[i];
                }
                i = i + 1;
            }
            proof {
                let rank = |i: int| -> nat { v@[i] as nat };
                assert forall|a: int, b: ShapeIdx|
                    0 <= a < shapes@.len() && #[trigger] group_edge(shapes@, a, b) implies rank(
                        b as int,
                    ) < rank(a) by {
                    assert(edge_of(shapes@, a, b, true));
                }
                assert(group_ranked_by(shapes@, rank));
                assert forall|a: int| 0 <= a < shapes@.len() implies #[trigger] group_height(
                    shapes@,
                    a,
                ) <= h by {
                    lemma_height_below_level(shapes@, v@, a);
                }
            }
            Some(h)
        },
        None => {
            proof {
                if groups_acyclic(shapes@) {
                    let rank = group_rank(shapes@);
                    assert(group_ranked_by(shapes@, rank));
                    assert forall|a: int, b: ShapeIdx|
                        0 <= a < shapes@.len() && #[trigger] edge_of(shapes@, a, b, true) implies rank(
                            b as int,
                        ) < rank(a) by {
                        assert(group_edge(shapes@, a, b));
                    }
                    assert(ranked_on(shapes@, rank, true));
                }
            }
            None
        },
    }
}

} // verus!
