//! Shapes and the arena that holds a scene's shapes, addressed by index.
//!
//! A shape is either a primitive (whose geometry is not part of this crate's
//! logic), a group of children, or a CSG node with a left and a right child.
//! Parents, children and CSG operands are indices into the arena.

use vstd::prelude::*;
use crate::csg::{Csg, CsgOp};
use crate::group::Group;
use crate::text::{bool_text, option_text, push_bool, push_option};

verus! {

/// An index into the shape arena.
pub type ShapeIdx = usize;

/// The arena of all shapes of a scene.
pub type ShapeArr = Vec<Shape>;

/// The kind of a shape, with the structural data of groups and CSG nodes.
pub enum ShapeEnum {
    SphereEnum,
    PlaneEnum,
    CubeEnum,
    CylinderEnum,
    TriangleEnum,
    SmoothTriangleEnum,
    GroupEnum(Group),
    CsgEnum(Csg),
}

/// A shape of the arena.
pub struct Shape {
    pub shape: ShapeEnum,
    pub casts_shadow: bool,
    pub part_of_group: bool,
    pub parent: Option<ShapeIdx>,
    pub name: Option<String>,
}

impl Shape {
    pub open spec fn is_group(&self) -> bool {
        self.shape is GroupEnum
    }

    pub open spec fn is_csg(&self) -> bool {
        self.shape is CsgEnum
    }

    /// The children of a group; empty for every other kind.
    pub open spec fn child_seq(&self) -> Seq<ShapeIdx> {
        match self.shape {
            ShapeEnum::GroupEnum(g) => g.children@,
            _ => Seq::empty(),
        }
    }

    /// The CSG data of a CSG node.
    pub open spec fn csg_data(&self) -> Csg {
        match self.shape {
            ShapeEnum::CsgEnum(c) => c,
            _ => arbitrary(),
        }
    }

    /// The arena index a group or CSG node records for itself.
    pub open spec fn own_idx(&self) -> ShapeIdx {
        match self.shape {
            ShapeEnum::GroupEnum(g) => g.shape_idx,
            ShapeEnum::CsgEnum(c) => c.shape_idx,
            _ => 0,
        }
    }

    /// `after` is `before` with `c` appended to its children, all else kept.
    pub open spec fn appended_child(before: Shape, after: Shape, c: ShapeIdx) -> bool {
        &&& before.is_group()
        &&& after.is_group()
        &&& after.child_seq() == before.child_seq().push(c)
        &&& after.own_idx() == before.own_idx()
        &&& after.casts_shadow == before.casts_shadow
        &&& after.part_of_group == before.part_of_group
        &&& after.parent == before.parent
        &&& after.name == before.name
    }

    /// `s` with its parent set to `p`.
    pub open spec fn with_parent(s: Shape, p: ShapeIdx) -> Shape {
        Shape { parent: Some(p), ..s }
    }

    /// A freshly made shape of kind `kind`.
    pub open spec fn fresh(s: Shape, kind: ShapeEnum, name: Option<String>) -> bool {
        &&& s.shape == kind
        &&& s.casts_shadow
        &&& !s.part_of_group
        &&& s.parent is None
        &&& s.name == name
    }

    /// Makes a shape of the given kind without a name.
    pub fn new(shape: ShapeEnum) -> (s: Shape)
        ensures
            Shape::fresh(s, shape, None),
    {
        Shape { shape, casts_shadow: true, part_of_group: false, parent: None, name: None }
    }

    /// Makes a named shape of the given kind.
    pub fn new_with_name(shape: ShapeEnum, name: String) -> (s: Shape)
        ensures
            Shape::fresh(s, shape, Some(name)),
    {
        Shape { shape, casts_shadow: true, part_of_group: false, parent: None, name: Some(name) }
    }

    pub fn get_shape(&self) -> (r: &ShapeEnum)
        ensures
            *r == self.shape,
    {
        &self.shape
    }

    pub fn get_casts_shadow(&self) -> (r: bool)
        ensures
            r == self.casts_shadow,
    {
        self.casts_shadow
    }

    pub fn set_casts_shadow(&mut self, casts_shadow: bool)
        ensures
            *final(self) == (Shape { casts_shadow, ..*old(self) }),
    {
        self.casts_shadow = casts_shadow;
    }

    pub fn set_parent(&mut self, parent_idx: ShapeIdx)
        ensures
            *final(self) == Shape::with_parent(*old(self), parent_idx),
    {
        self.parent = Some(parent_idx);
    }

    pub fn get_parent(&self) -> (r: &Option<ShapeIdx>)
        ensures
            *r == self.parent,
    {
        &self.parent
    }

    pub fn get_part_of_group(&self) -> (r: bool)
        ensures
            r == self.part_of_group,
    {
        self.part_of_group
    }

    pub fn set_part_of_group(&mut self, part_of_group: bool)
        ensures
            *final(self) == (Shape { part_of_group, ..*old(self) }),
    {
        self.part_of_group = part_of_group;
    }

    pub fn get_name(&self) -> (r: &Option<String>)
        ensures
            *r == self.name,
    {
        &self.name
    }

    /// The children of a group.
    pub fn get_children(&self) -> (r: &Vec<ShapeIdx>)
        requires
            self.is_group(),
        ensures
            r@ == self.child_seq(),
    {
        match &self.shape {
            ShapeEnum::GroupEnum(g) => &g.children,
            _ => unreached(),
        }
    }

    /// The children of a group, to change in place.
    pub fn get_children_mut(&mut self) -> (r: &mut Vec<ShapeIdx>)
        requires
            old(self).is_group(),
        ensures
            r@ == old(self).child_seq(),
            final(self).is_group(),
            final(self).child_seq() == final(r)@,
            final(self).own_idx() == old(self).own_idx(),
            final(self).casts_shadow == old(self).casts_shadow,
            final(self).part_of_group == old(self).part_of_group,
            final(self).parent == old(self).parent,
            final(self).name == old(self).name,
    {
        match &mut self.shape {
            ShapeEnum::GroupEnum(g) => &mut g.children,
            _ => unreached(),
        }
    }

    /// The left operand of a CSG node.
    pub fn get_left(&self) -> (r: ShapeIdx)
        requires
            self.is_csg(),
            self.csg_data().left is Some,
        ensures
            Some(r) == self.csg_data().left,
    {
        match &self.shape {
            ShapeEnum::CsgEnum(c) => c.get_left(),
            _ => unreached(),
        }
    }

    /// The right operand of a CSG node.
    pub fn get_right(&self) -> (r: ShapeIdx)
        requires
            self.is_csg(),
            self.csg_data().right is Some,
        ensures
            Some(r) == self.csg_data().right,
    {
        match &self.shape {
            ShapeEnum::CsgEnum(c) => c.get_right(),
            _ => unreached(),
        }
    }

    pub fn set_left(&mut self, idx: ShapeIdx)
        requires
            old(self).is_csg(),
        ensures
            *final(self) == (Shape {
                shape: ShapeEnum::CsgEnum(Csg { left: Some(idx), ..old(self).csg_data() }),
                ..*old(self)
            }),
    {
        match &mut self.shape {
            ShapeEnum::CsgEnum(c) => c.set_left(idx),
            _ => {},
        }
    }

    pub fn set_right(&mut self, idx: ShapeIdx)
        requires
            old(self).is_csg(),
        ensures
            *final(self) == (Shape {
                shape: ShapeEnum::CsgEnum(Csg { right: Some(idx), ..old(self).csg_data() }),
                ..*old(self)
            }),
    {
        match &mut self.shape {
            ShapeEnum::CsgEnum(c) => c.set_right(idx),
            _ => {},
        }
    }

    /// The operation of a CSG node.
    pub fn get_op(&self) -> (r: &CsgOp)
        requires
            self.is_csg(),
        ensures
            *r == self.csg_data().op,
    {
        match &self.shape {
            ShapeEnum::CsgEnum(c) => c.get_op(),
            _ => unreached(),
        }
    }
}

/// The kind's word in a shape's display text.
pub open spec fn kind_display_text(k: ShapeEnum) -> Seq<char> {
    match k {
        ShapeEnum::SphereEnum => "sphere "@,
        ShapeEnum::PlaneEnum => "plane"@,
        ShapeEnum::CubeEnum => "cube"@,
        ShapeEnum::CylinderEnum => "cylinder"@,
        ShapeEnum::TriangleEnum => "triangle"@,
        ShapeEnum::SmoothTriangleEnum => "smooth triangle"@,
        ShapeEnum::GroupEnum(_) => "group"@,
        ShapeEnum::CsgEnum(_) => "CSG"@,
    }
}

/// The kind's word in a shape's debug text.
pub open spec fn kind_debug_text(k: ShapeEnum) -> Seq<char> {
    match k {
        ShapeEnum::SphereEnum => "sphere"@,
        ShapeEnum::PlaneEnum => "plane"@,
        ShapeEnum::CubeEnum => "cube"@,
        ShapeEnum::CylinderEnum => "cylinder"@,
        ShapeEnum::TriangleEnum => "triangle"@,
        ShapeEnum::SmoothTriangleEnum => "smooth triangle"@,
        ShapeEnum::GroupEnum(_) => "group"@,
        ShapeEnum::CsgEnum(_) => "csg"@,
    }
}

/// What a shape's display text shows before its name.
pub open spec fn name_lead_text(k: ShapeEnum) -> Seq<char> {
    match k {
        ShapeEnum::SphereEnum => "sphere  name '"@,
        ShapeEnum::PlaneEnum => "plane    name '"@,
        ShapeEnum::CubeEnum => "cube   name '"@,
        ShapeEnum::CylinderEnum => "cylinder   name '"@,
        ShapeEnum::TriangleEnum => "triangle   name '"@,
        ShapeEnum::SmoothTriangleEnum => "smooth triangle   name '"@,
        ShapeEnum::GroupEnum(_) => "group    name '"@,
        ShapeEnum::CsgEnum(_) => "CSG    name '"@,
    }
}

/// What a shape's display text shows between its name and its parent.
pub open spec fn parent_lead_text(k: ShapeEnum) -> Seq<char> {
    match k {
        ShapeEnum::SphereEnum => "'  parent "@,
        ShapeEnum::PlaneEnum => "'  parent "@,
        ShapeEnum::CylinderEnum => "'     parent "@,
        _ => "'      parent "@,
    }
}

/// A shape's name, or nothing when it has none.
pub open spec fn name_text(name: Option<String>) -> Seq<char> {
    match name {
        Some(n) => n@,
        None => Seq::empty(),
    }
}

/// Whether two kinds are the same kind of shape.
pub open spec fn same_kind(k1: ShapeEnum, k2: ShapeEnum) -> bool {
    ||| (k1 is SphereEnum && k2 is SphereEnum)
    ||| (k1 is PlaneEnum && k2 is PlaneEnum)
    ||| (k1 is CubeEnum && k2 is CubeEnum)
    ||| (k1 is CylinderEnum && k2 is CylinderEnum)
    ||| (k1 is TriangleEnum && k2 is TriangleEnum)
    ||| (k1 is SmoothTriangleEnum && k2 is SmoothTriangleEnum)
    ||| (k1 is GroupEnum && k2 is GroupEnum)
    ||| (k1 is CsgEnum && k2 is CsgEnum)
}

/// The words that describe a kind tell the kinds apart: two kinds share a
/// display word, or a debug word, only when they are the same kind; the
/// display word, and the start of a shape's display text, of every kind but
/// the CSG node begin with its debug word (a CSG node displays as `CSG` and
/// debugs as `csg`); a cube debugs as `cube`.
pub proof fn lemma_kind_words_name_the_kind(k1: ShapeEnum, k2: ShapeEnum)
    ensures
        kind_display_text(k1) == kind_display_text(k2) ==> same_kind(k1, k2),
        kind_debug_text(k1) == kind_debug_text(k2) ==> same_kind(k1, k2),
        !(k1 is CsgEnum) ==> kind_display_text(k1).take(kind_debug_text(k1).len() as int)
            == kind_debug_text(k1),
        k1 is CsgEnum ==> kind_display_text(k1) == seq!['C', 'S', 'G'] && kind_debug_text(k1)
            == seq!['c', 's', 'g'],
        k1 is CubeEnum ==> kind_debug_text(k1) == seq!['c', 'u', 'b', 'e'],
        !(k1 is CsgEnum) ==> name_lead_text(k1).take(kind_debug_text(k1).len() as int)
            == kind_debug_text(k1),
        k1 is CsgEnum ==> name_lead_text(k1).take(3) == kind_display_text(k1),
{
    reveal_strlit("sphere ");
    reveal_strlit("sphere");
    reveal_strlit("plane");
    reveal_strlit("cube");
    reveal_strlit("cylinder");
    reveal_strlit("triangle");
    reveal_strlit("smooth triangle");
    reveal_strlit("group");
    reveal_strlit("CSG");
    reveal_strlit("csg");
    reveal_strlit("sphere  name '");
    reveal_strlit("plane    name '");
    reveal_strlit("cube   name '");
    reveal_strlit("cylinder   name '");
    reveal_strlit("triangle   name '");
    reveal_strlit("smooth triangle   name '");
    reveal_strlit("group    name '");
    reveal_strlit("CSG    name '");
    assert("sphere  name '"@.take(6) =~= "sphere"@);
    assert("plane    name '"@.take(5) =~= "plane"@);
    assert("cube   name '"@.take(4) =~= "cube"@);
    assert("cylinder   name '"@.take(8) =~= "cylinder"@);
    assert("triangle   name '"@.take(8) =~= "triangle"@);
    assert("smooth triangle   name '"@.take(15) =~= "smooth triangle"@);
    assert("group    name '"@.take(5) =~= "group"@);
    assert("CSG    name '"@.take(3) =~= "CSG"@);
    assert("sphere "@.take(6) =~= "sphere"@);
    assert("plane"@.take(5) =~= "plane"@);
    assert("cube"@.take(4) =~= "cube"@);
    assert("cylinder"@.take(8) =~= "cylinder"@);
    assert("triangle"@.take(8) =~= "triangle"@);
    assert("smooth triangle"@.take(15) =~= "smooth triangle"@);
    assert("group"@.take(5) =~= "group"@);
    assert("CSG"@ =~= seq!['C', 'S', 'G']);
    assert("csg"@ =~= seq!['c', 's', 'g']);
    assert("cube"@ =~= seq!['c', 'u', 'b', 'e']);
    if kind_display_text(k1) == kind_display_text(k2) && !same_kind(k1, k2) {
        let a = kind_display_text(k1);
        let b = kind_display_text(k2);
        assert(a.len() == b.len());
        assert(a[0] == b[0]);
        assert(a[a.len() - 1] == b[b.len() - 1]);
    }
    if kind_debug_text(k1) == kind_debug_text(k2) && !same_kind(k1, k2) {
        let a = kind_debug_text(k1);
        let b = kind_debug_text(k2);
        assert(a.len() == b.len());
        assert(a[0] == b[0]);
        assert(a[a.len() - 1] == b[b.len() - 1]);
    }
}

impl ShapeEnum {
    /// The display text of a kind: `ShapeEnum: <word>   `.
    pub open spec fn display_text(self) -> Seq<char> {
        "ShapeEnum: "@ + kind_display_text(self) + "   "@
    }

    /// The debug text of a kind: `ShapeEnum <word>`.
    pub open spec fn debug_text(self) -> Seq<char> {
        "ShapeEnum "@ + kind_debug_text(self)
    }

    fn display_word(&self) -> (r: &'static str)
        ensures
            r@ == kind_display_text(*self),
    {
        match self {
            ShapeEnum::SphereEnum => "sphere ",
            ShapeEnum::PlaneEnum => "plane",
            ShapeEnum::CubeEnum => "cube",
            ShapeEnum::CylinderEnum => "cylinder",
            ShapeEnum::TriangleEnum => "triangle",
            ShapeEnum::SmoothTriangleEnum => "smooth triangle",
            ShapeEnum::GroupEnum(_) => "group",
            ShapeEnum::CsgEnum(_) => "CSG",
        }
    }

    fn debug_word(&self) -> (r: &'static str)
        ensures
            r@ == kind_debug_text(*self),
    {
        match self {
            ShapeEnum::SphereEnum => "sphere",
            ShapeEnum::PlaneEnum => "plane",
            ShapeEnum::CubeEnum => "cube",
            ShapeEnum::CylinderEnum => "cylinder",
            ShapeEnum::TriangleEnum => "triangle",
            ShapeEnum::SmoothTriangleEnum => "smooth triangle",
            ShapeEnum::GroupEnum(_) => "group",
            ShapeEnum::CsgEnum(_) => "csg",
        }
    }

    fn name_lead(&self) -> (r: &'static str)
        ensures
            r@ == name_lead_text(*self),
    {
        match self {
            ShapeEnum::SphereEnum => "sphere  name '",
            ShapeEnum::PlaneEnum => "plane    name '",
            ShapeEnum::CubeEnum => "cube   name '",
            ShapeEnum::CylinderEnum => "cylinder   name '",
            ShapeEnum::TriangleEnum => "triangle   name '",
            ShapeEnum::SmoothTriangleEnum => "smooth triangle   name '",
            ShapeEnum::GroupEnum(_) => "group    name '",
            ShapeEnum::CsgEnum(_) => "CSG    name '",
        }
    }

    fn parent_lead(&self) -> (r: &'static str)
        ensures
            r@ == parent_lead_text(*self),
    {
        match self {
            ShapeEnum::SphereEnum => "'  parent ",
            ShapeEnum::PlaneEnum => "'  parent ",
            ShapeEnum::CylinderEnum => "'     parent ",
            _ => "'      parent ",
        }
    }

    /// The display text of a kind (see `display_text`).
    pub fn to_string(&self) -> (r: String)
        ensures
            r@ == self.display_text(),
    {
        let mut out = String::from_str("ShapeEnum: ");
        out.append(self.display_word());
        out.append("   ");
        out
    }

    /// The debug text of a kind (see `debug_text`).
    pub fn to_debug_string(&self) -> (r: String)
        ensures
            r@ == self.debug_text(),
    {
        let mut out = String::from_str("ShapeEnum ");
        out.append(self.debug_word());
        out
    }
}

impl Shape {
    /// The display text of a shape: its kind, name, parent and whether it is
    /// part of a group.
    pub open spec fn display_text(self) -> Seq<char> {
        "Shape: "@ + name_lead_text(self.shape) + name_text(self.name) + parent_lead_text(self.shape)
            + option_text(self.parent) + ", part_of_group  "@ + bool_text(self.part_of_group)
            + "   "@ + "   "@
    }

    /// The debug text of a shape: its kind and name.
    pub open spec fn debug_text(self) -> Seq<char> {
        "shape type = "@ + self.shape.display_text() + ", name = '"@ + name_text(self.name) + "'"@
    }

    fn push_name(&self, out: &mut String)
        ensures
            final(out)@ == old(out)@ + name_text(self.name),
    {
        match &self.name {
            Some(n) => out.append(n.as_str()),
            None => {
                assert(old(out)@ + name_text(self.name) =~= old(out)@);
            },
        }
    }

    /// The display text of the shape (see `display_text`).
    pub fn to_string(&self) -> (r: String)
        ensures
            r@ == self.display_text(),
    {
        let mut out = String::from_str("Shape: ");
        out.append(self.shape.name_lead());
        self.push_name(&mut out);
        out.append(self.shape.parent_lead());
        push_option(&mut out, self.parent);
        out.append(", part_of_group  ");
        push_bool(&mut out, self.part_of_group);
        out.append("   ");
        out.append("   ");
        out
    }

    /// The debug text of the shape (see `debug_text`).
    pub fn to_debug_string(&self) -> (r: String)
        ensures
            r@ == self.debug_text(),
    {
        let mut out = String::from_str("shape type = ");
        let kind = self.shape.to_string();
        out.append(kind.as_str());
        out.append(", name = '");
        self.push_name(&mut out);
        out.append("'");
        proof {
            assert(out@ =~= self.debug_text());
        }
        out
    }
}

/// Every index that `s` holds is below `len`.
pub open spec fn indices_in_range(s: Shape, len: int) -> bool {
    &&& s.parent matches Some(p) ==> p < len
    &&& forall|k: int| 0 <= k < s.child_seq().len() ==> #[trigger] s.child_seq()[k] < len
    &&& s.is_csg() ==> (s.csg_data().left matches Some(l) ==> l < len)
    &&& s.is_csg() ==> (s.csg_data().right matches Some(r) ==> r < len)
}

/// Every index that a shape of the arena holds points into the arena.
pub open spec fn valid_arena(shapes: Seq<Shape>) -> bool {
    forall|i: int| 0 <= i < shapes.len() ==> indices_in_range(#[trigger] shapes[i], shapes.len() as int)
}

/// `b` is a child of the group at `a`.
pub open spec fn group_edge(shapes: Seq<Shape>, a: int, b: ShapeIdx) -> bool {
    shapes[a].child_seq().contains(b)
}

/// `b` is an operand of `a`: a child of a group or an operand of a CSG node.
pub open spec fn edge(shapes: Seq<Shape>, a: int, b: ShapeIdx) -> bool {
    ||| group_edge(shapes, a, b)
    ||| shapes[a].is_csg() && shapes[a].csg_data().left == Some(b)
    ||| shapes[a].is_csg() && shapes[a].csg_data().right == Some(b)
}

/// `rank` strictly decreases along every edge between group and children.
pub open spec fn group_ranked_by(shapes: Seq<Shape>, rank: spec_fn(int) -> nat) -> bool {
    forall|a: int, b: ShapeIdx|
        0 <= a < shapes.len() && #[trigger] group_edge(shapes, a, b) ==> rank(b as int) < rank(a)
}

/// `rank` strictly decreases along every edge of the arena.
pub open spec fn ranked_by(shapes: Seq<Shape>, rank: spec_fn(int) -> nat) -> bool {
    forall|a: int, b: ShapeIdx|
        0 <= a < shapes.len() && #[trigger] edge(shapes, a, b) ==> rank(b as int) < rank(a)
}

/// No group contains itself, directly or through other groups.
pub open spec fn groups_acyclic(shapes: Seq<Shape>) -> bool {
    exists|rank: spec_fn(int) -> nat| group_ranked_by(shapes, rank)
}

/// No shape contains itself, through groups or CSG operands.
pub open spec fn acyclic(shapes: Seq<Shape>) -> bool {
    exists|rank: spec_fn(int) -> nat| ranked_by(shapes, rank)
}

/// A rank that witnesses `groups_acyclic`.
pub open spec fn group_rank(shapes: Seq<Shape>) -> spec_fn(int) -> nat {
    choose|rank: spec_fn(int) -> nat| group_ranked_by(shapes, rank)
}

/// A rank that witnesses `acyclic`.
pub open spec fn arena_rank(shapes: Seq<Shape>) -> spec_fn(int) -> nat {
    choose|rank: spec_fn(int) -> nat| ranked_by(shapes, rank)
}

/// A shape without operands: neither a group with children nor a CSG node.
pub open spec fn is_leaf(s: Shape) -> bool {
    s.child_seq().len() == 0 && !s.is_csg()
}

/// Appending shapes without operands to an acyclic arena, and giving at most
/// one old shape `p` new operands among the appended ones only, keeps it acyclic.
pub proof fn lemma_append_leaves_keeps_acyclic(old: Seq<Shape>, new: Seq<Shape>, p: int)
    requires
        valid_arena(old),
        acyclic(old),
        old.len() <= new.len(),
        forall|a: int| 0 <= a < old.len() && a != p ==> #[trigger] new[a] == old[a],
        forall|a: int, b: ShapeIdx| old.len() <= a < new.len() ==> !#[trigger] edge(new, a, b),
        0 <= p < old.len() ==> forall|b: ShapeIdx| #[trigger] edge(new, p, b) ==> edge(old, p, b)
            || b >= old.len(),
    ensures
        acyclic(new),
{
    let rank = arena_rank(old);
    assert(ranked_by(old, rank));
    let r2 = |i: int| -> nat { if i >= old.len() { 0 } else { rank(i) + 1 } };
    assert forall|a: int, b: ShapeIdx| 0 <= a < new.len() && #[trigger] edge(new, a, b) implies r2(
        b as int,
    ) < r2(a) by {
        if a >= old.len() {
        } else if a == p {
            if edge(old, p, b) {
                lemma_rank_decreases(old, p, b);
            }
        } else {
            assert(new[a] == old[a]);
            assert(edge(old, a, b));
            lemma_rank_decreases(old, a, b);
        }
    }
    assert(ranked_by(new, r2));
}

/// An empty arena is well formed and acyclic.
pub proof fn lemma_empty_arena(shapes: Seq<Shape>)
    requires
        shapes.len() == 0,
    ensures
        valid_arena(shapes),
        acyclic(shapes),
{
    let r = |i: int| -> nat { 0 };
    assert(ranked_by(shapes, r));
}

/// Without cycles through any operands there are none through groups.
pub proof fn lemma_acyclic_groups(shapes: Seq<Shape>)
    requires
        acyclic(shapes),
    ensures
        groups_acyclic(shapes),
{
    let rank = arena_rank(shapes);
    assert(ranked_by(shapes, rank));
    assert forall|a: int, b: ShapeIdx| 0 <= a < shapes.len() && #[trigger] group_edge(shapes, a, b)
        implies rank(b as int) < rank(a) by {
        assert(edge(shapes, a, b));
    }
    assert(group_ranked_by(shapes, rank));
}

/// A shape without operands has no edges.
pub proof fn lemma_leaf_has_no_edges(shapes: Seq<Shape>, a: int, b: ShapeIdx)
    requires
        0 <= a < shapes.len(),
        is_leaf(shapes[a]) || (shapes[a].is_csg() && shapes[a].csg_data().left is None
            && shapes[a].csg_data().right is None),
    ensures
        !edge(shapes, a, b),
{
    if group_edge(shapes, a, b) {
        assert(shapes[a].child_seq().contains(b));
    }
}

/// What a well-formed, acyclic arena gives about the operands of shape `a`.
pub proof fn lemma_rank_decreases(shapes: Seq<Shape>, a: int, b: ShapeIdx)
    requires
        valid_arena(shapes),
        acyclic(shapes),
        0 <= a < shapes.len(),
        edge(shapes, a, b),
    ensures
        b < shapes.len(),
        arena_rank(shapes)(b as int) < arena_rank(shapes)(a),
{
    let rank = arena_rank(shapes);
    assert(ranked_by(shapes, rank));
    let s = shapes[a];
    if group_edge(shapes, a, b) {
        let k = choose|k: int| 0 <= k < s.child_seq().len() && s.child_seq()[k] == b;
        assert(s.child_seq()[k] < shapes.len());
    }
}

/// The group edges of a well-formed arena stay in range and lower the rank.
pub proof fn lemma_group_rank_decreases(shapes: Seq<Shape>, a: int, k: int)
    requires
        valid_arena(shapes),
        groups_acyclic(shapes),
        0 <= a < shapes.len(),
        0 <= k < shapes[a].child_seq().len(),
    ensures
        shapes[a].child_seq()[k] < shapes.len(),
        group_rank(shapes)(shapes[a].child_seq()[k] as int) < group_rank(shapes)(a),
{
    let rank = group_rank(shapes);
    assert(group_ranked_by(shapes, rank));
    assert(shapes[a].child_seq()[k] < shapes.len());
    assert(group_edge(shapes, a, shapes[a].child_seq()[k]));
}

} // verus!
