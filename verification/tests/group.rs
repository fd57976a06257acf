use raytracer_core::group::Group;
use raytracer_core::shape::{Shape, ShapeArr, ShapeEnum};

// page 195
// Creating a new group
#[test]
fn test_creating_new_group() {
    let mut shapes: ShapeArr = vec![];
    let group_idx = Group::new(&mut shapes, "group".to_string());
    let group = shapes.get(group_idx).unwrap();
    assert_eq!(group_idx, 0);
    assert!(group.get_children().is_empty());
    assert!(group.get_parent().is_none());
    assert_eq!(group.get_name().as_deref(), Some("group"));
}

// page 195
// A shape has a parent attribute
#[test]
fn test_shape_has_empty_parent() {
    let shape = Shape::new(ShapeEnum::SphereEnum);
    assert!(shape.get_parent().is_none());
}

// page 195
// Adding a child to a group
#[test]
fn test_adding_child_to_group() {
    let mut shapes: ShapeArr = vec![];
    let group_idx = Group::new(&mut shapes, "group".to_string());
    let group = shapes.get(group_idx).unwrap();
    assert!(group.get_parent().is_none());

    let shape = Shape::new(ShapeEnum::SphereEnum);
    let child_idx = Group::add_child(&mut shapes, group_idx, shape);

    let group = shapes.get(group_idx).unwrap();
    let children = group.get_children();
    assert_eq!(children.len(), 1);
    assert_eq!(children[0], child_idx);
    assert_eq!(*shapes[child_idx].get_parent(), Some(group_idx));
}

#[test]
fn test_new_part_of_group() {
    let mut shapes: ShapeArr = vec![];
    let a = Group::new(&mut shapes, "a".to_string());
    let b = Group::new_part_of_group(&mut shapes, "b".to_string());
    assert_eq!((a, b), (0, 1));
    assert!(!shapes[a].get_part_of_group());
    assert!(shapes[b].get_part_of_group());
    assert!(shapes[b].get_casts_shadow());
}

#[test]
fn test_add_child_idx_nests_groups() {
    let mut shapes: ShapeArr = vec![];
    let g1 = Group::new(&mut shapes, "group".to_string());
    let g2 = Group::new(&mut shapes, "group".to_string());
    Group::add_child_idx(&mut shapes, g1, g2);
    let s = Group::add_child(&mut shapes, g2, Shape::new(ShapeEnum::SphereEnum));
    assert_eq!(shapes[g1].get_children(), &vec![g2]);
    assert_eq!(shapes[g2].get_children(), &vec![s]);
    assert_eq!(*shapes[g2].get_parent(), Some(g1));
    assert_eq!(*shapes[s].get_parent(), Some(g2));
}

#[test]
fn test_tree_order_indents_children_by_two() {
    let mut shapes: ShapeArr = vec![];
    let g1 = Group::new(&mut shapes, "g1".to_string());
    let a = Group::add_child(&mut shapes, g1, Shape::new(ShapeEnum::SphereEnum));
    let g2 = Group::add_child(&mut shapes, g1, Shape::new(ShapeEnum::CubeEnum));
    let g3 = Group::new(&mut shapes, "g3".to_string());
    Group::add_child_idx(&mut shapes, g1, g3);
    let b = Group::add_child(&mut shapes, g3, Shape::new(ShapeEnum::PlaneEnum));
    let order = Group::tree_order(&shapes, g1, 0);
    assert_eq!(order, vec![(0, g1), (2, a), (2, g2), (2, g3), (4, b)]);
    let order = Group::tree_order(&shapes, g3, 5);
    assert_eq!(order, vec![(5, g3), (7, b)]);
}

#[test]
fn test_shape_text() {
    let mut shapes: ShapeArr = vec![];
    let g = Group::new(&mut shapes, "grp".to_string());
    let c = Group::add_child(&mut shapes, g, Shape::new_with_name(ShapeEnum::SphereEnum, "ball".to_string()));
    assert_eq!(
        shapes[c].to_string(),
        "Shape: sphere  name 'ball'  parent Some(0), part_of_group  false      "
    );
    assert_eq!(
        shapes[g].to_string(),
        "Shape: group    name 'grp'      parent None, part_of_group  false      "
    );
    assert_eq!(shapes[c].to_debug_string(), "shape type = ShapeEnum: sphere    , name = 'ball'");
    let cyl = Shape::new(ShapeEnum::CylinderEnum);
    assert_eq!(
        cyl.to_string(),
        "Shape: cylinder   name ''     parent None, part_of_group  false      "
    );
    assert_eq!(ShapeEnum::SmoothTriangleEnum.to_debug_string(), "ShapeEnum smooth triangle");
    assert_eq!(ShapeEnum::TriangleEnum.to_string(), "ShapeEnum: triangle   ");
}

#[test]
fn test_parent_text_has_all_digits() {
    let mut s = Shape::new(ShapeEnum::PlaneEnum);
    s.set_parent(1207);
    s.set_part_of_group(true);
    assert_eq!(
        s.to_string(),
        "Shape: plane    name ''  parent Some(1207), part_of_group  true      "
    );
}

#[test]
fn test_group_text_lists_children() {
    let g = Group { shape_idx: 0, children: vec![3, 10, 42] };
    assert_eq!(
        g.to_debug_string(),
        "Group { value: \"TODO Group\", parent: \"TODO parent\", children: [3, 10, 42] }"
    );
    assert_eq!(g.to_string(), "Group:    ");
    let e = Group { shape_idx: 0, children: vec![] };
    assert_eq!(
        e.to_debug_string(),
        "Group { value: \"TODO Group\", parent: \"TODO parent\", children: [] }"
    );
}

#[test]
fn test_shape_setters() {
    let mut s = Shape::new(ShapeEnum::SphereEnum);
    assert!(s.get_casts_shadow());
    s.set_casts_shadow(false);
    assert!(!s.get_casts_shadow());
    assert!(matches!(s.get_shape(), ShapeEnum::SphereEnum));
    assert!(s.get_name().is_none());
}
