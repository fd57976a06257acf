use raytracer_core::arena::{arena_is_acyclic, arena_is_valid, groups_are_acyclic};
use raytracer_core::csg::{Csg, CsgOp};
use raytracer_core::group::Group;
use raytracer_core::shape::{Shape, ShapeArr, ShapeEnum};

#[test]
fn test_built_arena_is_valid_and_acyclic() {
    let mut shapes: ShapeArr = vec![];
    assert!(arena_is_valid(&shapes));
    assert!(arena_is_acyclic(&shapes));
    assert_eq!(groups_are_acyclic(&shapes), Some(0));

    let g1 = Group::new(&mut shapes, "g1".to_string());
    let g2 = Group::new(&mut shapes, "g2".to_string());
    Group::add_child_idx(&mut shapes, g1, g2);
    let _s = Group::add_child(&mut shapes, g2, Shape::new(ShapeEnum::SphereEnum));
    let c = Csg::new(&mut shapes, "c".to_string(), CsgOp::UNION);
    Csg::add_child(&mut shapes, c, Shape::new(ShapeEnum::SphereEnum), Shape::new(ShapeEnum::CubeEnum));
    assert!(arena_is_valid(&shapes));
    assert!(arena_is_acyclic(&shapes));
    let h = groups_are_acyclic(&shapes).unwrap();
    assert!(h >= 2);
}

#[test]
fn test_cycle_through_groups_is_found() {
    let mut shapes: ShapeArr = vec![];
    let g1 = Group::new(&mut shapes, "g1".to_string());
    let g2 = Group::new(&mut shapes, "g2".to_string());
    Group::add_child_idx(&mut shapes, g1, g2);
    Group::add_child_idx(&mut shapes, g2, g1);
    assert!(arena_is_valid(&shapes));
    assert!(!arena_is_acyclic(&shapes));
    assert_eq!(groups_are_acyclic(&shapes), None);
}

#[test]
fn test_cycle_through_csg_operands_only() {
    let mut shapes: ShapeArr = vec![];
    let c = Csg::new(&mut shapes, "c".to_string(), CsgOp::UNION);
    let (l, _r) = Csg::add_child(&mut shapes, c, Shape::new(ShapeEnum::SphereEnum), Shape::new(ShapeEnum::CubeEnum));
    // make the left operand the node itself
    shapes[c].set_left(c);
    let _ = l;
    assert!(arena_is_valid(&shapes));
    assert!(!arena_is_acyclic(&shapes));
    // groups alone have no cycle
    assert!(groups_are_acyclic(&shapes).is_some());
}

#[test]
fn test_out_of_range_index_is_found() {
    let mut shapes: ShapeArr = vec![];
    let g = Group::new(&mut shapes, "g".to_string());
    shapes[g].get_children_mut().push(7);
    assert!(!arena_is_valid(&shapes));
    let mut shapes: ShapeArr = vec![];
    let mut s = Shape::new(ShapeEnum::PlaneEnum);
    s.set_parent(3);
    shapes.push(s);
    assert!(!arena_is_valid(&shapes));
}
