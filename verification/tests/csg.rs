use raytracer_core::csg::{
    a_includes_b, filter_intersections, intersection_allowed, Csg, CsgOp,
};
use raytracer_core::group::Group;
use raytracer_core::intersection::{Intersection, IntersectionList};
use raytracer_core::shape::{Shape, ShapeArr, ShapeEnum};

// page 230
// CSG is created with an operation and two shapes
#[test]
fn test_creating_new_csg_with_2_shapes() {
    let mut shapes: ShapeArr = vec![];

    let s1 = Shape::new_with_name(ShapeEnum::SphereEnum, "sphere".to_string());
    let s2 = Shape::new_with_name(ShapeEnum::CubeEnum, "cube".to_string());

    let csg_idx = Csg::new(&mut shapes, "csg".to_string(), CsgOp::UNION);
    let (shape_idx_left, shape_idx_right) = Csg::add_child(&mut shapes, csg_idx, s1, s2);

    let csg = shapes.get(csg_idx as usize).unwrap();
    assert_eq!(*csg.get_op(), CsgOp::UNION);

    let s1 = shapes.get(shape_idx_left as usize).unwrap();
    assert_eq!(s1.get_name().as_ref().unwrap(), &"sphere".to_string());

    let s2 = shapes.get(shape_idx_right as usize).unwrap();
    assert_eq!(s2.get_name().as_ref().unwrap(), &"cube".to_string());
}

// page 231
// Evaluating the rule for a CSG operation
#[test]
fn test_evaluating_the_rule_for_a_csg_operation() {
    assert_eq!(false, intersection_allowed(&CsgOp::UNION, true, true, true));
    assert_eq!(true, intersection_allowed(&CsgOp::UNION, true, true, false));
    assert_eq!(false, intersection_allowed(&CsgOp::UNION, true, false, true));
    assert_eq!(true, intersection_allowed(&CsgOp::UNION, true, false, false));
    assert_eq!(false, intersection_allowed(&CsgOp::UNION, false, true, true));
    assert_eq!(false, intersection_allowed(&CsgOp::UNION, false, true, false));
    assert_eq!(true, intersection_allowed(&CsgOp::UNION, false, false, true));
    assert_eq!(true, intersection_allowed(&CsgOp::UNION, false, false, false));

    assert_eq!(true, intersection_allowed(&CsgOp::INTERSECTION, true, true, true));
    assert_eq!(false, intersection_allowed(&CsgOp::INTERSECTION, true, true, false));
    assert_eq!(true, intersection_allowed(&CsgOp::INTERSECTION, true, false, true));
    assert_eq!(false, intersection_allowed(&CsgOp::INTERSECTION, true, false, false));
    assert_eq!(true, intersection_allowed(&CsgOp::INTERSECTION, false, true, true));
    assert_eq!(true, intersection_allowed(&CsgOp::INTERSECTION, false, true, false));
    assert_eq!(false, intersection_allowed(&CsgOp::INTERSECTION, false, false, true));
    assert_eq!(false, intersection_allowed(&CsgOp::INTERSECTION, false, false, false));

    assert_eq!(false, intersection_allowed(&CsgOp::DIFFERENCE, true, true, true));
    assert_eq!(true, intersection_allowed(&CsgOp::DIFFERENCE, true, true, false));
    assert_eq!(false, intersection_allowed(&CsgOp::DIFFERENCE, true, false, true));
    assert_eq!(true, intersection_allowed(&CsgOp::DIFFERENCE, true, false, false));
    assert_eq!(true, intersection_allowed(&CsgOp::DIFFERENCE, false, true, true));
    assert_eq!(true, intersection_allowed(&CsgOp::DIFFERENCE, false, true, false));
    assert_eq!(false, intersection_allowed(&CsgOp::DIFFERENCE, false, false, true));
    assert_eq!(false, intersection_allowed(&CsgOp::DIFFERENCE, false, false, false));
}

// page 234
// Filtering a list of intersections
#[test]
fn test_filtering_list_of_intersections() {
    let mut shapes: ShapeArr = vec![];

    let s1 = Shape::new_with_name(ShapeEnum::SphereEnum, "sphere".to_string());
    let s2 = Shape::new_with_name(ShapeEnum::CubeEnum, "cube".to_string());

    let csg_idx = Csg::new(&mut shapes, "csg".to_string(), CsgOp::UNION);
    let (shape_idx_left, shape_idx_right) = Csg::add_child(&mut shapes, csg_idx, s1, s2);

    let i1 = Intersection::new(1.0f32, shape_idx_left);
    let i2 = Intersection::new(2.0f32, shape_idx_right);
    let i3 = Intersection::new(3.0f32, shape_idx_left);
    let i4 = Intersection::new(4.0f32, shape_idx_right);

    let mut xs = IntersectionList::new();
    xs.add(i1);
    xs.add(i2);
    xs.add(i3);
    xs.add(i4);

    for (op, x0, x1) in [(CsgOp::UNION, 0, 3), (CsgOp::INTERSECTION, 1, 2), (CsgOp::DIFFERENCE, 0, 1)] {
        let mut s = Shape::new_with_name(
            ShapeEnum::CsgEnum(Csg { shape_idx: csg_idx, left: None, right: None, op }),
            "csg".to_string(),
        );
        s.set_left(shape_idx_left);
        s.set_right(shape_idx_right);
        test_filtering_list_of_intersections_helper(&s, &xs, x0, x1, &shapes);
    }
}

fn test_filtering_list_of_intersections_helper(
    csg: &Shape,
    xs: &IntersectionList<f32>,
    expected_x0_idx: usize,
    expected_x1_idx: usize,
    shapes: &ShapeArr,
) {
    let res = filter_intersections(csg, xs, shapes);

    assert_eq!(res.get_intersections().len(), 2);

    assert_eq!(
        res.get_intersections().get(0).unwrap().get_t(),
        xs.get_intersections().get(expected_x0_idx).unwrap().get_t()
    );
    assert_eq!(
        res.get_intersections().get(1).unwrap().get_t(),
        xs.get_intersections().get(expected_x1_idx).unwrap().get_t()
    );
}

#[test]
fn test_includes_follows_groups_and_operands() {
    let mut shapes: ShapeArr = vec![];
    let csg_idx = Csg::new(&mut shapes, "csg".to_string(), CsgOp::DIFFERENCE);
    let (left, right) = Csg::add_child(
        &mut shapes,
        csg_idx,
        Shape::new(ShapeEnum::SphereEnum),
        Shape::new(ShapeEnum::CubeEnum),
    );
    assert!(a_includes_b(&shapes, csg_idx, left));
    assert!(a_includes_b(&shapes, csg_idx, right));
    assert!(a_includes_b(&shapes, left, left));
    assert!(!a_includes_b(&shapes, left, right));
    assert!(!a_includes_b(&shapes, csg_idx, csg_idx));

    let g = Group::new(&mut shapes, "g".to_string());
    let inner = Group::add_child(&mut shapes, g, Shape::new(ShapeEnum::PlaneEnum));
    assert!(a_includes_b(&shapes, g, inner));
    assert!(!a_includes_b(&shapes, g, left));
    Group::add_child_idx(&mut shapes, g, csg_idx);
    assert!(a_includes_b(&shapes, g, right));
}

#[test]
fn test_filter_with_group_as_left_operand() {
    // hits on any child of the left group count as hits on the left operand
    let mut shapes: ShapeArr = vec![];
    let csg_idx = Csg::new(&mut shapes, "csg".to_string(), CsgOp::INTERSECTION);
    let (left, right) = Csg::add_child(
        &mut shapes,
        csg_idx,
        Shape::new(ShapeEnum::SphereEnum),
        Shape::new(ShapeEnum::CubeEnum),
    );
    let g = Group::new(&mut shapes, "g".to_string());
    let a = Group::add_child(&mut shapes, g, Shape::new(ShapeEnum::SphereEnum));
    let b = Group::add_child(&mut shapes, g, Shape::new(ShapeEnum::CylinderEnum));
    let _ = left;
    shapes[csg_idx].set_left(g);

    let mut xs = IntersectionList::new();
    xs.add(Intersection::new(1u32, a));
    xs.add(Intersection::new(2u32, right));
    xs.add(Intersection::new(3u32, b));
    xs.add(Intersection::new(4u32, right));

    let res = filter_intersections(&shapes[csg_idx], &xs, &shapes);
    let ts: Vec<u32> = res.get_intersections().iter().map(|i| i.get_t()).collect();
    assert_eq!(ts, vec![2, 3]);
}

#[test]
fn test_filter_only_left_hits() {
    let mut shapes: ShapeArr = vec![];
    let csg_idx = Csg::new(&mut shapes, "csg".to_string(), CsgOp::UNION);
    let (left, _right) = Csg::add_child(
        &mut shapes,
        csg_idx,
        Shape::new(ShapeEnum::SphereEnum),
        Shape::new(ShapeEnum::CubeEnum),
    );
    let mut xs = IntersectionList::new();
    xs.add(Intersection::new(1u8, left));
    xs.add(Intersection::new(2u8, left));
    for (op, n) in [(CsgOp::UNION, 2), (CsgOp::DIFFERENCE, 2), (CsgOp::INTERSECTION, 0)] {
        let mut s = Shape::new(ShapeEnum::CsgEnum(Csg { shape_idx: csg_idx, left: None, right: None, op }));
        s.set_left(left);
        s.set_right(_right);
        assert_eq!(filter_intersections(&s, &xs, &shapes).get_intersections().len(), n);
    }
}

#[test]
fn test_union_symmetric_in_operands() {
    let mut shapes: ShapeArr = vec![];
    let csg_idx = Csg::new(&mut shapes, "csg".to_string(), CsgOp::UNION);
    let (l, r) = Csg::add_child(
        &mut shapes,
        csg_idx,
        Shape::new(ShapeEnum::SphereEnum),
        Shape::new(ShapeEnum::CubeEnum),
    );
    let mut xs = IntersectionList::new();
    for (t, s) in [(1u8, l), (2, r), (3, r), (4, l)] {
        xs.add(Intersection::new(t, s));
    }
    let a = filter_intersections(&shapes[csg_idx], &xs, &shapes);
    let mut swapped = Shape::new(ShapeEnum::CsgEnum(Csg { shape_idx: csg_idx, left: None, right: None, op: CsgOp::UNION }));
    swapped.set_left(r);
    swapped.set_right(l);
    let b = filter_intersections(&swapped, &xs, &shapes);
    let ta: Vec<u8> = a.get_intersections().iter().map(|i| i.get_t()).collect();
    let tb: Vec<u8> = b.get_intersections().iter().map(|i| i.get_t()).collect();
    assert_eq!(ta, vec![1, 4]);
    assert_eq!(ta, tb);
}

#[test]
fn test_csg_getters_and_text() {
    let mut c = Csg { shape_idx: 3, left: None, right: None, op: CsgOp::DIFFERENCE };
    c.set_left(4);
    c.set_right(5);
    assert_eq!(c.get_left(), 4);
    assert_eq!(c.get_right(), 5);
    assert_eq!(*c.get_op(), CsgOp::DIFFERENCE);
    assert_eq!(c.to_string(), "Csg:    ");
    assert_eq!(c.to_debug_string(), "Csg { value: \"TODO Csg\" }");
}

#[test]
fn test_csg_add_child_idx_links_group_child() {
    let mut shapes: ShapeArr = vec![];
    let g = Group::new(&mut shapes, "g".to_string());
    let c = Csg::new(&mut shapes, "c".to_string(), CsgOp::UNION);
    Csg::add_child_idx(&mut shapes, g, c);
    assert_eq!(shapes[g].get_children(), &vec![c]);
    assert_eq!(*shapes[c].get_parent(), Some(g));
}
