# raytracer_core

The integer and structural logic of a ray tracer, verified with Verus.

`src/` (verified):

- `shape`: the shape arena (`Vec<Shape>`, shapes addressed by index), the
  well-formedness (`valid_arena`) and acyclicity (`acyclic`, `groups_acyclic`)
  of an arena, and the printed descriptions of shapes.
- `group`: groups and the operations that build the scene graph
  (`Group::new`, `add_child`, `add_child_idx`), and the order in which the
  tree below a group is printed.
- `csg`: CSG nodes, the CSG rule (`intersection_allowed`), which shapes a
  shape is made of (`a_includes_b`), and the filtering of a ray's
  intersections by a CSG node (`filter_intersections`), with its laws.
- `arena`: run-time checks that decide `valid_arena`, `acyclic` and
  `groups_acyclic`.
- `intersection`: intersections carrying a distance of any type.
- `canvas`: a row-major canvas whose pixel colors are of any type.
- `mesh`: the triangles of an indexed mesh.
- `image`: RGBA images and the image rendered for a requested scene size.
- `cube`, `scene`: the cube faces and the render back ends.
- `text`: decimal and boolean text used by the descriptions.

Geometry, colors and lighting are floating-point and are not part of the
verified library. `app/` holds the web server that renders an image for a
browser, the image-file input and output of canvases, and the printing of the
scene graph.
