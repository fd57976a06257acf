use raytracer_core::canvas::{Canvas, Pixel};
use raytracer_core::image::{render_image, Image, Pixel as RgbaPixel};
use raytracer_core::mesh::Mesh;

#[test]
fn test_canvas_new_pixels_know_their_coordinates() {
    let c = Canvas::new(3, 2, 0.0f32);
    assert_eq!(c.get_width(), 3);
    assert_eq!(c.get_height(), 2);
    assert_eq!(c.get_pixels().len(), 6);
    for y in 0..2 {
        for x in 0..3 {
            let p = c.pixel_at(x, y);
            assert_eq!((p.x, p.y), (x, y));
            assert_eq!(p.color, 0.0);
        }
    }
    assert_eq!(c.calc_idx(2, 1), 5);
}

#[test]
fn test_canvas_read_gives_back_write() {
    let mut c = Canvas::new(4, 3, (0.0f32, 0.0f32, 0.0f32));
    c.write_pixel(2, 1, (1.0, 0.5, 0.25));
    let p = c.pixel_at(2, 1);
    assert_eq!(p.color, (1.0, 0.5, 0.25));
    assert_eq!((p.x, p.y), (2, 1));
    assert_eq!(c.pixel_at(1, 2).color, (0.0, 0.0, 0.0));
    assert_eq!(c.pixel_at(2, 0).color, (0.0, 0.0, 0.0));
    assert_eq!(c.get_pixels()[c.calc_idx(2, 1)].color, (1.0, 0.5, 0.25));
}

#[test]
fn test_pixel_new() {
    let p = Pixel::new(7u8);
    assert_eq!((p.color, p.x, p.y), (7, 0, 0));
}

#[test]
fn test_render_image_is_gray() {
    let img = render_image(4, 3);
    assert_eq!(img.get_width(), 4);
    assert_eq!(img.get_height(), 3);
    assert_eq!(img.get_pixels().len(), 12);
    assert!(img.get_pixels().iter().all(|p| p.get_channels() == (127, 127, 127, 255)));
    let empty = Image::new(5, 6);
    assert_eq!(empty.get_pixels().len(), 0);
    let mut i = Image::new(1, 1);
    i.set_pixels(vec![RgbaPixel::new(1, 2, 3, 4)]);
    assert_eq!(i.get_pixels()[0].get_channels(), (1, 2, 3, 4));
}

#[test]
fn test_mesh_triangles_visited() {
    let m = Mesh::new(vec![0u8; 4], vec![0, 1, 2, 1, 2, 3, 2, 3, 0]);
    assert_eq!(m.triangles(), vec![(0, 1, 2), (1, 2, 3)]);
    let m = Mesh::new(vec![0u8; 3], vec![0, 1, 2]);
    assert_eq!(m.triangles(), vec![]);
    let m = Mesh::new(vec![0u8; 3], vec![0, 1, 2, 2, 1]);
    assert_eq!(m.triangles(), vec![(0, 1, 2)]);
    assert_eq!(m.vertices().len(), 3);
    assert_eq!(m.indices().len(), 5);
}
