use icfpc2020::draw::{
    draw, draw_axes, draw_on_scale, multidraw_gradient, multidraw_gradient_scale, multidraw_stack,
    range_v, range_vv, Canvas,
};

fn bigvecs(v: &[(i32, i32)]) -> Vec<(i128, i128)> {
    v.iter().map(|(x, y)| (*x as i128, *y as i128)).collect()
}

fn turbo(i: usize, n: usize) -> [u8; 4] {
    let c = colorous::TURBO.eval_rational(i, n);
    [c.r, c.g, c.b, 255]
}

#[test]
fn test_draw() {
    let img = draw(&bigvecs(&[(1, 2), (-1, -1)]));
    assert_eq!(img.get_pixel(2, 2), [0, 0, 0, 255]);
    assert_eq!(img.get_pixel(3, 4), [255, 255, 255, 255]);
}

#[test]
fn draw_frame_has_a_margin() {
    let img = draw(&bigvecs(&[(1, 2), (-1, -1)]));
    assert_eq!((img.width, img.height), (5, 6));
    assert_eq!(img.get_pixel(1, 1), [255, 255, 255, 255]);
    assert_eq!(img.get_pixel(0, 0), [0, 0, 0, 255]);
    assert_eq!(img.get_pixel(4, 5), [0, 0, 0, 255]);
}

#[test]
fn range_of_points() {
    assert_eq!(range_v(&bigvecs(&[(1, 2), (-1, -1)])), ((5, 6), (2, 2)));
    assert_eq!(range_v(&bigvecs(&[(7, 7)])), ((3, 3), (-6, -6)));
    let vv = vec![bigvecs(&[(0, 0)]), bigvecs(&[]), bigvecs(&[(4, -2)])];
    assert_eq!(range_vv(&vv), ((7, 5), (1, 3)));
}

#[test]
fn put_and_get_pixels() {
    let mut c = Canvas::new(3, 2, [1, 2, 3, 4]);
    c.put_pixel(2, 1, [9, 9, 9, 9]);
    assert_eq!(c.get_pixel(2, 1), [9, 9, 9, 9]);
    assert_eq!(c.get_pixel(1, 1), [1, 2, 3, 4]);
    assert_eq!(c.pixels.len(), 6);
}

#[test]
fn axes_and_grid() {
    let mut c = Canvas::new(25, 25, [255, 255, 255, 255]);
    draw_axes(&mut c, &(3, 12), 10);
    // the horizontal axis through y = 12, grid rows at y = 2 and 22
    assert_eq!(c.get_pixel(5, 12), [255, 0, 0, 255]);
    assert_eq!(c.get_pixel(5, 2), [127, 127, 127, 255]);
    assert_eq!(c.get_pixel(5, 22), [127, 127, 127, 255]);
    // the vertical axis through x = 3 covers the rows
    assert_eq!(c.get_pixel(3, 12), [255, 0, 0, 255]);
    assert_eq!(c.get_pixel(13, 12), [127, 127, 127, 255]);
    assert_eq!(c.get_pixel(13, 5), [127, 127, 127, 255]);
    assert_eq!(c.get_pixel(5, 5), [255, 255, 255, 255]);
}

#[test]
fn axes_out_of_range_are_skipped() {
    let mut c = Canvas::new(12, 12, [255, 255, 255, 255]);
    draw_axes(&mut c, &(-5, 1), 10);
    assert_eq!(c.get_pixel(5, 1), [255, 0, 0, 255]);
    assert_eq!(c.get_pixel(5, 11), [127, 127, 127, 255]);
    assert_eq!(c.get_pixel(5, 5), [255, 255, 255, 255]);
}

#[test]
fn scaled_points_fill_squares() {
    let mut c = Canvas::new(6, 6, [0, 0, 0, 255]);
    draw_on_scale(&mut c, &bigvecs(&[(1, 0)]), &(0, 1), [255, 255, 255, 255], 2);
    assert_eq!(c.get_pixel(2, 2), [255, 255, 255, 255]);
    assert_eq!(c.get_pixel(3, 3), [255, 255, 255, 255]);
    assert_eq!(c.get_pixel(4, 2), [0, 0, 0, 255]);
    assert_eq!(c.get_pixel(1, 2), [0, 0, 0, 255]);
}

#[test]
fn gradient_colours_layers() {
    let vv = vec![bigvecs(&[(0, 0)]), bigvecs(&[(0, 0), (2, 1)])];
    let img = multidraw_gradient(&vv);
    assert_eq!((img.width, img.height), (5, 4));
    // (0, 0) is in both lists: the first one's colour wins
    assert_eq!(img.get_pixel(1, 1), turbo(1, 3));
    assert_eq!(img.get_pixel(3, 2), turbo(2, 3));
    assert_ne!(turbo(1, 3), turbo(2, 3));
    // the axes go through (1, 1)
    assert_eq!(img.get_pixel(1, 3), [255, 0, 0, 255]);
    assert_eq!(img.get_pixel(4, 0), [255, 255, 255, 255]);
}

#[test]
fn gradient_scaled() {
    let vv = vec![bigvecs(&[(0, 0)])];
    let img = multidraw_gradient_scale(&vv, 3);
    assert_eq!((img.width, img.height), (9, 9));
    assert_eq!(img.get_pixel(4, 5), turbo(1, 2));
    assert_eq!(img.get_pixel(3, 0), [255, 0, 0, 255]);
    assert_eq!(img.get_pixel(0, 0), [255, 255, 255, 255]);
}

#[test]
fn stacked_first_layer_black() {
    let vv = vec![bigvecs(&[(0, 0), (1, 1)])];
    let img = multidraw_stack(&vv);
    assert_eq!(img.get_pixel(1, 1), [0, 0, 0, 255]);
    assert_eq!(img.get_pixel(2, 2), [0, 0, 0, 255]);
    assert_eq!(img.get_pixel(3, 3), [255, 255, 255, 255]);
    assert_eq!(img.get_pixel(1, 3), [255, 0, 0, 255]);
}
