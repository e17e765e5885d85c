use orbit_raster::color::Color;
use orbit_raster::framebuffer::{Framebuffer, FAR_DEPTH};
use orbit_raster::raster::{triangle_with_shader, Fragment, Sample, ScreenVertex};
use orbit_raster::skybox::Skybox;

fn frag(x: i64, y: i64, c: Color, depth: i64) -> Fragment {
    Fragment::new(x, y, c, depth)
}

#[test]
fn nearer_fragment_wins_in_either_order() {
    let near = Color::new(10, 20, 30);
    let far = Color::new(200, 100, 50);
    for order in [vec![frag(1, 1, near, 5), frag(1, 1, far, 10)], vec![frag(1, 1, far, 10), frag(1, 1, near, 5)]] {
        let mut fb = Framebuffer::new(3, 3);
        fb.clear();
        fb.draw_fragments(&order);
        assert_eq!(fb.buffer[1 * 3 + 1], near.to_hex());
        assert_eq!(fb.zbuffer[1 * 3 + 1], 5);
    }
}

#[test]
fn out_of_frame_fragments_are_ignored() {
    let mut fb = Framebuffer::new(2, 2);
    let c = Color::new(1, 2, 3);
    fb.draw_fragments(&vec![frag(-1, 0, c, 0), frag(0, 2, c, 0), frag(2, 0, c, 0)]);
    assert!(fb.buffer.iter().all(|&p| p == 0));
    assert!(fb.zbuffer.iter().all(|&d| d == FAR_DEPTH));
}

#[test]
fn point_respects_depth() {
    let mut fb = Framebuffer::new(2, 2);
    fb.set_current_color(0x112233);
    fb.point(1, 0, 7);
    assert_eq!(fb.buffer[1], 0x112233);
    fb.set_current_color(0x445566);
    fb.point(1, 0, 9);
    assert_eq!(fb.buffer[1], 0x112233);
    fb.point(1, 0, 7);
    assert_eq!(fb.buffer[1], 0x112233);
    fb.point(1, 0, 3);
    assert_eq!(fb.buffer[1], 0x445566);
    assert_eq!(fb.zbuffer[1], 3);
    fb.point(5, 5, 0);
    assert_eq!(fb.buffer.len(), 4);
}

#[test]
fn clear_fills_background() {
    let mut fb = Framebuffer::new(2, 3);
    fb.set_background_color(0x0000ff);
    fb.point(0, 0, 1);
    fb.clear();
    assert!(fb.buffer.iter().all(|&p| p == 0x0000ff));
    assert!(fb.zbuffer.iter().all(|&d| d == FAR_DEPTH));
}

#[test]
fn overlay_ignores_depth_and_bounds() {
    let mut fb = Framebuffer::new(2, 2);
    fb.point(0, 1, -100);
    fb.plot_overlay(0, 1, 0xabcdef);
    assert_eq!(fb.buffer[2], 0xabcdef);
    assert_eq!(fb.zbuffer[2], -100);
    fb.plot_overlay(-1, 0, 0x111111);
    fb.plot_overlay(0, 2, 0x111111);
    assert_eq!(fb.buffer, vec![0, 0, 0xabcdef, 0]);
}

#[test]
fn overlay_line_covers_both_ends() {
    let mut fb = Framebuffer::new(5, 3);
    fb.draw_overlay_line(0, 0, 4, 2, 0xff0000);
    let lit: Vec<usize> = (0..15).filter(|&i| fb.buffer[i] == 0xff0000).collect();
    // steps 0..=4 give (0,0) (1,1) (2,1) (3,2) (4,2)
    assert_eq!(lit, vec![0, 6, 7, 13, 14]);
}

#[test]
fn overlay_line_single_point_and_clipping() {
    let mut fb = Framebuffer::new(3, 3);
    fb.draw_overlay_line(1, 1, 1, 1, 7);
    assert_eq!(fb.buffer[4], 7);
    fb.draw_overlay_line(-2, 0, 4, 0, 9);
    assert_eq!(&fb.buffer[0..3], &[9, 9, 9]);
    assert_eq!(fb.buffer.iter().filter(|&&p| p == 9).count(), 3);
}

#[test]
fn color_channels_are_clamped() {
    // 1.4 of full intensity is 357 on the 0..=255 scale
    let c = Color::from_levels(357, 128, -20);
    assert_eq!(c, Color::new(255, 128, 0));
    assert_eq!(Color::from_levels(255, 0, 256), Color::new(255, 0, 255));
}

#[test]
fn color_packs_as_rgb() {
    assert_eq!(Color::new(0x12, 0x34, 0x56).to_hex(), 0x123456);
    assert_eq!(Color::new(100, 100, 100).to_hex(), 0x646464);
    assert_eq!(Color::new(0, 0, 0).to_hex(), 0);
    assert_eq!(Color::new(255, 255, 255).to_hex(), 0xffffff);
}

#[test]
fn skybox_from_rgb8_packs_pixels() {
    let sky = Skybox::from_rgb8(2, 1, &vec![1, 2, 3, 250, 251, 252]).unwrap();
    assert_eq!(sky.pixels, vec![0x010203, 0xfafbfc]);
    assert!(Skybox::from_rgb8(2, 1, &vec![1, 2, 3, 4, 5]).is_none());
    assert!(Skybox::from_rgb8(2, 2, &vec![1, 2, 3, 4, 5, 6]).is_none());
    assert!(Skybox::from_rgb8(usize::MAX, 2, &vec![]).is_none());
}

#[test]
fn skybox_stretches_over_frame() {
    let sky = Skybox::from_rgb8(2, 1, &vec![1, 2, 3, 250, 251, 252]).unwrap();
    let mut fb = Framebuffer::new(4, 2);
    fb.point(3, 1, 42);
    sky.draw(&mut fb);
    let (l, r) = (0x010203, 0xfafbfc);
    assert_eq!(fb.buffer, vec![l, l, r, r, l, l, r, r]);
    assert_eq!(fb.zbuffer[7], 42);
}

#[test]
fn empty_skybox_draws_nothing() {
    let sky = Skybox::from_rgb8(0, 0, &vec![]).unwrap();
    let mut fb = Framebuffer::new(2, 2);
    fb.set_background_color(5);
    fb.clear();
    sky.draw(&mut fb);
    assert_eq!(fb.buffer, vec![5, 5, 5, 5]);
}

fn quad_half(z: i64) -> [ScreenVertex; 3] {
    [ScreenVertex::new(0, 0, z), ScreenVertex::new(1024, 0, z), ScreenVertex::new(0, 1024, z)]
}

#[test]
fn overlapping_triangles_keep_the_nearer_colour() {
    let near = Color::new(0, 200, 0);
    let far = Color::new(200, 0, 0);
    let [a, b, c] = quad_half(5);
    let near_frags = triangle_with_shader(&a, &b, &c, |_s: Sample| near);
    let [a, b, c] = quad_half(10);
    let far_frags = triangle_with_shader(&a, &b, &c, |_s: Sample| far);
    for (first, second) in [(&near_frags, &far_frags), (&far_frags, &near_frags)] {
        let mut fb = Framebuffer::new(4, 4);
        fb.clear();
        fb.draw_fragments(first);
        fb.draw_fragments(second);
        assert_eq!(fb.buffer[0], near.to_hex());
        assert_eq!(fb.zbuffer[0], 5);
        assert_eq!(fb.buffer[1 * 4 + 2], near.to_hex());
        assert_eq!(fb.buffer[3 * 4 + 3], 0);
    }
}
