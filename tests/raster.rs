use orbit_raster::color::Color;
use orbit_raster::raster::{rasterize, triangle, triangle_with_shader, Sample, ScreenVertex};

fn px(x: i64, y: i64, z: i64) -> ScreenVertex {
    ScreenVertex::new(x * 256, y * 256, z * 256)
}

#[test]
fn right_triangle_end_to_end() {
    let frags = triangle(&px(0, 0, 0), &px(2, 0, 0), &px(0, 2, 0));
    let pixels: Vec<(i64, i64)> = frags.iter().map(|f| (f.x, f.y)).collect();
    assert_eq!(pixels, vec![(0, 0), (1, 0), (0, 1)]);
    for f in &frags {
        assert_eq!(f.color, Color::new(100, 100, 100));
        assert_eq!(f.depth, 0);
    }
    assert!(!pixels.contains(&(1, 1)));
}

#[test]
fn winding_does_not_matter() {
    let a = triangle(&px(0, 0, 0), &px(2, 0, 0), &px(0, 2, 0));
    let b = triangle(&px(0, 0, 0), &px(0, 2, 0), &px(2, 0, 0));
    let pa: Vec<(i64, i64)> = a.iter().map(|f| (f.x, f.y)).collect();
    let pb: Vec<(i64, i64)> = b.iter().map(|f| (f.x, f.y)).collect();
    assert_eq!(pa, pb);
}

#[test]
fn collinear_triangle_has_no_fragments() {
    assert!(triangle(&px(0, 0, 0), &px(1, 1, 0), &px(2, 2, 0)).is_empty());
    assert!(rasterize(&px(0, 0, 0), &px(1, 1, 0), &px(2, 2, 0)).is_empty());
    assert!(rasterize(&px(3, 3, 0), &px(3, 3, 0), &px(3, 3, 0)).is_empty());
}

#[test]
fn weights_partition_the_area() {
    let (a, b, c) = (px(0, 0, 0), px(7, 1, 0), px(2, 6, 0));
    let samples = rasterize(&a, &b, &c);
    assert!(!samples.is_empty());
    for s in &samples {
        assert_eq!(s.w1 + s.w2 + s.w3, s.area);
        for w in [s.w1, s.w2, s.w3] {
            if s.area > 0 {
                assert!(0 <= w && w <= s.area);
            } else {
                assert!(s.area <= w && w <= 0);
            }
        }
    }
}

#[test]
fn pixels_outside_have_a_weight_out_of_range() {
    let samples = rasterize(&px(0, 0, 0), &px(2, 0, 0), &px(0, 2, 0));
    assert_eq!(samples.len(), 3);
    assert!(samples.iter().all(|s| !(s.x == 1 && s.y == 1)));
    // Centre of pixel (1, 1) is (384, 384) in sub-pixel units; its first
    // weight is edge(b, c, p) / area = 131072 / -262144.
    let area = -262144.0_f64;
    let w1 = ((384 - 512) * 512 - 384 * (0 - 512)) as f64 / area;
    assert_eq!(w1, -0.5);
    assert!(w1 < 0.0);
}

#[test]
fn depth_is_interpolated() {
    let frags = triangle(
        &ScreenVertex::new(0, 0, 0),
        &ScreenVertex::new(1024, 0, 1024),
        &ScreenVertex::new(0, 1024, 0),
    );
    let f = frags.iter().find(|f| f.x == 1 && f.y == 0).unwrap();
    assert_eq!(f.depth, 384);
    let g = frags.iter().find(|f| f.x == 0 && f.y == 0).unwrap();
    assert_eq!(g.depth, 128);
}

#[test]
fn negative_coordinates_are_rasterized() {
    let frags = triangle(&px(-2, -2, 0), &px(0, -2, 0), &px(-2, 0, 0));
    let pixels: Vec<(i64, i64)> = frags.iter().map(|f| (f.x, f.y)).collect();
    assert_eq!(pixels, vec![(-2, -2), (-1, -2), (-2, -1)]);
}

#[test]
fn samples_carry_depth_and_weights() {
    let (a, b, c) = (px(0, 0, 4), px(4, 0, 4), px(0, 4, 4));
    let samples = rasterize(&a, &b, &c);
    assert_eq!(samples.len(), 10);
    for s in &samples {
        assert_eq!(s.depth, 1024);
        assert_eq!(s.area, -(1024 * 1024));
    }
}

#[test]
fn edge_pixels_are_included_closed_rule() {
    // A triangle whose hypotenuse passes exactly through pixel centres.
    let frags = triangle(
        &ScreenVertex::new(128, 128, 0),
        &ScreenVertex::new(640, 128, 0),
        &ScreenVertex::new(128, 640, 0),
    );
    let pixels: Vec<(i64, i64)> = frags.iter().map(|f| (f.x, f.y)).collect();
    assert_eq!(pixels, vec![(0, 0), (1, 0), (2, 0), (0, 1), (1, 1), (0, 2)]);
}

#[test]
fn shader_sees_each_covered_sample() {
    let (a, b, c) = (px(0, 0, 1), px(3, 0, 1), px(0, 3, 1));
    let frags = triangle_with_shader(&a, &b, &c, |s: Sample| {
        Color::new((s.x * 10) as u8, (s.y * 10) as u8, if s.w1 + s.w2 + s.w3 == s.area { 1 } else { 0 })
    });
    let samples = rasterize(&a, &b, &c);
    assert_eq!(frags.len(), samples.len());
    assert_eq!(frags.len(), 6);
    for (f, s) in frags.iter().zip(samples.iter()) {
        assert_eq!((f.x, f.y), (s.x, s.y));
        assert_eq!(f.color, Color::new((s.x * 10) as u8, (s.y * 10) as u8, 1));
        assert_eq!(f.depth, 256);
    }
}

#[test]
fn degenerate_triangle_never_calls_the_shader() {
    let frags = triangle_with_shader(&px(0, 0, 0), &px(1, 1, 0), &px(2, 2, 0), |_s: Sample| -> Color {
        panic!("no pixel is covered")
    });
    assert!(frags.is_empty());
}
