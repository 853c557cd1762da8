use mandelbrot::area::calc_area;
use mandelbrot::escape;

type Orbit = (f64, f64, f64, f64, f64);

fn viewport(x_offset: f64, y_offset: f64, scale: f64) -> impl Fn(u32, u32) -> Orbit {
    move |px, py| (px as f64 / scale + x_offset, py as f64 / scale + y_offset, 0.0, 0.0, 0.0)
}

fn in_known_component(o: &Orbit) -> bool {
    let (sx, sy) = (o.0, o.1);
    let qx = sx - 0.25;
    let ysq = sy * sy;
    let q = qx * qx + ysq;
    q * (q + qx) <= ysq / 4.0 || (sx + 1.0) * (sx + 1.0) + ysq <= 1.0 / 16.0
}

fn within_radius(o: &Orbit) -> bool {
    o.2 + o.3 <= 4.0
}

fn step(o: &Orbit) -> Orbit {
    let (sx, sy, rsquare, isquare, zsquare) = *o;
    let x = rsquare - isquare + sx;
    let y = zsquare - rsquare - isquare + sy;
    (sx, sy, x * x, y * y, (x + y) * (x + y))
}

fn grid(width: u32, height: u32, x_offset: f64, y_offset: f64, scale: f64, i_max: u32) -> Vec<u32> {
    let start = viewport(x_offset, y_offset, scale);
    calc_area(width, height, &start, &in_known_component, &within_radius, &step, i_max)
}

#[test]
fn empty_grid_when_width_is_zero() {
    assert!(grid(0, 5, -2.0, -1.0, 2.0, 50).is_empty());
    assert!(grid(5, 0, -2.0, -1.0, 2.0, 50).is_empty());
}

#[test]
fn grid_is_row_major() {
    let (x_offset, y_offset, scale, i_max) = (-2.0, -1.0, 1.0, 60);
    let r = grid(3, 2, x_offset, y_offset, scale, i_max);
    assert_eq!(r.len(), 6);
    let start = viewport(x_offset, y_offset, scale);
    for py in 0..2u32 {
        for px in 0..3u32 {
            let e = escape::calc(px, py, &start, &in_known_component, &within_radius, &step, i_max);
            assert_eq!(r[(py * 3 + px) as usize], e);
        }
    }
}

#[test]
fn grid_layout_of_counter_orbit() {
    let start = |px: u32, py: u32| px + 10 * py;
    let known = |_s: &u32| false;
    let bounded = |s: &u32| *s < 12;
    let step = |s: &u32| s.saturating_add(1);
    let r = calc_area(3, 2, &start, &known, &bounded, &step, 5);
    assert_eq!(r, vec![5, 5, 5, 2, 1, 0]);
}

#[test]
fn grid_evaluated_twice_is_identical() {
    let a = grid(16, 9, -2.2, -1.2, 6.0, 80);
    let b = grid(16, 9, -2.2, -1.2, 6.0, 80);
    assert_eq!(a, b);
}

#[test]
fn zero_cap_grid_is_all_zero() {
    let r = grid(7, 4, -2.0, -1.0, 3.0, 0);
    assert_eq!(r.len(), 28);
    assert!(r.iter().all(|&i| i == 0));
}

#[test]
fn grid_cells_within_cap() {
    let r = grid(20, 12, -2.0, -1.2, 8.0, 33);
    assert_eq!(r.len(), 240);
    assert!(r.iter().all(|&i| i <= 33));
    assert!(r.iter().any(|&i| i == 33));
    assert!(r.iter().any(|&i| i < 33));
}
