use pltrs_core::{single_axes, Binary32, Binary64, LayoutParams, Scale, Size};

fn d(x: f64) -> Binary64 {
    Binary64::from_bits(x.to_bits())
}

fn s(x: f32) -> Binary32 {
    Binary32::from_bits(x.to_bits())
}

fn val32(x: Binary32) -> f32 {
    f32::from_bits(x.to_bits())
}

fn same(got: Binary32, want: f32) -> bool {
    if want.is_nan() {
        val32(got).is_nan()
    } else {
        got.to_bits() == want.to_bits()
    }
}

fn machine_rect(width: u32, height: u32) -> [f32; 4] {
    let (left, right, top, bottom) = (60.0f32, 20.0f32, 20.0f32, 40.0f32);
    let w = width as f32;
    let h = height as f32;
    [left / w, bottom / h, (w - left - right) / w, (h - top - bottom) / h]
}

#[test]
fn default_margins_are_sixty_twenty_twenty_forty() {
    let lp = LayoutParams::default();
    assert_eq!(val32(lp.left), 60.0);
    assert_eq!(val32(lp.right), 20.0);
    assert_eq!(val32(lp.top), 20.0);
    assert_eq!(val32(lp.bottom), 40.0);
}

#[test]
fn single_axes_on_800_by_600() {
    let size = Size { width: 800, height: 600, dpi: s(1.0) };
    let (fig, idx) = single_axes(size, (d(0.0), d(10.0)), (d(0.0), d(1.0)));
    assert_eq!(idx, 0);
    assert_eq!(fig.axes.len(), 1);
    assert_eq!(fig.size.width, 800);
    assert_eq!(fig.size.height, 600);
    assert_eq!(val32(fig.size.dpi), 1.0);
    let rect = fig.axes[0].rect;
    assert_eq!(val32(rect.x), 60.0f32 / 800.0f32);
    assert_eq!(val32(rect.y), 40.0f32 / 600.0f32);
    assert_eq!(val32(rect.w), (800.0f32 - 60.0 - 20.0) / 800.0);
    assert_eq!(val32(rect.h), (600.0f32 - 20.0 - 40.0) / 600.0);
    assert_eq!(val32(rect.x), 0.075);
    assert!((val32(rect.y) - 0.0667).abs() < 1e-4);
    assert_eq!(val32(rect.w), 0.9);
    assert_eq!(val32(rect.h), 0.9);
    assert!(fig.axes[0].children.is_empty());
}

#[test]
fn single_axes_scales_take_the_limits_onto_the_unit_interval() {
    let size = Size { width: 800, height: 600, dpi: s(1.0) };
    let (fig, idx) = single_axes(size, (d(0.0), d(10.0)), (d(-1.0), d(1.0)));
    let ax = &fig.axes[idx];
    match ax.x {
        Scale::Linear(l) => {
            assert_eq!(l.domain, (d(0.0), d(10.0)));
            assert_eq!(l.range, (d(0.0), d(1.0)));
        }
    }
    match ax.y {
        Scale::Linear(l) => {
            assert_eq!(l.domain, (d(-1.0), d(1.0)));
            assert_eq!(l.range, (d(0.0), d(1.0)));
        }
    }
    assert_eq!(ax.x.map(d(0.0)), d(0.0));
    assert_eq!(ax.x.map(d(10.0)), d(1.0));
    assert_eq!(ax.x.map(d(5.0)), d(0.5));
    assert_eq!(ax.y.map(d(-1.0)), d(0.0));
    assert_eq!(ax.y.map(d(1.0)), d(1.0));
    assert_eq!(ax.y.map(d(0.0)), d(0.5));
}

#[test]
fn single_axes_returns_the_index_of_the_last_axes() {
    let size = Size { width: 1024, height: 768, dpi: s(2.0) };
    let (fig, idx) = single_axes(size, (d(0.0), d(1.0)), (d(0.0), d(1.0)));
    assert_eq!(idx, fig.axes.len() - 1);
    assert_eq!(val32(fig.size.dpi), 2.0);
}

#[test]
fn single_axes_rect_agrees_with_machine_arithmetic() {
    let sizes: [(u32, u32); 12] = [
        (800, 600),
        (1, 1),
        (80, 60),
        (79, 59),
        (81, 61),
        (1920, 1080),
        (3, 7),
        (16777217, 16777219),
        (u32::MAX, u32::MAX),
        (640, 1),
        (12345, 54321),
        (100, 100),
    ];
    for (width, height) in sizes {
        let size = Size { width, height, dpi: s(1.0) };
        let (fig, _) = single_axes(size, (d(0.0), d(1.0)), (d(0.0), d(1.0)));
        let rect = fig.axes[0].rect;
        let want = machine_rect(width, height);
        assert!(same(rect.x, want[0]), "{} {}", width, height);
        assert!(same(rect.y, want[1]), "{} {}", width, height);
        assert!(same(rect.w, want[2]), "{} {}", width, height);
        assert!(same(rect.h, want[3]), "{} {}", width, height);
    }
}

#[test]
fn a_surface_narrower_than_its_margins_gets_a_negative_extent() {
    let size = Size { width: 40, height: 30, dpi: s(1.0) };
    let (fig, _) = single_axes(size, (d(0.0), d(1.0)), (d(0.0), d(1.0)));
    let rect = fig.axes[0].rect;
    assert_eq!(val32(rect.x), 1.5);
    assert_eq!(val32(rect.w), -1.0);
    assert_eq!(val32(rect.h), -1.0);
    assert!(same(rect.y, 40.0f32 / 30.0f32));
}

#[test]
fn a_surface_without_extent_gets_a_rect_that_is_not_finite() {
    let size = Size { width: 0, height: 0, dpi: s(1.0) };
    let (fig, idx) = single_axes(size, (d(0.0), d(1.0)), (d(0.0), d(1.0)));
    assert_eq!(idx, 0);
    let rect = fig.axes[0].rect;
    assert_eq!(val32(rect.x), f32::INFINITY);
    assert_eq!(val32(rect.y), f32::INFINITY);
    assert_eq!(val32(rect.w), f32::NEG_INFINITY);
    assert_eq!(val32(rect.h), f32::NEG_INFINITY);
}
