use pltrs_core::{
    Axes, Bar, Binary32, Binary64, Color, Figure, Line, Marker, Node, Rect, Scale, Scatter, Size,
    Theme,
};

fn d(x: f64) -> Binary64 {
    Binary64::from_bits(x.to_bits())
}

fn s(x: f32) -> Binary32 {
    Binary32::from_bits(x.to_bits())
}

fn val32(x: Binary32) -> f32 {
    f32::from_bits(x.to_bits())
}

fn channels(c: Color) -> [f32; 4] {
    [val32(c.r), val32(c.g), val32(c.b), val32(c.a)]
}

fn size() -> Size {
    Size { width: 800, height: 600, dpi: s(1.0) }
}

fn unit_rect() -> Rect {
    Rect { x: s(0.0), y: s(0.0), w: s(1.0), h: s(1.0) }
}

fn unit_scale() -> Scale {
    Scale::linear((d(0.0), d(1.0)), (d(0.0), d(1.0)))
}

fn line(n: usize) -> Line {
    Line {
        xs: (0..n).map(|i| d(i as f64)).collect(),
        ys: (0..n).map(|i| d(i as f64)).collect(),
        color: Color::black(),
        width: s(1.0),
    }
}

#[test]
fn named_colors_have_their_channels() {
    assert_eq!(channels(Color::white()), [1.0, 1.0, 1.0, 1.0]);
    assert_eq!(channels(Color::black()), [0.0, 0.0, 0.0, 1.0]);
    assert_eq!(channels(Color::green()), [0.0, 1.0, 0.0, 1.0]);
}

#[test]
fn the_default_color_is_white() {
    assert_eq!(channels(Color::default()), [1.0, 1.0, 1.0, 1.0]);
}

#[test]
fn the_default_theme_is_black_on_white() {
    let t = Theme::default();
    assert_eq!(channels(t.bg), [1.0, 1.0, 1.0, 1.0]);
    assert_eq!(channels(t.fg), [0.0, 0.0, 0.0, 1.0]);
}

#[test]
fn a_new_figure_is_empty_and_white() {
    let fig = Figure::new(size());
    assert_eq!(fig.size.width, 800);
    assert_eq!(fig.size.height, 600);
    assert_eq!(val32(fig.size.dpi), 1.0);
    assert!(fig.axes.is_empty());
    assert_eq!(channels(fig.clear_color), [1.0, 1.0, 1.0, 1.0]);
}

#[test]
fn new_axes_are_empty_and_keep_rect_and_scales() {
    let rect = Rect { x: s(0.1), y: s(0.2), w: s(0.3), h: s(0.4) };
    let x = Scale::linear((d(0.0), d(10.0)), (d(0.0), d(1.0)));
    let y = Scale::linear((d(-1.0), d(1.0)), (d(0.0), d(1.0)));
    let ax = Axes::new(rect, x, y);
    assert!(ax.children.is_empty());
    assert_eq!(val32(ax.rect.x), 0.1);
    assert_eq!(val32(ax.rect.y), 0.2);
    assert_eq!(val32(ax.rect.w), 0.3);
    assert_eq!(val32(ax.rect.h), 0.4);
    match ax.x {
        Scale::Linear(l) => assert_eq!(l.domain, (d(0.0), d(10.0))),
    }
    match ax.y {
        Scale::Linear(l) => assert_eq!(l.domain, (d(-1.0), d(1.0))),
    }
}

#[test]
fn add_appends_nodes_in_order() {
    let mut ax = Axes::new(unit_rect(), unit_scale(), unit_scale());
    ax.add(Node::Line(line(2)));
    ax.add(Node::Scatter(Scatter {
        xs: vec![d(1.0)],
        ys: vec![d(2.0)],
        color: Color::green(),
        size: s(3.0),
        marker: Marker::Square,
    }));
    ax.add(Node::Bar(Bar {
        xs: vec![d(1.0)],
        heights: vec![d(2.0)],
        width: s(0.5),
        color: Color::black(),
    }));
    ax.add(Node::Line(line(5)));
    assert_eq!(ax.children.len(), 4);
    assert!(matches!(&ax.children[0], Node::Line(l) if l.xs.len() == 2));
    assert!(matches!(&ax.children[1], Node::Scatter(p) if matches!(p.marker, Marker::Square)));
    assert!(matches!(&ax.children[2], Node::Bar(b) if b.heights.len() == 1));
    assert!(matches!(&ax.children[3], Node::Line(l) if l.xs.len() == 5));
    assert_eq!(val32(ax.rect.w), 1.0);
}

#[test]
fn add_axes_appends_axes_in_order() {
    let mut fig = Figure::new(size());
    let mut first = Axes::new(unit_rect(), unit_scale(), unit_scale());
    first.add(Node::Line(line(1)));
    let second = Axes::new(
        Rect { x: s(0.5), y: s(0.5), w: s(0.5), h: s(0.5) },
        unit_scale(),
        unit_scale(),
    );
    fig.add_axes(first);
    fig.add_axes(second);
    assert_eq!(fig.axes.len(), 2);
    assert_eq!(fig.axes[0].children.len(), 1);
    assert_eq!(fig.axes[1].children.len(), 0);
    assert_eq!(val32(fig.axes[1].rect.x), 0.5);
    assert_eq!(fig.size.width, 800);
    assert_eq!(channels(fig.clear_color), [1.0, 1.0, 1.0, 1.0]);
}

#[test]
fn a_scene_clones_deeply() {
    let mut fig = Figure::new(size());
    let mut ax = Axes::new(unit_rect(), unit_scale(), unit_scale());
    ax.add(Node::Line(line(3)));
    fig.add_axes(ax);
    let copy = fig.clone();
    fig.axes[0].add(Node::Line(line(1)));
    assert_eq!(copy.axes[0].children.len(), 1);
    assert_eq!(fig.axes[0].children.len(), 2);
}
