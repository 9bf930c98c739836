use pltrs_core::{
    build_batches, line_batch, single_axes, Axes, Bar, Batches, Binary32, Binary64, Color, Figure,
    Line, LineBatch, Marker, Node, Rect, RenderBackend, RenderTargetDesc, Scale, Scatter, Size,
};

fn d(x: f64) -> Binary64 {
    Binary64::from_bits(x.to_bits())
}

fn s(x: f32) -> Binary32 {
    Binary32::from_bits(x.to_bits())
}

fn val32(x: Binary32) -> f32 {
    f32::from_bits(x.to_bits())
}

fn vertices(batch: &LineBatch) -> Vec<[f32; 2]> {
    batch.vertices.iter().map(|v| [val32(v[0]), val32(v[1])]).collect()
}

fn bits(batches: &Batches) -> Vec<(Vec<[u32; 2]>, [u32; 4], u32)> {
    batches
        .lines
        .iter()
        .map(|b| {
            (
                b.vertices.iter().map(|v| [v[0].to_bits(), v[1].to_bits()]).collect(),
                [b.color.r.to_bits(), b.color.g.to_bits(), b.color.b.to_bits(), b.color.a.to_bits()],
                b.width.to_bits(),
            )
        })
        .collect()
}

fn size() -> Size {
    Size { width: 800, height: 600, dpi: s(1.0) }
}

fn rect(x: f32, y: f32, w: f32, h: f32) -> Rect {
    Rect { x: s(x), y: s(y), w: s(w), h: s(h) }
}

fn linear(d0: f64, d1: f64) -> Scale {
    Scale::linear((d(d0), d(d1)), (d(0.0), d(1.0)))
}

fn line(xs: &[f64], ys: &[f64], color: Color, width: f32) -> Line {
    Line {
        xs: xs.iter().map(|&x| d(x)).collect(),
        ys: ys.iter().map(|&y| d(y)).collect(),
        color,
        width: s(width),
    }
}

fn scatter() -> Node {
    Node::Scatter(Scatter {
        xs: vec![d(0.5), d(0.25)],
        ys: vec![d(0.5), d(0.75)],
        color: Color::green(),
        size: s(4.0),
        marker: Marker::Circle,
    })
}

fn bar() -> Node {
    Node::Bar(Bar {
        xs: vec![d(0.0), d(1.0)],
        heights: vec![d(3.0), d(4.0)],
        width: s(0.5),
        color: Color::black(),
    })
}

fn color(r: f32, g: f32, b: f32, a: f32) -> Color {
    Color { r: s(r), g: s(g), b: s(b), a: s(a) }
}

#[test]
fn an_empty_figure_gives_no_batches() {
    let fig = Figure::new(size());
    assert!(build_batches(&fig).lines.is_empty());
    assert!(Batches::default().lines.is_empty());
}

#[test]
fn axes_without_nodes_give_no_batches() {
    let mut fig = Figure::new(size());
    fig.add_axes(Axes::new(rect(0.0, 0.0, 1.0, 1.0), linear(0.0, 1.0), linear(0.0, 1.0)));
    fig.add_axes(Axes::new(rect(0.0, 0.0, 1.0, 1.0), linear(0.0, 1.0), linear(0.0, 1.0)));
    assert!(build_batches(&fig).lines.is_empty());
}

#[test]
fn a_line_through_a_halving_scale_in_the_unit_rect() {
    let mut ax = Axes::new(rect(0.0, 0.0, 1.0, 1.0), linear(0.0, 2.0), linear(0.0, 1.0));
    ax.add(Node::Line(line(&[0.0, 1.0, 2.0], &[0.0, 0.0, 0.0], Color::black(), 1.0)));
    let mut fig = Figure::new(size());
    fig.add_axes(ax);
    let batches = build_batches(&fig);
    assert_eq!(batches.lines.len(), 1);
    assert_eq!(vertices(&batches.lines[0]), vec![[0.0, 0.0], [0.5, 0.0], [1.0, 0.0]]);
}

#[test]
fn a_point_is_placed_by_the_rect_of_its_axes() {
    let mut ax = Axes::new(rect(0.1, 0.1, 0.8, 0.8), linear(0.0, 1.0), linear(0.0, 1.0));
    let xs = [0.0, 0.25, 0.5, 1.0, 0.1, 0.3333333333333333, 2.0, -1.0];
    let ys = [1.0, 0.75, 0.5, 0.0, 0.9, 0.6666666666666666, -2.0, 3.0];
    ax.add(Node::Line(line(&xs, &ys, Color::black(), 1.0)));
    let mut fig = Figure::new(size());
    fig.add_axes(ax);
    let batches = build_batches(&fig);
    let got = vertices(&batches.lines[0]);
    assert_eq!(got.len(), xs.len());
    for i in 0..xs.len() {
        let want = [0.1f32 + 0.8f32 * (xs[i] as f32), 0.1f32 + 0.8f32 * (ys[i] as f32)];
        assert_eq!(got[i], want, "point {}", i);
    }
    assert_eq!(got[0], [0.1, 0.1 + 0.8]);
    assert_eq!(got[2], [0.5, 0.5]);
}

#[test]
fn vertices_agree_with_the_pipeline_in_machine_arithmetic() {
    let r = [0.075f32, 0.06666667, 0.9, 0.9];
    let (dx, dy) = ((0.0f64, 10.0f64), (-1.5f64, 2.5f64));
    let mut ax = Axes::new(rect(r[0], r[1], r[2], r[3]), linear(dx.0, dx.1), linear(dy.0, dy.1));
    let xs: Vec<f64> = (0..101).map(|i| i as f64 / 10.0).collect();
    let ys: Vec<f64> = xs.iter().map(|x| (0.5 * x).sin() * 0.5 + 0.5).collect();
    ax.add(Node::Line(line(&xs, &ys, Color::black(), 2.0)));
    let mut fig = Figure::new(size());
    fig.add_axes(ax);
    let batches = build_batches(&fig);
    let got = vertices(&batches.lines[0]);
    assert_eq!(got.len(), 101);
    for i in 0..xs.len() {
        let tx = (0.0 + ((xs[i] - dx.0) / (dx.1 - dx.0)) * (1.0 - 0.0)) as f32;
        let ty = (0.0 + ((ys[i] - dy.0) / (dy.1 - dy.0)) * (1.0 - 0.0)) as f32;
        let want = [r[0] + r[2] * tx, r[1] + r[3] * ty];
        assert_eq!(got[i][0].to_bits(), want[0].to_bits(), "x of point {}", i);
        assert_eq!(got[i][1].to_bits(), want[1].to_bits(), "y of point {}", i);
    }
}

#[test]
fn a_batch_keeps_the_color_and_width_of_its_line() {
    let mut ax = Axes::new(rect(0.0, 0.0, 1.0, 1.0), linear(0.0, 1.0), linear(0.0, 1.0));
    ax.add(Node::Line(line(&[0.0], &[0.0], color(0.1, 0.2, 0.8, 1.0), 2.0)));
    ax.add(Node::Line(line(&[1.0], &[1.0], color(0.9, 0.5, 0.25, 0.5), 7.5)));
    let mut fig = Figure::new(size());
    fig.add_axes(ax);
    let batches = build_batches(&fig);
    assert_eq!(batches.lines.len(), 2);
    let first = &batches.lines[0];
    assert_eq!(
        [val32(first.color.r), val32(first.color.g), val32(first.color.b), val32(first.color.a)],
        [0.1, 0.2, 0.8, 1.0]
    );
    assert_eq!(val32(first.width), 2.0);
    let second = &batches.lines[1];
    assert_eq!(
        [val32(second.color.r), val32(second.color.g), val32(second.color.b), val32(second.color.a)],
        [0.9, 0.5, 0.25, 0.5]
    );
    assert_eq!(val32(second.width), 7.5);
}

#[test]
fn batches_follow_axes_order_then_node_order() {
    let mut a = Axes::new(rect(0.0, 0.0, 0.5, 1.0), linear(0.0, 1.0), linear(0.0, 1.0));
    a.add(Node::Line(line(&[1.0], &[1.0], Color::black(), 1.0)));
    let mut b = Axes::new(rect(0.5, 0.0, 0.5, 1.0), linear(0.0, 1.0), linear(0.0, 1.0));
    b.add(Node::Line(line(&[1.0], &[1.0], Color::black(), 2.0)));
    let mut fig = Figure::new(size());
    fig.add_axes(a);
    fig.add_axes(b);
    let batches = build_batches(&fig);
    assert_eq!(batches.lines.len(), 2);
    assert_eq!(vertices(&batches.lines[0]), vec![[0.5, 1.0]]);
    assert_eq!(val32(batches.lines[0].width), 1.0);
    assert_eq!(vertices(&batches.lines[1]), vec![[1.0, 1.0]]);
    assert_eq!(val32(batches.lines[1].width), 2.0);
    // each batch is the batch of its own line in its own axes
    let first = line_batch(&fig.axes[0], match &fig.axes[0].children[0] {
        Node::Line(l) => l,
        _ => unreachable!(),
    });
    assert_eq!(vertices(&first), vertices(&batches.lines[0]));
}

#[test]
fn several_lines_in_several_axes_keep_their_order() {
    let mut fig = Figure::new(size());
    let mut width = 1.0f32;
    for a in 0..3 {
        let mut ax = Axes::new(rect(0.0, 0.0, 1.0, 1.0), linear(0.0, 1.0), linear(0.0, 1.0));
        for _ in 0..(a + 1) {
            ax.add(Node::Line(line(&[0.0], &[0.0], Color::black(), width)));
            width += 1.0;
        }
        fig.add_axes(ax);
    }
    let batches = build_batches(&fig);
    let widths: Vec<f32> = batches.lines.iter().map(|b| val32(b.width)).collect();
    assert_eq!(widths, vec![1.0, 2.0, 3.0, 4.0, 5.0, 6.0]);
}

#[test]
fn scatter_and_bar_nodes_give_no_batch_and_move_none() {
    let build = |with_others: bool| {
        let mut ax = Axes::new(rect(0.1, 0.1, 0.8, 0.8), linear(0.0, 2.0), linear(0.0, 1.0));
        if with_others {
            ax.add(scatter());
        }
        ax.add(Node::Line(line(&[0.0, 1.0], &[0.0, 1.0], Color::black(), 1.0)));
        if with_others {
            ax.add(bar());
            ax.add(scatter());
        }
        ax.add(Node::Line(line(&[2.0], &[0.5], Color::green(), 3.0)));
        if with_others {
            ax.add(bar());
        }
        let mut fig = Figure::new(size());
        fig.add_axes(ax);
        fig
    };
    let plain = build_batches(&build(false));
    let mixed = build_batches(&build(true));
    assert_eq!(plain.lines.len(), 2);
    assert_eq!(mixed.lines.len(), 2);
    assert_eq!(bits(&plain), bits(&mixed));
    assert_eq!(val32(mixed.lines[0].width), 1.0);
    assert_eq!(val32(mixed.lines[1].width), 3.0);
}

#[test]
fn axes_with_only_scatter_and_bar_nodes_give_no_batches() {
    let mut ax = Axes::new(rect(0.0, 0.0, 1.0, 1.0), linear(0.0, 1.0), linear(0.0, 1.0));
    ax.add(scatter());
    ax.add(bar());
    let mut fig = Figure::new(size());
    fig.add_axes(ax);
    assert!(build_batches(&fig).lines.is_empty());
}

#[test]
fn building_twice_gives_the_same_batches() {
    let (mut fig, idx) = single_axes(size(), (d(0.0), d(10.0)), (d(0.0), d(1.0)));
    let xs: Vec<f64> = (0..50).map(|i| i as f64 / 5.0).collect();
    let ys: Vec<f64> = xs.iter().map(|x| (x * 0.37).cos() * 0.5 + 0.5).collect();
    fig.axes[idx].add(Node::Line(line(&xs, &ys, color(0.1, 0.2, 0.8, 1.0), 2.0)));
    fig.axes[idx].add(scatter());
    fig.axes[idx].add(Node::Line(line(&[1.0, 2.0], &[0.5, 0.25], Color::green(), 1.0)));
    let first = build_batches(&fig);
    let second = build_batches(&fig);
    assert_eq!(first.lines.len(), 2);
    assert_eq!(bits(&first), bits(&second));
}

#[test]
fn a_line_has_as_many_vertices_as_both_sequences_hold() {
    let mut ax = Axes::new(rect(0.0, 0.0, 1.0, 1.0), linear(0.0, 1.0), linear(0.0, 1.0));
    ax.add(Node::Line(line(&[0.0, 0.5, 1.0], &[0.0, 1.0], Color::black(), 1.0)));
    ax.add(Node::Line(line(&[0.25], &[0.0, 0.5, 1.0], Color::black(), 1.0)));
    ax.add(Node::Line(line(&[], &[], Color::black(), 1.0)));
    let mut fig = Figure::new(size());
    fig.add_axes(ax);
    let batches = build_batches(&fig);
    assert_eq!(batches.lines.len(), 3);
    assert_eq!(vertices(&batches.lines[0]), vec![[0.0, 0.0], [0.5, 1.0]]);
    assert_eq!(vertices(&batches.lines[1]), vec![[0.25, 0.0]]);
    assert!(batches.lines[2].vertices.is_empty());
}

#[test]
fn a_rect_beyond_the_figure_gives_geometry_beyond_the_viewport() {
    let mut ax = Axes::new(rect(0.5, 0.5, 1.0, 2.0), linear(0.0, 1.0), linear(0.0, 1.0));
    ax.add(Node::Line(line(&[1.0, -1.0], &[1.0, 0.0], Color::black(), 1.0)));
    let mut fig = Figure::new(size());
    fig.add_axes(ax);
    let batches = build_batches(&fig);
    assert_eq!(vertices(&batches.lines[0]), vec![[1.5, 2.5], [-0.5, 0.5]]);
}

#[test]
fn a_degenerate_scale_collapses_a_line_onto_the_start_of_the_range() {
    let mut ax = Axes::new(rect(0.25, 0.0, 0.5, 1.0), linear(3.0, 3.0), linear(0.0, 1.0));
    ax.add(Node::Line(line(&[1.0, 2.0, 3.0], &[0.0, 0.5, 1.0], Color::black(), 1.0)));
    let mut fig = Figure::new(size());
    fig.add_axes(ax);
    let batches = build_batches(&fig);
    assert_eq!(vertices(&batches.lines[0]), vec![[0.25, 0.0], [0.25, 0.5], [0.25, 1.0]]);
}

#[test]
fn values_that_are_not_numbers_stay_so_in_the_vertices() {
    let mut ax = Axes::new(rect(0.0, 0.0, 1.0, 1.0), linear(0.0, 1.0), linear(0.0, 1.0));
    ax.add(Node::Line(line(&[f64::NAN, f64::INFINITY], &[0.5, 0.5], Color::black(), 1.0)));
    let mut fig = Figure::new(size());
    fig.add_axes(ax);
    let got = vertices(&build_batches(&fig).lines[0]);
    assert!(got[0][0].is_nan());
    assert_eq!(got[0][1], 0.5);
    assert_eq!(got[1][0], f32::INFINITY);
}

struct Recorder {
    frames: u32,
    vertices_drawn: usize,
    size: RenderTargetDesc,
}

impl RenderBackend for Recorder {
    fn begin_frame(&mut self, _clear: Color) {
        self.frames += 1;
    }

    fn draw_scene(&mut self, fig: &Figure) {
        for batch in &build_batches(fig).lines {
            self.vertices_drawn += batch.vertices.len();
        }
    }

    fn end_frame(&mut self) {}

    fn resize(&mut self, width: u32, height: u32) {
        self.size.width = width;
        self.size.height = height;
    }
}

#[test]
fn a_backend_draws_what_the_batches_hold() {
    let (mut fig, idx) = single_axes(size(), (d(0.0), d(10.0)), (d(0.0), d(1.0)));
    fig.axes[idx].add(Node::Line(line(&[0.0, 5.0, 10.0], &[0.0, 1.0, 0.0], Color::black(), 1.0)));
    let mut backend = Recorder {
        frames: 0,
        vertices_drawn: 0,
        size: RenderTargetDesc { width: 800, height: 600, dpi: s(1.0) },
    };
    backend.begin_frame(fig.clear_color);
    backend.draw_scene(&fig);
    backend.end_frame();
    backend.resize(400, 300);
    assert_eq!(backend.frames, 1);
    assert_eq!(backend.vertices_drawn, 3);
    assert_eq!(backend.size.width, 400);
    assert_eq!(backend.size.height, 300);
    assert_eq!(val32(backend.size.dpi), 1.0);
}
