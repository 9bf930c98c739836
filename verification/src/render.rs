//! Batching: a figure flattened into draw-ready vertex data, in
//! figure-normalized coordinates.

use vstd::prelude::*;
use crate::numeric::number::{Binary32, Binary64};
use crate::scale::{Linear, Scale, lemma_identity_scale};
use crate::scene::{Axes, Color, Figure, Line, Node};

verus! {

/// What a renderer draws onto.
pub struct RenderTargetDesc {
    pub width: u32,
    pub height: u32,
    pub dpi: Binary32,
}

/// What a rendering engine offers to the code that drives it.
pub trait RenderBackend {
    fn begin_frame(&mut self, clear: Color);

    fn draw_scene(&mut self, fig: &Figure);

    fn end_frame(&mut self);

    fn resize(&mut self, width: u32, height: u32);
}

/// The resolved geometry of one line node.
#[derive(Debug)]
pub struct LineBatch {
    pub vertices: Vec<[Binary32; 2]>,
    pub color: Color,
    pub width: Binary32,
}

/// All batches of a figure, in drawing order.
#[derive(Debug)]
pub struct Batches {
    pub lines: Vec<LineBatch>,
}

/// What a line batch holds: its vertices as pairs, and its style.
pub struct LineGeometry {
    pub vertices: Seq<(Binary32, Binary32)>,
    pub color: Color,
    pub width: Binary32,
}

impl View for LineBatch {
    type V = LineGeometry;

    open spec fn view(&self) -> LineGeometry {
        LineGeometry {
            vertices: Seq::new(
                self.vertices@.len(),
                |i: int| (self.vertices@[i][0], self.vertices@[i][1]),
            ),
            color: self.color,
            width: self.width,
        }
    }
}

impl View for Batches {
    type V = Seq<LineGeometry>;

    open spec fn view(&self) -> Seq<LineGeometry> {
        Seq::new(self.lines@.len(), |i: int| self.lines@[i]@)
    }
}

impl Default for Batches {
    fn default() -> (r: Batches)
        ensures
            r@ == Seq::<LineGeometry>::empty(),
    {
        let r = Batches { lines: Vec::new() };
        assert(r@ =~= Seq::<LineGeometry>::empty());
        r
    }
}

/// Where the axes-local coordinate `t` lies in the figure, along a side of
/// the axes' rectangle that starts at `origin` and is `extent` long.
pub open spec fn placed(origin: Binary32, extent: Binary32, t: Binary32) -> Binary32 {
    origin.sum(extent.product(t))
}

/// The figure-normalized position of the data point `(x, y)` of an axes: each
/// coordinate through its scale, narrowed to single precision, then placed
/// in the axes' rectangle.
pub open spec fn vertex_of(axes: Axes, x: Binary64, y: Binary64) -> (Binary32, Binary32) {
    (
        placed(axes.rect.x, axes.rect.w, axes.x.value_at(x).narrowed()),
        placed(axes.rect.y, axes.rect.h, axes.y.value_at(y).narrowed()),
    )
}

/// How many points a line has: as many as both coordinate sequences hold.
pub open spec fn point_count(line: Line) -> nat {
    if line.xs@.len() <= line.ys@.len() {
        line.xs@.len()
    } else {
        line.ys@.len()
    }
}

/// The batch of one line: its points in index order, its color and width.
pub open spec fn line_geometry(axes: Axes, line: Line) -> LineGeometry {
    LineGeometry {
        vertices: Seq::new(point_count(line), |i: int| vertex_of(axes, line.xs@[i], line.ys@[i])),
        color: line.color,
        width: line.width,
    }
}

/// The batches one node gives: one for a line, none for the other kinds.
pub open spec fn node_geometry(axes: Axes, node: Node) -> Seq<LineGeometry> {
    match node {
        Node::Line(line) => seq![line_geometry(axes, line)],
        Node::Scatter(_) => Seq::empty(),
        Node::Bar(_) => Seq::empty(),
    }
}

/// The batches of a run of nodes of an axes, in node order.
pub open spec fn nodes_geometry(axes: Axes, nodes: Seq<Node>) -> Seq<LineGeometry>
    decreases nodes.len(),
{
    if nodes.len() == 0 {
        Seq::empty()
    } else {
        nodes_geometry(axes, nodes.drop_last()) + node_geometry(axes, nodes.last())
    }
}

/// The batches of a run of axes: axes order first, node order within.
pub open spec fn figure_geometry(all: Seq<Axes>) -> Seq<LineGeometry>
    decreases all.len(),
{
    if all.len() == 0 {
        Seq::empty()
    } else {
        figure_geometry(all.drop_last()) + nodes_geometry(all.last(), all.last().children@)
    }
}

/// The batch of one line node of an axes.
pub fn line_batch(axes: &Axes, line: &Line) -> (batch: LineBatch)
    ensures
        batch@ == line_geometry(*axes, *line),
{
    let n = if line.xs.len() <= line.ys.len() {
        line.xs.len()
    } else {
        line.ys.len()
    };
    let mut vertices: Vec<[Binary32; 2]> = Vec::with_capacity(line.xs.len());
    let mut i: usize = 0;
    while i < n
        invariant
            i <= n,
            n == point_count(*line),
            vertices@.len() == i,
            forall|k: int|
                0 <= k < i ==> (#[trigger] vertices@[k][0], vertices@[k][1]) == vertex_of(
                    *axes,
                    line.xs@[k],
                    line.ys@[k],
                ),
        decreases n - i,
    {
        let x = line.xs[i];
        let y = line.ys[i];
        let x_norm_axes = axes.x.map(x).narrow();
        let y_norm_axes = axes.y.map(y).narrow();
        let x_norm_fig = axes.rect.x.plus(axes.rect.w.times(x_norm_axes));
        let y_norm_fig = axes.rect.y.plus(axes.rect.h.times(y_norm_axes));
        vertices.push([x_norm_fig, y_norm_fig]);
        i = i + 1;
    }
    let batch = LineBatch { vertices, color: line.color, width: line.width };
    assert(batch@.vertices =~= line_geometry(*axes, *line).vertices);
    batch
}

/// Flattens a figure into batches: one per line node, axes in figure order
/// and nodes in their order within each axes; scatter and bar nodes give none.
pub fn build_batches(fig: &Figure) -> (batches: Batches)
    ensures
        batches@ == figure_geometry(fig.axes@),
{
    let mut batches = Batches::default();
    let mut i: usize = 0;
    assert(fig.axes@.take(0) =~= Seq::<Axes>::empty());
    while i < fig.axes.len()
        invariant
            i <= fig.axes.len(),
            batches@ == figure_geometry(fig.axes@.take(i as int)),
        decreases fig.axes.len() - i,
    {
        let axes = &fig.axes[i];
        let ghost done = batches@;
        let mut j: usize = 0;
        assert(axes.children@.take(0) =~= Seq::<Node>::empty());
        assert(done + nodes_geometry(*axes, Seq::<Node>::empty()) =~= done);
        while j < axes.children.len()
            invariant
                j <= axes.children.len(),
                batches@ == done + nodes_geometry(*axes, axes.children@.take(j as int)),
            decreases axes.children.len() - j,
        {
            let ghost before = batches@;
            let ghost nodes = axes.children@.take(j as int + 1);
            assert(nodes.drop_last() =~= axes.children@.take(j as int));
            assert(nodes.last() == axes.children@[j as int]);
            match &axes.children[j] {
                Node::Line(line) => {
                    let batch = line_batch(axes, line);
                    batches.lines.push(batch);
                    assert(batches@ =~= before + seq![line_geometry(*axes, *line)]);
                },
                Node::Scatter(_) => {},
                Node::Bar(_) => {},
            }
            assert(batches@ =~= done + nodes_geometry(*axes, nodes));
            j = j + 1;
        }
        assert(axes.children@.take(j as int) =~= axes.children@);
        let ghost prefix = fig.axes@.take(i as int + 1);
        assert(prefix.drop_last() =~= fig.axes@.take(i as int));
        assert(prefix.last() == *axes);
        i = i + 1;
    }
    assert(fig.axes@.take(i as int) =~= fig.axes@);
    batches
}

/// The batches of two runs of nodes, one after the other, are the batches of
/// the first followed by those of the second.
pub proof fn lemma_nodes_geometry_concat(axes: Axes, first: Seq<Node>, second: Seq<Node>)
    ensures
        nodes_geometry(axes, first + second) == nodes_geometry(axes, first) + nodes_geometry(
            axes,
            second,
        ),
    decreases second.len(),
{
    if second.len() == 0 {
        assert(first + second =~= first);
        assert(nodes_geometry(axes, first) + Seq::<LineGeometry>::empty() =~= nodes_geometry(
            axes,
            first,
        ));
    } else {
        let all = first + second;
        assert(all.drop_last() =~= first + second.drop_last());
        assert(all.last() == second.last());
        lemma_nodes_geometry_concat(axes, first, second.drop_last());
        assert(nodes_geometry(axes, all) =~= nodes_geometry(axes, first) + nodes_geometry(
            axes,
            second,
        ));
    }
}

/// The batches of two runs of axes, one after the other, are the batches of
/// the first followed by those of the second.
pub proof fn lemma_figure_geometry_concat(first: Seq<Axes>, second: Seq<Axes>)
    ensures
        figure_geometry(first + second) == figure_geometry(first) + figure_geometry(second),
    decreases second.len(),
{
    if second.len() == 0 {
        assert(first + second =~= first);
        assert(figure_geometry(first) + Seq::<LineGeometry>::empty() =~= figure_geometry(first));
    } else {
        let all = first + second;
        assert(all.drop_last() =~= first + second.drop_last());
        assert(all.last() == second.last());
        lemma_figure_geometry_concat(first, second.drop_last());
        assert(figure_geometry(all) =~= figure_geometry(first) + figure_geometry(second));
    }
}

/// A run of one node gives that node's batches.
pub proof fn lemma_nodes_geometry_single(axes: Axes, node: Node)
    ensures
        nodes_geometry(axes, seq![node]) == node_geometry(axes, node),
{
    let one = seq![node];
    assert(one.drop_last() =~= Seq::<Node>::empty());
    assert(one.last() == node);
    assert(nodes_geometry(axes, Seq::<Node>::empty()) =~= Seq::<LineGeometry>::empty());
    assert(nodes_geometry(axes, one) =~= node_geometry(axes, node));
}

/// A run of one axes gives that axes' batches.
pub proof fn lemma_figure_geometry_single(axes: Axes)
    ensures
        figure_geometry(seq![axes]) == nodes_geometry(axes, axes.children@),
{
    let one = seq![axes];
    assert(one.drop_last() =~= Seq::<Axes>::empty());
    assert(one.last() == axes);
    assert(figure_geometry(Seq::<Axes>::empty()) =~= Seq::<LineGeometry>::empty());
    assert(figure_geometry(one) =~= nodes_geometry(axes, axes.children@));
}

/// How many line nodes a run of nodes holds.
pub open spec fn line_count(nodes: Seq<Node>) -> nat
    decreases nodes.len(),
{
    if nodes.len() == 0 {
        0
    } else if nodes.last() is Line {
        line_count(nodes.drop_last()) + 1
    } else {
        line_count(nodes.drop_last())
    }
}

/// An axes gives one batch for each of its line nodes, and each batch has a
/// vertex for each point of its line.
pub proof fn lemma_one_batch_per_line(axes: Axes, nodes: Seq<Node>)
    ensures
        nodes_geometry(axes, nodes).len() == line_count(nodes),
        forall|line: Line| #[trigger]
            line_geometry(axes, line).vertices.len() == point_count(line),
    decreases nodes.len(),
{
    if nodes.len() > 0 {
        lemma_one_batch_per_line(axes, nodes.drop_last());
    }
}

/// Batching is a function of the figure: two passes over one figure give
/// batches of the same count, in the same order, with the same vertex values
/// and styles.
pub proof fn lemma_batches_repeat(fig: Figure, first: Batches, second: Batches)
    requires
        first@ == figure_geometry(fig.axes@),
        second@ == figure_geometry(fig.axes@),
    ensures
        first@ == second@,
        first.lines@.len() == second.lines@.len(),
        forall|i: int|
            0 <= i < first.lines@.len() ==> (#[trigger] first.lines@[i])@ == second.lines@[i]@,
{
    assert(first@.len() == second@.len());
    assert forall|i: int| 0 <= i < first.lines@.len() implies (#[trigger] first.lines@[i])@
        == second.lines@[i]@ by {
        assert(first@[i] == second@[i]);
    }
}

/// Two axes with one line each give two batches: the first axes' line, then
/// the second's.
pub proof fn lemma_two_axes_in_order(a: Axes, b: Axes, la: Line, lb: Line)
    requires
        a.children@ == seq![Node::Line(la)],
        b.children@ == seq![Node::Line(lb)],
    ensures
        figure_geometry(seq![a, b]) == seq![line_geometry(a, la), line_geometry(b, lb)],
{
    assert(seq![a, b] =~= seq![a] + seq![b]);
    lemma_figure_geometry_concat(seq![a], seq![b]);
    lemma_figure_geometry_single(a);
    lemma_figure_geometry_single(b);
    lemma_nodes_geometry_single(a, Node::Line(la));
    lemma_nodes_geometry_single(b, Node::Line(lb));
    assert(seq![line_geometry(a, la)] + seq![line_geometry(b, lb)] =~= seq![
        line_geometry(a, la),
        line_geometry(b, lb),
    ]);
}

/// A scatter or bar node adds no batch and moves none: the batches of an
/// axes are those of its nodes with that node taken out.
pub proof fn lemma_unbatched_node_leaves_no_trace(
    axes: Axes,
    before: Seq<Node>,
    node: Node,
    after: Seq<Node>,
)
    requires
        node is Scatter || node is Bar,
    ensures
        nodes_geometry(axes, before + seq![node] + after) == nodes_geometry(axes, before + after),
{
    lemma_nodes_geometry_concat(axes, before + seq![node], after);
    lemma_nodes_geometry_concat(axes, before, seq![node]);
    lemma_nodes_geometry_single(axes, node);
    lemma_nodes_geometry_concat(axes, before, after);
    assert(nodes_geometry(axes, before) + Seq::<LineGeometry>::empty() =~= nodes_geometry(
        axes,
        before,
    ));
}

/// Under identity scales a data point `(x, y)` lands at
/// `(rect.x + rect.w * x, rect.y + rect.h * y)`, with `x` and `y` narrowed to
/// single precision: placement composes with the scales, and the data knows
/// nothing of where its axes lies. The negative zero is left out: the
/// identity scale gives it the positive sign.
pub proof fn lemma_identity_placement(axes: Axes, x: Binary64, y: Binary64)
    requires
        axes.x == Scale::Linear(Linear::identity()),
        axes.y == Scale::Linear(Linear::identity()),
        !x.is_nan() && !x.is_negative_zero(),
        !y.is_nan() && !y.is_negative_zero(),
    ensures
        vertex_of(axes, x, y) == (
            placed(axes.rect.x, axes.rect.w, x.narrowed()),
            placed(axes.rect.y, axes.rect.h, y.narrowed()),
        ),
{
    lemma_identity_scale(x);
    lemma_identity_scale(y);
}

} // verus!
