//! A source image with its sample nodes, rendered as a Voronoi mosaic.
use crate::detail::{choose_detail_nodes, collect_edge_nodes, edge_candidates, is_selection, lemma_edge_candidates};
use crate::node::{dist2, first_nearest, lemma_first_nearest, nearest_index, Node};
use crate::outline::{differs_nearby, draw_outline};
use crate::raster::{
    grid_index, lemma_grid_index, lemma_grid_index_earlier_row, Color, Image, Mask, MAX_EXTENT,
};
use vstd::prelude::*;

verus! {

/// Every node lies inside `img`.
pub open spec fn nodes_inside(img: Image, nodes: Seq<Node>) -> bool {
    forall|i: int| 0 <= i < nodes.len() ==> #[trigger] img.in_bounds(nodes[i].x as int, nodes[i].y as int)
}

/// The color of the node that the pixel `(x, y)` is nearest to.
pub open spec fn nearest_color(nodes: Seq<Node>, x: int, y: int) -> Color {
    nodes[first_nearest(nodes, x, y)].color
}

/// Some pixel of the 3x3 neighbourhood of `(x, y)` inside a `width * height`
/// grid takes its color from a node of another color than `(x, y)` does.
pub open spec fn near_cell_border(nodes: Seq<Node>, width: int, height: int, x: int, y: int) -> bool {
    exists|nx: int, ny: int|
        x - 1 <= nx <= x + 1 && y - 1 <= ny <= y + 1 && 0 <= nx < width && 0 <= ny < height
            && #[trigger] nearest_color(nodes, nx, ny) != nearest_color(nodes, x, y)
}

/// The color that rendering gives the pixel `(x, y)`.
pub open spec fn rendered_pixel(
    nodes: Seq<Node>,
    width: int,
    height: int,
    outline: bool,
    x: int,
    y: int,
) -> Color {
    if outline && near_cell_border(nodes, width, height, x, y) {
        Color::spec_black()
    } else {
        nearest_color(nodes, x, y)
    }
}

/// Rendering is a function of the nodes and the extent: two images that both
/// meet `render`'s contract for the same nodes, extent and outline flag are equal.
pub proof fn lemma_render_deterministic(
    a: Image,
    b: Image,
    nodes: Seq<Node>,
    width: int,
    height: int,
    outline: bool,
)
    requires
        a.wf(),
        b.wf(),
        a.width == width && a.height == height,
        b.width == width && b.height == height,
        forall|x: int, y: int|
            a.in_bounds(x, y) ==> #[trigger] a.pixel(x, y) == rendered_pixel(nodes, width, height, outline, x, y),
        forall|x: int, y: int|
            b.in_bounds(x, y) ==> #[trigger] b.pixel(x, y) == rendered_pixel(nodes, width, height, outline, x, y),
    ensures
        a.pixels@ == b.pixels@,
{
    assert forall|k: int| 0 <= k < a.pixels@.len() implies a.pixels@[k] == b.pixels@[k] by {
        let x = k % width;
        let y = k / width;
        vstd::arithmetic::div_mod::lemma_fundamental_div_mod(k, width);
        assert(0 <= x < width);
        assert(0 <= y < height) by (nonlinear_arith)
            requires
                k == width * y + x,
                0 <= x < width,
                0 <= k < width * height,
        ;
        assert(y * width + x == k) by (nonlinear_arith)
            requires
                k == width * y + x,
        ;
        assert(a.pixel(x, y) == b.pixel(x, y));
    }
    assert(a.pixels@ =~= b.pixels@);
}

/// With a single node, every pixel takes that node's color, outline or not.
pub proof fn lemma_single_node_fills(nodes: Seq<Node>, width: int, height: int, outline: bool, x: int, y: int)
    requires
        nodes.len() == 1,
    ensures
        rendered_pixel(nodes, width, height, outline, x, y) == nodes[0].color,
{
    lemma_first_nearest(nodes, x, y);
    if near_cell_border(nodes, width, height, x, y) {
        let (nx, ny) = choose|nx: int, ny: int|
            x - 1 <= nx <= x + 1 && y - 1 <= ny <= y + 1 && 0 <= nx < width && 0 <= ny < height
                && #[trigger] nearest_color(nodes, nx, ny) != nearest_color(nodes, x, y);
        lemma_first_nearest(nodes, nx, ny);
    }
}

/// Drawing the outline changes only pixels next to another cell: elsewhere the
/// outlined and the plain rendering agree.
pub proof fn lemma_outline_changes_only_borders(nodes: Seq<Node>, width: int, height: int, x: int, y: int)
    ensures
        rendered_pixel(nodes, width, height, true, x, y) != rendered_pixel(nodes, width, height, false, x, y)
            ==> near_cell_border(nodes, width, height, x, y),
        !near_cell_border(nodes, width, height, x, y) ==> rendered_pixel(nodes, width, height, true, x, y)
            == rendered_pixel(nodes, width, height, false, x, y),
{
}

/// When every pixel of `source` holds a node of that pixel's color, rendering
/// without outline reproduces `source`: each pixel is its own nearest node.
pub proof fn lemma_covering_nodes_reproduce_source(source: Image, nodes: Seq<Node>, x: int, y: int)
    requires
        nodes.len() > 0,
        forall|i: int|
            0 <= i < nodes.len() ==> source.in_bounds(nodes[i].x as int, nodes[i].y as int) && #[trigger] nodes[i].color
                == source.pixel(nodes[i].x as int, nodes[i].y as int),
        forall|px: int, py: int|
            #[trigger] source.in_bounds(px, py) ==> exists|i: int|
                0 <= i < nodes.len() && nodes[i].x == px && nodes[i].y == py,
        source.in_bounds(x, y),
    ensures
        rendered_pixel(nodes, source.width as int, source.height as int, false, x, y) == source.pixel(x, y),
{
    lemma_first_nearest(nodes, x, y);
    let i = choose|i: int| 0 <= i < nodes.len() && nodes[i].x == x && nodes[i].y == y;
    let best = nodes[first_nearest(nodes, x, y)];
    assert(dist2(nodes[i], x, y) == 0);
    let dx = best.x - x;
    let dy = best.y - y;
    assert(dx == 0 && dy == 0) by (nonlinear_arith)
        requires
            dx * dx + dy * dy <= 0,
    ;
    assert(best.color == nodes[first_nearest(nodes, x, y)].color);
}

/// A source image and the nodes sampled from it.
pub struct Mosaic {
    source_image: Image,
    nodes: Vec<Node>,
}

impl Mosaic {
    pub closed spec fn source(&self) -> Image {
        self.source_image
    }

    pub closed spec fn node_seq(&self) -> Seq<Node> {
        self.nodes@
    }

    /// A valid source image and at least one node, every node inside it.
    pub open spec fn wf(&self) -> bool {
        &&& self.source().wf()
        &&& self.node_seq().len() > 0
        &&& nodes_inside(self.source(), self.node_seq())
    }

    /// A mosaic of `uniform_samples` nodes at random pixels of `source`, each
    /// with the color of its pixel.
    pub fn new(uniform_samples: u32, source: Image) -> (m: Mosaic)
        requires
            uniform_samples != 0,
            source.wf(),
        ensures
            m.wf(),
            m.source() == source,
            m.node_seq().len() == uniform_samples,
            forall|i: int|
                0 <= i < uniform_samples ==> #[trigger] m.node_seq()[i].color == source.pixel(
                    m.node_seq()[i].x as int,
                    m.node_seq()[i].y as int,
                ),
    {
        let nodes = Node::random(uniform_samples, &source);
        let m = Mosaic { nodes, source_image: source };
        assert(nodes_inside(m.source(), m.node_seq()));
        m
    }

    /// A mosaic of `source` with the given nodes, or `None` when there are no
    /// nodes or one lies outside the image.
    pub fn with_nodes(source: Image, nodes: Vec<Node>) -> (r: Option<Mosaic>)
        requires
            source.wf(),
        ensures
            r is Some <==> nodes@.len() > 0 && nodes_inside(source, nodes@),
            r matches Some(m) ==> m.wf() && m.source() == source && m.node_seq() == nodes@,
    {
        if nodes.len() == 0 {
            return None;
        }
        let mut i: usize = 0;
        while i < nodes.len()
            invariant
                i <= nodes@.len(),
                forall|j: int| 0 <= j < i ==> #[trigger] source.in_bounds(nodes@[j].x as int, nodes@[j].y as int),
            decreases nodes@.len() - i,
        {
            if nodes[i].x >= source.width || nodes[i].y >= source.height {
                assert(!source.in_bounds(nodes@[i as int].x as int, nodes@[i as int].y as int));
                return None;
            }
            i = i + 1;
        }
        Some(Mosaic { source_image: source, nodes })
    }

    /// Appends `min(n, c)` nodes chosen at random, none twice, among the `c`
    /// set cells of `edges`, each with the source's color there. Asking for
    /// more nodes than there are set cells takes them all.
    pub fn add_detail_nodes(&mut self, n: usize, edges: &Mask)
        requires
            old(self).wf(),
            edges.wf(),
            edges.width == old(self).source().width,
            edges.height == old(self).source().height,
        ensures
            final(self).wf(),
            final(self).source() == old(self).source(),
            final(self).node_seq().len() == old(self).node_seq().len() + if n < edge_candidates(
                *edges,
                old(self).source(),
            ).len() {
                n as int
            } else {
                edge_candidates(*edges, old(self).source()).len() as int
            },
            final(self).node_seq().subrange(0, old(self).node_seq().len() as int) == old(
                self,
            ).node_seq(),
            exists|picks: Seq<usize>|
                is_selection(
                    final(self).node_seq().subrange(
                        old(self).node_seq().len() as int,
                        final(self).node_seq().len() as int,
                    ),
                    edge_candidates(*edges, old(self).source()),
                    picks,
                ),
    {
        let candidates = collect_edge_nodes(edges, &self.source_image);
        let chosen = choose_detail_nodes(&candidates, n);
        let ghost old_nodes = self.nodes@;
        let ghost picks = choose|picks: Seq<usize>| is_selection(chosen@, candidates@, picks);
        proof {
            lemma_edge_candidates(*edges, self.source_image);
        }
        let mut k: usize = 0;
        while k < chosen.len()
            invariant
                k <= chosen@.len(),
                self.source_image == old(self).source_image,
                self.source_image.wf(),
                old_nodes == old(self).nodes@,
                old_nodes.len() > 0,
                nodes_inside(self.source_image, old_nodes),
                is_selection(chosen@, candidates@, picks),
                forall|i: int|
                    0 <= i < candidates@.len() ==> #[trigger] self.source_image.in_bounds(
                        candidates@[i].x as int,
                        candidates@[i].y as int,
                    ),
                self.nodes@ == old_nodes + chosen@.subrange(0, k as int),
            decreases chosen@.len() - k,
        {
            self.nodes.push(chosen[k]);
            assert(self.nodes@ =~= old_nodes + chosen@.subrange(0, k + 1));
            k = k + 1;
        }
        proof {
            assert(chosen@.subrange(0, chosen@.len() as int) =~= chosen@);
            assert(self.nodes@.subrange(0, old_nodes.len() as int) =~= old_nodes);
            assert(self.nodes@.subrange(old_nodes.len() as int, self.nodes@.len() as int) =~= chosen@);
            assert forall|i: int| 0 <= i < self.nodes@.len() implies #[trigger] self.source_image.in_bounds(
                self.nodes@[i].x as int,
                self.nodes@[i].y as int,
            ) by {
                if i >= old_nodes.len() {
                    let p = picks[i - old_nodes.len()];
                    assert(self.nodes@[i] == candidates@[p as int]);
                } else {
                    assert(self.nodes@[i] == old_nodes[i]);
                }
            }
        }
    }

    /// The source image.
    pub fn source_image(&self) -> (r: &Image)
        ensures
            *r == self.source(),
    {
        &self.source_image
    }

    /// The nodes, uniform ones first, then detail ones.
    pub fn nodes(&self) -> (r: &Vec<Node>)
        ensures
            r@ == self.node_seq(),
    {
        &self.nodes
    }

    /// The color of the node nearest to `(x, y)`, the first such node on ties.
    pub fn color_at(&self, x: u32, y: u32) -> (c: Color)
        requires
            self.wf(),
            self.source().in_bounds(x as int, y as int),
        ensures
            c == nearest_color(self.node_seq(), x as int, y as int),
    {
        proof {
            assert forall|i: int| 0 <= i < self.nodes@.len() implies self.nodes@[i].x <= MAX_EXTENT
                && self.nodes@[i].y <= MAX_EXTENT by {
                assert(self.source().in_bounds(self.nodes@[i].x as int, self.nodes@[i].y as int));
            }
        }
        let i = nearest_index(&self.nodes, x, y);
        self.nodes[i].color
    }

    /// Every pixel of the source's extent painted with the color of its nearest node.
    fn render_cells(&self) -> (r: Image)
        requires
            self.wf(),
        ensures
            r.wf(),
            r.width == self.source().width,
            r.height == self.source().height,
            forall|x: int, y: int|
                r.in_bounds(x, y) ==> #[trigger] r.pixel(x, y) == nearest_color(self.node_seq(), x, y),
    {
        let w = self.source_image.width;
        let h = self.source_image.height;
        let ghost nodes = self.node_seq();
        let mut pixels: Vec<Color> = Vec::new();
        let mut y: u32 = 0;
        while y < h
            invariant
                self.wf(),
                nodes == self.node_seq(),
                w == self.source().width,
                h == self.source().height,
                y <= h,
                pixels@.len() == y * w,
                forall|px: int, py: int|
                    0 <= px < w && 0 <= py < y ==> pixels@[grid_index(w as int, px, py)]
                        == #[trigger] nearest_color(nodes, px, py),
            decreases h - y,
        {
            let mut x: u32 = 0;
            while x < w
                invariant
                    self.wf(),
                    nodes == self.node_seq(),
                    w == self.source().width,
                    h == self.source().height,
                    y < h,
                    x <= w,
                    pixels@.len() == y * w + x,
                    forall|px: int, py: int|
                        0 <= px < w && 0 <= py < y ==> pixels@[grid_index(w as int, px, py)]
                            == #[trigger] nearest_color(nodes, px, py),
                    forall|px: int|
                        0 <= px < x ==> pixels@[grid_index(w as int, px, y as int)]
                            == #[trigger] nearest_color(nodes, px, y as int),
                decreases w - x,
            {
                let c = self.color_at(x, y);
                let ghost before = pixels@;
                pixels.push(c);
                proof {
                    lemma_grid_index(w as int, h as int, x as int, y as int);
                    assert forall|px: int, py: int|
                        0 <= px < w && 0 <= py < y implies pixels@[grid_index(w as int, px, py)]
                        == #[trigger] nearest_color(nodes, px, py) by {
                        lemma_grid_index_earlier_row(w as int, px, py, y as int);
                        assert(pixels@[grid_index(w as int, px, py)] == before[grid_index(w as int, px, py)]);
                    }
                    assert forall|px: int|
                        0 <= px < x + 1 implies pixels@[grid_index(w as int, px, y as int)]
                        == #[trigger] nearest_color(nodes, px, y as int) by {
                        if px < x {
                            lemma_grid_index(w as int, h as int, px, y as int);
                            assert(pixels@[grid_index(w as int, px, y as int)] == before[grid_index(w as int, px, y as int)]);
                        }
                    }
                }
                x = x + 1;
            }
            proof {
                assert((y + 1) * w == y * w + w) by (nonlinear_arith);
            }
            y = y + 1;
        }
        proof {
            assert(h * w == w * h) by (nonlinear_arith);
        }
        Image { width: w, height: h, pixels }
    }

    /// Renders the mosaic at the source's extent: each pixel takes the color
    /// of its nearest node (the first one on ties), and with
    /// `should_draw_outline` the pixels next to another cell turn opaque black.
    pub fn render(&self, should_draw_outline: bool) -> (r: Image)
        requires
            self.wf(),
        ensures
            r.wf(),
            r.width == self.source().width,
            r.height == self.source().height,
            forall|x: int, y: int|
                r.in_bounds(x, y) ==> #[trigger] r.pixel(x, y) == rendered_pixel(
                    self.node_seq(),
                    r.width as int,
                    r.height as int,
                    should_draw_outline,
                    x,
                    y,
                ),
    {
        let cells = self.render_cells();
        if should_draw_outline {
            let r = draw_outline(&cells);
            proof {
                let nodes = self.node_seq();
                assert forall|x: int, y: int| r.in_bounds(x, y) implies differs_nearby(cells, x, y)
                    == near_cell_border(nodes, r.width as int, r.height as int, x, y) by {
                    if differs_nearby(cells, x, y) {
                        let (nx, ny) = choose|nx: int, ny: int|
                            x - 1 <= nx <= x + 1 && y - 1 <= ny <= y + 1 && cells.in_bounds(nx, ny)
                                && #[trigger] cells.pixel(nx, ny) != cells.pixel(x, y);
                        assert(nearest_color(nodes, nx, ny) != nearest_color(nodes, x, y));
                    }
                    if near_cell_border(nodes, r.width as int, r.height as int, x, y) {
                        let (nx, ny) = choose|nx: int, ny: int|
                            x - 1 <= nx <= x + 1 && y - 1 <= ny <= y + 1 && 0 <= nx < r.width
                                && 0 <= ny < r.height && #[trigger] nearest_color(nodes, nx, ny)
                                != nearest_color(nodes, x, y);
                        assert(cells.pixel(nx, ny) != cells.pixel(x, y));
                    }
                }
            }
            r
        } else {
            cells
        }
    }
}

} // verus!
