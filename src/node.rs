//! Sample points and the nearest-point search over them.
use crate::raster::{Color, Image, MAX_EXTENT};
use rand::Rng;
use vstd::prelude::*;

verus! {

/// A point in an image and the color at that point.
#[derive(Clone, Copy, Debug, PartialEq, Eq, Structural)]
pub struct Node {
    /// The x coordinate in the source image
    pub x: u32,
    /// The y coordinate in the source image
    pub y: u32,
    /// The color at this point in the image
    pub color: Color,
}

/// Squared Euclidean distance from `node` to the pixel `(x, y)`.
pub open spec fn dist2(node: Node, x: int, y: int) -> int {
    (node.x - x) * (node.x - x) + (node.y - y) * (node.y - y)
}

/// Every node's coordinates fit `MAX_EXTENT`.
pub open spec fn coords_fit(nodes: Seq<Node>) -> bool {
    forall|i: int| 0 <= i < nodes.len() ==> nodes[i].x <= MAX_EXTENT && nodes[i].y <= MAX_EXTENT
}

/// Index of the first node among `nodes[0..k]` at least as close to `(x, y)`
/// as every other one of them.
pub open spec fn first_nearest_among(nodes: Seq<Node>, x: int, y: int, k: nat) -> int
    decreases k,
{
    if k <= 1 {
        0
    } else {
        let best = first_nearest_among(nodes, x, y, (k - 1) as nat);
        if dist2(nodes[k - 1], x, y) < dist2(nodes[best], x, y) {
            k - 1
        } else {
            best
        }
    }
}

/// Index of the node nearest to `(x, y)`; among equally near nodes, the first.
pub open spec fn first_nearest(nodes: Seq<Node>, x: int, y: int) -> int {
    first_nearest_among(nodes, x, y, nodes.len())
}

/// The nearest node among the first `k` is one of them, no farther than any of
/// them, and strictly nearer than every one before it.
pub proof fn lemma_first_nearest_among(nodes: Seq<Node>, x: int, y: int, k: nat)
    requires
        1 <= k <= nodes.len(),
    ensures
        0 <= first_nearest_among(nodes, x, y, k) < k,
        forall|j: int|
            0 <= j < k ==> dist2(nodes[first_nearest_among(nodes, x, y, k)], x, y) <= dist2(
                #[trigger] nodes[j],
                x,
                y,
            ),
        forall|j: int|
            0 <= j < first_nearest_among(nodes, x, y, k) ==> dist2(#[trigger] nodes[j], x, y) > dist2(
                nodes[first_nearest_among(nodes, x, y, k)],
                x,
                y,
            ),
    decreases k,
{
    if k > 1 {
        lemma_first_nearest_among(nodes, x, y, (k - 1) as nat);
    }
}

/// The node chosen for a pixel is a nearest one, and the first of the nearest.
pub proof fn lemma_first_nearest(nodes: Seq<Node>, x: int, y: int)
    requires
        nodes.len() > 0,
    ensures
        0 <= first_nearest(nodes, x, y) < nodes.len(),
        forall|j: int|
            0 <= j < nodes.len() ==> dist2(nodes[first_nearest(nodes, x, y)], x, y) <= dist2(
                #[trigger] nodes[j],
                x,
                y,
            ),
        forall|j: int|
            0 <= j < first_nearest(nodes, x, y) ==> dist2(#[trigger] nodes[j], x, y) > dist2(
                nodes[first_nearest(nodes, x, y)],
                x,
                y,
            ),
{
    lemma_first_nearest_among(nodes, x, y, nodes.len());
}

/// Relies on rand's `Rng::gen_range` on the thread-local generator: a value in
/// `0..upper`; it panics on an empty range, which `requires` leaves out.
#[verifier::external_body]
fn random_below(upper: u32) -> (r: u32)
    requires
        upper > 0,
    ensures
        r < upper,
{
    rand::thread_rng().gen_range(0..upper)
}

impl Node {
    /// Returns `n` nodes at random pixels of `source_image`, each with the
    /// color of its pixel.
    pub fn random(n: u32, source_image: &Image) -> (nodes: Vec<Node>)
        requires
            n != 0,
            source_image.wf(),
        ensures
            nodes@.len() == n,
            forall|i: int|
                0 <= i < n ==> source_image.in_bounds(nodes@[i].x as int, nodes@[i].y as int)
                    && nodes@[i].color == source_image.pixel(nodes@[i].x as int, nodes@[i].y as int),
    {
        let mut nodes: Vec<Node> = Vec::new();
        let mut k: u32 = 0;
        while k < n
            invariant
                k <= n,
                source_image.wf(),
                nodes@.len() == k,
                forall|i: int|
                    0 <= i < k ==> source_image.in_bounds(nodes@[i].x as int, nodes@[i].y as int)
                        && nodes@[i].color == source_image.pixel(nodes@[i].x as int, nodes@[i].y as int),
            decreases n - k,
        {
            let x = random_below(source_image.width);
            let y = random_below(source_image.height);
            nodes.push(Node { x, y, color: source_image.get_pixel(x, y) });
            k = k + 1;
        }
        nodes
    }

    /// Squared Euclidean distance from this node to the pixel `(x, y)`.
    pub fn distance_squared(&self, x: u32, y: u32) -> (d: i64)
        requires
            self.x <= MAX_EXTENT,
            self.y <= MAX_EXTENT,
            x <= MAX_EXTENT,
            y <= MAX_EXTENT,
        ensures
            d == dist2(*self, x as int, y as int),
    {
        let dx: i64 = self.x as i64 - x as i64;
        let dy: i64 = self.y as i64 - y as i64;
        assert(dx * dx <= 0x7fff_ffff * 0x7fff_ffff) by (nonlinear_arith)
            requires
                -0x7fff_ffff <= dx <= 0x7fff_ffff,
        ;
        assert(dy * dy <= 0x7fff_ffff * 0x7fff_ffff) by (nonlinear_arith)
            requires
                -0x7fff_ffff <= dy <= 0x7fff_ffff,
        ;
        assert(0 <= dx * dx && 0 <= dy * dy) by (nonlinear_arith);
        dx * dx + dy * dy
    }
}

/// Index of the node nearest to `(x, y)`, the first one among equally near
/// nodes.
pub fn nearest_index(nodes: &Vec<Node>, x: u32, y: u32) -> (i: usize)
    requires
        nodes@.len() > 0,
        coords_fit(nodes@),
        x <= MAX_EXTENT,
        y <= MAX_EXTENT,
    ensures
        i == first_nearest(nodes@, x as int, y as int),
        i < nodes@.len(),
        forall|j: int|
            0 <= j < nodes@.len() ==> dist2(nodes@[i as int], x as int, y as int) <= dist2(
                #[trigger] nodes@[j],
                x as int,
                y as int,
            ),
{
    let mut best: usize = 0;
    let mut best_d = nodes[0].distance_squared(x, y);
    let mut k: usize = 1;
    while k < nodes.len()
        invariant
            1 <= k <= nodes@.len(),
            coords_fit(nodes@),
            x <= MAX_EXTENT,
            y <= MAX_EXTENT,
            best == first_nearest_among(nodes@, x as int, y as int, k as nat),
            best < k,
            best_d == dist2(nodes@[best as int], x as int, y as int),
        decreases nodes@.len() - k,
    {
        let d = nodes[k].distance_squared(x, y);
        if d < best_d {
            best = k;
            best_d = d;
        }
        k = k + 1;
    }
    proof {
        lemma_first_nearest(nodes@, x as int, y as int);
    }
    best
}

} // verus!
