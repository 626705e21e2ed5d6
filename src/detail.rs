//! Detail nodes: candidates on the set cells of an edge mask, and a random
//! choice among them.
use crate::node::Node;
use crate::raster::{Image, Mask};
use vstd::prelude::*;

verus! {

/// The node that an edge cell `(x, y)` of `img` gives.
pub open spec fn edge_node(img: Image, x: int, y: int) -> Node {
    Node { x: x as u32, y: y as u32, color: img.pixel(x, y) }
}

/// Nodes for the set cells among the first `x` cells of row `y`, left to right.
pub open spec fn row_candidates(edges: Mask, img: Image, y: int, x: nat) -> Seq<Node>
    decreases x,
{
    if x == 0 {
        seq![]
    } else {
        let prev = row_candidates(edges, img, y, (x - 1) as nat);
        if edges.is_set(x - 1, y) {
            prev.push(edge_node(img, x - 1, y))
        } else {
            prev
        }
    }
}

/// Nodes for the set cells of the first `y` rows, row by row.
pub open spec fn candidates_before_row(edges: Mask, img: Image, y: nat) -> Seq<Node>
    decreases y,
{
    if y == 0 {
        seq![]
    } else {
        candidates_before_row(edges, img, (y - 1) as nat) + row_candidates(
            edges,
            img,
            y - 1,
            edges.width as nat,
        )
    }
}

/// One node for each set cell of `edges`, in row-major order, colored from `img`.
pub open spec fn edge_candidates(edges: Mask, img: Image) -> Seq<Node> {
    candidates_before_row(edges, img, edges.height as nat)
}

/// `chosen[i]` is `from[picks[i]]`, and no index is picked twice.
pub open spec fn is_selection(chosen: Seq<Node>, from: Seq<Node>, picks: Seq<usize>) -> bool {
    &&& chosen.len() == picks.len()
    &&& forall|i: int|
        0 <= i < picks.len() ==> #[trigger] picks[i] < from.len() && chosen[i] == from[picks[i] as int]
    &&& forall|i: int, j: int| 0 <= i < j < picks.len() ==> #[trigger] picks[i] != #[trigger] picks[j]
}

/// No node occurs twice.
pub open spec fn no_duplicates(nodes: Seq<Node>) -> bool {
    forall|i: int, j: int| 0 <= i < j < nodes.len() ==> #[trigger] nodes[i] != #[trigger] nodes[j]
}

/// `a` comes before `b` in row-major order.
pub open spec fn row_major_before(a: Node, b: Node) -> bool {
    a.y < b.y || (a.y == b.y && a.x < b.x)
}

/// The candidates of a row prefix lie on set cells of that row, left to right.
pub proof fn lemma_row_candidates(edges: Mask, img: Image, y: int, x: nat)
    requires
        edges.wf(),
        img.wf(),
        edges.width == img.width,
        edges.height == img.height,
        0 <= y < edges.height,
        x <= edges.width,
    ensures
        forall|i: int|
            0 <= i < row_candidates(edges, img, y, x).len() ==> {
                let c = #[trigger] row_candidates(edges, img, y, x)[i];
                &&& c.y == y
                &&& c.x < x
                &&& edges.is_set(c.x as int, c.y as int)
                &&& c == edge_node(img, c.x as int, c.y as int)
            },
        forall|i: int, j: int|
            0 <= i < j < row_candidates(edges, img, y, x).len() ==> row_major_before(
                #[trigger] row_candidates(edges, img, y, x)[i],
                #[trigger] row_candidates(edges, img, y, x)[j],
            ),
    decreases x,
{
    if x > 0 {
        lemma_row_candidates(edges, img, y, (x - 1) as nat);
        let prev = row_candidates(edges, img, y, (x - 1) as nat);
        let all = row_candidates(edges, img, y, x);
        if edges.is_set(x - 1, y) {
            let c = edge_node(img, x - 1, y);
            assert(c.x == x - 1 && c.y == y);
            assert(all == prev.push(c));
            assert forall|i: int| 0 <= i < all.len() implies {
                let d = #[trigger] all[i];
                &&& d.y == y
                &&& d.x < x
                &&& edges.is_set(d.x as int, d.y as int)
                &&& d == edge_node(img, d.x as int, d.y as int)
            } by {
                if i < prev.len() {
                    assert(all[i] == prev[i]);
                }
            }
            assert forall|i: int, j: int| 0 <= i < j < all.len() implies row_major_before(
                #[trigger] all[i],
                #[trigger] all[j],
            ) by {
                assert(all[i] == prev[i]);
                if j < prev.len() {
                    assert(all[j] == prev[j]);
                }
            }
        }
    }
}

/// The candidates of the first `y` rows lie on set cells of those rows, in
/// row-major order.
pub proof fn lemma_candidates_before_row(edges: Mask, img: Image, y: nat)
    requires
        edges.wf(),
        img.wf(),
        edges.width == img.width,
        edges.height == img.height,
        y <= edges.height,
    ensures
        forall|i: int|
            0 <= i < candidates_before_row(edges, img, y).len() ==> {
                let c = #[trigger] candidates_before_row(edges, img, y)[i];
                &&& c.y < y
                &&& img.in_bounds(c.x as int, c.y as int)
                &&& edges.is_set(c.x as int, c.y as int)
                &&& c == edge_node(img, c.x as int, c.y as int)
            },
        forall|i: int, j: int|
            0 <= i < j < candidates_before_row(edges, img, y).len() ==> row_major_before(
                #[trigger] candidates_before_row(edges, img, y)[i],
                #[trigger] candidates_before_row(edges, img, y)[j],
            ),
    decreases y,
{
    if y > 0 {
        let prev = candidates_before_row(edges, img, (y - 1) as nat);
        let row = row_candidates(edges, img, y - 1, edges.width as nat);
        lemma_candidates_before_row(edges, img, (y - 1) as nat);
        lemma_row_candidates(edges, img, y - 1, edges.width as nat);
        let all = candidates_before_row(edges, img, y);
        assert(all == prev + row);
        assert forall|i: int, j: int| 0 <= i < j < all.len() implies row_major_before(
            #[trigger] all[i],
            #[trigger] all[j],
        ) by {
            if j < prev.len() {
                assert(all[i] == prev[i] && all[j] == prev[j]);
            } else if i >= prev.len() {
                assert(all[i] == row[i - prev.len()] && all[j] == row[j - prev.len()]);
            } else {
                assert(all[i] == prev[i] && all[j] == row[j - prev.len()]);
            }
        }
        assert forall|i: int| 0 <= i < all.len() implies {
            let c = #[trigger] all[i];
            &&& c.y < y
            &&& img.in_bounds(c.x as int, c.y as int)
            &&& edges.is_set(c.x as int, c.y as int)
            &&& c == edge_node(img, c.x as int, c.y as int)
        } by {
            if i < prev.len() {
                assert(all[i] == prev[i]);
            } else {
                assert(all[i] == row[i - prev.len()]);
            }
        }
    }
}

/// The edge candidates lie inside the image, on set cells, with the image's
/// colors, and no two of them are equal.
pub proof fn lemma_edge_candidates(edges: Mask, img: Image)
    requires
        edges.wf(),
        img.wf(),
        edges.width == img.width,
        edges.height == img.height,
    ensures
        forall|i: int|
            0 <= i < edge_candidates(edges, img).len() ==> {
                let c = #[trigger] edge_candidates(edges, img)[i];
                &&& img.in_bounds(c.x as int, c.y as int)
                &&& edges.is_set(c.x as int, c.y as int)
                &&& c.color == img.pixel(c.x as int, c.y as int)
            },
        no_duplicates(edge_candidates(edges, img)),
{
    lemma_candidates_before_row(edges, img, edges.height as nat);
    let all = edge_candidates(edges, img);
    assert forall|i: int, j: int| 0 <= i < j < all.len() implies #[trigger] all[i] != #[trigger] all[j] by {
        assert(row_major_before(all[i], all[j]));
    }
}

/// Picks made without repeating an index, from nodes that are pairwise
/// distinct, are pairwise distinct too.
pub proof fn lemma_selection_no_duplicates(chosen: Seq<Node>, from: Seq<Node>, picks: Seq<usize>)
    requires
        is_selection(chosen, from, picks),
        no_duplicates(from),
    ensures
        no_duplicates(chosen),
{
    assert forall|i: int, j: int| 0 <= i < j < chosen.len() implies #[trigger] chosen[i] != #[trigger] chosen[j] by {
        assert(picks[i] != picks[j]);
        assert(chosen[i] == from[picks[i] as int] && chosen[j] == from[picks[j] as int]);
        if picks[i] < picks[j] {
            assert(from[picks[i] as int] != from[picks[j] as int]);
        } else {
            assert(from[picks[j] as int] != from[picks[i] as int]);
        }
    }
}

/// Asking for at least as many detail nodes as there are edge candidates
/// yields every one of them: as many nodes as candidates, no two equal.
pub proof fn lemma_detail_saturates(edges: Mask, img: Image, n: int, chosen: Seq<Node>, picks: Seq<usize>)
    requires
        edges.wf(),
        img.wf(),
        edges.width == img.width,
        edges.height == img.height,
        n >= edge_candidates(edges, img).len(),
        chosen.len() == if n < edge_candidates(edges, img).len() {
            n
        } else {
            edge_candidates(edges, img).len() as int
        },
        is_selection(chosen, edge_candidates(edges, img), picks),
    ensures
        chosen.len() == edge_candidates(edges, img).len(),
        no_duplicates(chosen),
{
    lemma_edge_candidates(edges, img);
    lemma_selection_no_duplicates(chosen, edge_candidates(edges, img), picks);
}

/// Collects a node for each set cell of `edges`, with the color of `img` there.
pub fn collect_edge_nodes(edges: &Mask, img: &Image) -> (r: Vec<Node>)
    requires
        edges.wf(),
        img.wf(),
        edges.width == img.width,
        edges.height == img.height,
    ensures
        r@ == edge_candidates(*edges, *img),
{
    let mut r: Vec<Node> = Vec::new();
    let mut y: u32 = 0;
    while y < edges.height
        invariant
            edges.wf(),
            img.wf(),
            edges.width == img.width,
            edges.height == img.height,
            y <= edges.height,
            r@ == candidates_before_row(*edges, *img, y as nat),
        decreases edges.height - y,
    {
        let ghost start = r@;
        let mut x: u32 = 0;
        while x < edges.width
            invariant
                edges.wf(),
                img.wf(),
                edges.width == img.width,
                edges.height == img.height,
                y < edges.height,
                x <= edges.width,
                start == candidates_before_row(*edges, *img, y as nat),
                r@ == start + row_candidates(*edges, *img, y as int, x as nat),
            decreases edges.width - x,
        {
            if edges.get(x, y) {
                r.push(Node { x, y, color: img.get_pixel(x, y) });
                assert(r@ =~= start + row_candidates(*edges, *img, y as int, (x + 1) as nat));
            }
            x = x + 1;
        }
        y = y + 1;
    }
    r
}

/// Relies on rand's `seq::index::sample` with the thread-local generator:
/// `amount` distinct indices below `length`; it panics when `amount > length`,
/// which `requires` leaves out.
#[verifier::external_body]
fn sample_indices(length: usize, amount: usize) -> (r: Vec<usize>)
    requires
        amount <= length,
    ensures
        r@.len() == amount,
        forall|i: int| 0 <= i < r@.len() ==> #[trigger] r@[i] < length,
        forall|i: int, j: int| 0 <= i < j < r@.len() ==> #[trigger] r@[i] != #[trigger] r@[j],
{
    rand::seq::index::sample(&mut rand::thread_rng(), length, amount).into_vec()
}

/// The candidates at the given indices, in the order of `picks`.
pub fn select_nodes(candidates: &Vec<Node>, picks: &Vec<usize>) -> (r: Vec<Node>)
    requires
        forall|i: int| 0 <= i < picks@.len() ==> #[trigger] picks@[i] < candidates@.len(),
    ensures
        r@.len() == picks@.len(),
        forall|i: int|
            0 <= i < picks@.len() ==> #[trigger] r@[i] == candidates@[picks@[i] as int],
{
    let mut r: Vec<Node> = Vec::new();
    let mut k: usize = 0;
    while k < picks.len()
        invariant
            k <= picks@.len(),
            forall|i: int| 0 <= i < picks@.len() ==> #[trigger] picks@[i] < candidates@.len(),
            r@.len() == k,
            forall|i: int| 0 <= i < k ==> #[trigger] r@[i] == candidates@[picks@[i] as int],
        decreases picks@.len() - k,
    {
        r.push(candidates[picks[k]]);
        k = k + 1;
    }
    r
}

/// Picks `min(n, candidates.len())` of the candidates at random, none twice.
pub fn choose_detail_nodes(candidates: &Vec<Node>, n: usize) -> (r: Vec<Node>)
    ensures
        r@.len() == if n < candidates@.len() { n as int } else { candidates@.len() as int },
        exists|picks: Seq<usize>| is_selection(r@, candidates@, picks),
{
    let amount = if n < candidates.len() { n } else { candidates.len() };
    let picks = sample_indices(candidates.len(), amount);
    let r = select_nodes(candidates, &picks);
    assert(is_selection(r@, candidates@, picks@));
    r
}

} // verus!
