use voronoi::detail::{choose_detail_nodes, collect_edge_nodes, select_nodes};
use voronoi::mosaic::Mosaic;
use voronoi::node::{nearest_index, Node};
use voronoi::outline::{draw_outline, is_border};
use voronoi::raster::{Color, Image, Mask};

fn rgb(r: u8, g: u8, b: u8) -> Color {
    Color::new(r, g, b, 255)
}

fn node(x: u32, y: u32, color: Color) -> Node {
    Node { x, y, color }
}

/// A `width * height` image whose pixel `(x, y)` has red `x` and green `y`.
fn gradient(width: u32, height: u32) -> Image {
    let mut pixels = Vec::new();
    for y in 0..height {
        for x in 0..width {
            pixels.push(rgb(x as u8, y as u8, 7));
        }
    }
    Image::new(width, height, pixels).unwrap()
}

fn pixel_rows(img: &Image) -> Vec<Vec<Color>> {
    (0..img.height)
        .map(|y| (0..img.width).map(|x| img.get_pixel(x, y)).collect())
        .collect()
}

#[test]
fn image_new_checks_extents() {
    assert!(Image::new(0, 1, vec![]).is_none());
    assert!(Image::new(1, 0, vec![]).is_none());
    assert!(Image::new(2, 2, vec![rgb(0, 0, 0); 3]).is_none());
    assert!(Image::new(0x8000_0000, 1, vec![]).is_none());
    let img = Image::new(3, 2, vec![rgb(1, 2, 3); 6]).unwrap();
    assert_eq!((img.width, img.height), (3, 2));
}

#[test]
fn image_pixels_are_row_major() {
    let img = gradient(3, 2);
    assert_eq!(img.get_pixel(2, 1), rgb(2, 1, 7));
    assert_eq!(img.pixels[5], rgb(2, 1, 7));
    assert_eq!(img.pixels[1], rgb(1, 0, 7));
}

#[test]
fn mask_new_checks_extents() {
    assert!(Mask::new(2, 2, vec![true; 3]).is_none());
    let m = Mask::new(2, 1, vec![false, true]).unwrap();
    assert!(!m.get(0, 0));
    assert!(m.get(1, 0));
    assert!(Mask::new(0, 0, vec![]).is_some());
}

#[test]
fn black_is_opaque_black() {
    assert_eq!(Color::black(), Color::new(0, 0, 0, 255));
}

#[test]
fn random_nodes_count_bounds_and_colors() {
    let img = gradient(7, 5);
    for n in [1u32, 2, 10, 100] {
        let nodes = Node::random(n, &img);
        assert_eq!(nodes.len(), n as usize);
        for nd in &nodes {
            assert!(nd.x < 7 && nd.y < 5);
            assert_eq!(nd.color, img.get_pixel(nd.x, nd.y));
        }
    }
}

#[test]
fn distance_squared_values() {
    let n = node(3, 4, rgb(0, 0, 0));
    assert_eq!(n.distance_squared(0, 0), 25);
    assert_eq!(n.distance_squared(3, 4), 0);
    assert_eq!(n.distance_squared(5, 1), 13);
    let far = node(0x7fff_ffff, 0, rgb(0, 0, 0));
    assert_eq!(far.distance_squared(0, 0x7fff_ffff), 2 * 0x7fff_ffffi64 * 0x7fff_ffffi64);
}

#[test]
fn nearest_index_is_nearest_and_first_on_ties() {
    let nodes = vec![node(0, 0, rgb(1, 0, 0)), node(4, 0, rgb(2, 0, 0)), node(2, 2, rgb(3, 0, 0))];
    assert_eq!(nearest_index(&nodes, 0, 1), 0);
    assert_eq!(nearest_index(&nodes, 4, 1), 1);
    assert_eq!(nearest_index(&nodes, 2, 3), 2);
    // (2, 0) is 4 away from the first two nodes and from the third: the first wins.
    assert_eq!(nearest_index(&nodes, 2, 0), 0);
    // (3, 0): 9 from the first, 1 from the second, 5 from the third.
    assert_eq!(nearest_index(&nodes, 3, 0), 1);
}

#[test]
fn render_picks_nearest_node_everywhere() {
    let img = gradient(6, 4);
    let m = Mosaic::new(5, img);
    let out = m.render(false);
    for y in 0..4u32 {
        for x in 0..6u32 {
            let c = out.get_pixel(x, y);
            let best = m
                .nodes()
                .iter()
                .map(|n| n.distance_squared(x, y))
                .min()
                .unwrap();
            assert!(m.nodes().iter().any(|n| n.color == c && n.distance_squared(x, y) == best));
        }
    }
}

#[test]
fn render_is_idempotent() {
    let m = Mosaic::new(6, gradient(8, 6));
    assert_eq!(pixel_rows(&m.render(false)), pixel_rows(&m.render(false)));
    assert_eq!(pixel_rows(&m.render(true)), pixel_rows(&m.render(true)));
}

#[test]
fn two_by_two_nodes_on_every_pixel_reproduce_source() {
    let colors = vec![rgb(255, 0, 0), rgb(0, 255, 0), rgb(0, 0, 255), rgb(255, 255, 0)];
    let src = Image::new(2, 2, colors.clone()).unwrap();
    let nodes = vec![
        node(0, 0, colors[0]),
        node(1, 0, colors[1]),
        node(0, 1, colors[2]),
        node(1, 1, colors[3]),
    ];
    let m = Mosaic::with_nodes(src.clone(), nodes).unwrap();
    let out = m.render(false);
    assert_eq!(out.width, 2);
    assert_eq!(out.height, 2);
    assert_eq!(out.pixels, src.pixels);
}

#[test]
fn single_sample_fills_the_image() {
    let m = Mosaic::new(1, gradient(5, 4));
    let c = m.nodes()[0].color;
    for outline in [false, true] {
        let out = m.render(outline);
        assert!(out.pixels.iter().all(|&p| p == c));
        assert_eq!(out.pixels.len(), 20);
    }
}

#[test]
fn single_node_anywhere_fills_the_image() {
    let src = gradient(3, 3);
    let m = Mosaic::with_nodes(src, vec![node(2, 1, rgb(9, 8, 7))]).unwrap();
    assert!(m.render(true).pixels.iter().all(|&p| p == rgb(9, 8, 7)));
}

#[test]
fn with_nodes_rejects_empty_and_outside_nodes() {
    assert!(Mosaic::with_nodes(gradient(3, 3), vec![]).is_none());
    assert!(Mosaic::with_nodes(gradient(3, 3), vec![node(3, 0, rgb(0, 0, 0))]).is_none());
    assert!(Mosaic::with_nodes(gradient(3, 3), vec![node(0, 0, rgb(0, 0, 0)), node(1, 3, rgb(0, 0, 0))]).is_none());
    assert!(Mosaic::with_nodes(gradient(3, 3), vec![node(2, 2, rgb(0, 0, 0))]).is_some());
}

#[test]
fn outline_only_changes_pixels_next_to_another_cell() {
    let src = gradient(9, 7);
    let nodes = vec![node(1, 1, rgb(10, 0, 0)), node(7, 2, rgb(0, 10, 0)), node(3, 6, rgb(0, 0, 10))];
    let m = Mosaic::with_nodes(src, nodes).unwrap();
    let plain = m.render(false);
    let lined = m.render(true);
    let mut changed = 0;
    for y in 0..7u32 {
        for x in 0..9u32 {
            let border = is_border(&plain, x, y);
            if lined.get_pixel(x, y) != plain.get_pixel(x, y) {
                assert!(border);
                changed += 1;
            }
            if border {
                assert_eq!(lined.get_pixel(x, y), Color::black());
            } else {
                assert_eq!(lined.get_pixel(x, y), plain.get_pixel(x, y));
            }
        }
    }
    assert!(changed > 0);
}

#[test]
fn outline_of_two_regions_marks_both_sides_of_the_line() {
    let red = rgb(200, 0, 0);
    let blue = rgb(0, 0, 200);
    let mut pixels = Vec::new();
    for _y in 0..4 {
        for x in 0..6 {
            pixels.push(if x < 3 { red } else { blue });
        }
    }
    let img = Image::new(6, 4, pixels).unwrap();
    let out = draw_outline(&img);
    for y in 0..4u32 {
        for x in 0..6u32 {
            let expected = match x {
                2 | 3 => Color::black(),
                _ => img.get_pixel(x, y),
            };
            assert_eq!(out.get_pixel(x, y), expected, "pixel ({}, {})", x, y);
        }
    }
}

#[test]
fn outline_corners_and_edges_stay_inside() {
    let one = Image::new(1, 1, vec![rgb(5, 5, 5)]).unwrap();
    assert!(!is_border(&one, 0, 0));
    assert_eq!(draw_outline(&one).pixels, vec![rgb(5, 5, 5)]);

    let a = rgb(1, 1, 1);
    let b = rgb(2, 2, 2);
    let img = Image::new(3, 3, vec![b, a, a, a, a, a, a, a, a]).unwrap();
    assert!(is_border(&img, 0, 0));
    assert!(is_border(&img, 1, 1));
    assert!(!is_border(&img, 2, 2));
    assert!(!is_border(&img, 2, 0));
    assert!(!is_border(&img, 0, 2));
    let out = draw_outline(&img);
    let k = Color::black();
    assert_eq!(out.pixels, vec![k, k, a, k, k, a, a, a, a]);
}

#[test]
fn edge_nodes_follow_the_mask() {
    let img = gradient(3, 2);
    let mask = Mask::new(3, 2, vec![false, true, false, true, false, true]).unwrap();
    let nodes = collect_edge_nodes(&mask, &img);
    let coords: Vec<(u32, u32)> = nodes.iter().map(|n| (n.x, n.y)).collect();
    assert_eq!(coords, vec![(1, 0), (0, 1), (2, 1)]);
    for n in &nodes {
        assert_eq!(n.color, img.get_pixel(n.x, n.y));
    }
}

#[test]
fn select_nodes_follows_picks() {
    let cands = vec![node(0, 0, rgb(1, 0, 0)), node(1, 0, rgb(2, 0, 0)), node(2, 0, rgb(3, 0, 0))];
    let chosen = select_nodes(&cands, &vec![2, 0]);
    assert_eq!(chosen, vec![cands[2], cands[0]]);
}

#[test]
fn choose_detail_nodes_picks_distinct_candidates() {
    let cands: Vec<Node> = (0..20).map(|i| node(i, 0, rgb(i as u8, 0, 0))).collect();
    for n in [0usize, 1, 5, 19] {
        let chosen = choose_detail_nodes(&cands, n);
        assert_eq!(chosen.len(), n);
        for (i, c) in chosen.iter().enumerate() {
            assert!(cands.contains(c));
            assert!(!chosen[i + 1..].contains(c));
        }
    }
}

#[test]
fn detail_nodes_saturate_at_candidate_count() {
    let img = gradient(4, 3);
    let mask = Mask::new(4, 3, vec![
        false, true, false, false, //
        false, false, false, true, //
        true, false, false, false,
    ])
    .unwrap();
    let mut m = Mosaic::new(2, img.clone());
    let before = m.nodes().clone();
    m.add_detail_nodes(10, &mask);
    assert_eq!(m.nodes().len(), 5);
    assert_eq!(&m.nodes()[..2], &before[..]);
    let mut added: Vec<(u32, u32)> = m.nodes()[2..].iter().map(|n| (n.x, n.y)).collect();
    added.sort();
    assert_eq!(added, vec![(0, 2), (1, 0), (3, 1)]);
    for n in &m.nodes()[2..] {
        assert_eq!(n.color, img.get_pixel(n.x, n.y));
    }
}

#[test]
fn detail_nodes_below_candidate_count() {
    let img = gradient(4, 4);
    let mask = Mask::new(4, 4, vec![true; 16]).unwrap();
    let mut m = Mosaic::new(3, img);
    m.add_detail_nodes(5, &mask);
    assert_eq!(m.nodes().len(), 8);
    let mut added: Vec<(u32, u32)> = m.nodes()[3..].iter().map(|n| (n.x, n.y)).collect();
    added.sort();
    added.dedup();
    assert_eq!(added.len(), 5);
}

#[test]
fn detail_nodes_with_empty_mask_or_zero_count() {
    let img = gradient(3, 3);
    let mut m = Mosaic::new(4, img);
    m.add_detail_nodes(7, &Mask::new(3, 3, vec![false; 9]).unwrap());
    assert_eq!(m.nodes().len(), 4);
    m.add_detail_nodes(0, &Mask::new(3, 3, vec![true; 9]).unwrap());
    assert_eq!(m.nodes().len(), 4);
}

#[test]
fn source_image_is_kept() {
    let img = gradient(3, 2);
    let m = Mosaic::new(2, img.clone());
    assert_eq!(m.source_image().pixels, img.pixels);
}

#[test]
fn outline_of_two_regions_split_by_a_row() {
    let top = rgb(0, 90, 0);
    let bottom = rgb(0, 0, 90);
    let mut pixels = Vec::new();
    for y in 0..5 {
        for _x in 0..3 {
            pixels.push(if y < 1 { top } else { bottom });
        }
    }
    let img = Image::new(3, 5, pixels).unwrap();
    let out = draw_outline(&img);
    for y in 0..5u32 {
        for x in 0..3u32 {
            let expected = if y <= 1 { Color::black() } else { bottom };
            assert_eq!(out.get_pixel(x, y), expected);
        }
    }
}
