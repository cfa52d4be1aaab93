use dinotree_alg::bbox::BBox;
use dinotree_alg::colfind::query_seq_mut;
use dinotree_alg::geom::{rect, vec2, Axis};
use dinotree_alg::knearest::{k_nearest, Knearest};
use dinotree_alg::geom::{Rect, Vec2};
use dinotree_alg::multirect::multi_rect_mut;
use dinotree_alg::tree::{DinoTree, DinoTreeBuilder};

#[test]
fn example_find_collisions() {
    let aabbs = vec![
        BBox::new(rect(0, 10, 0, 10), 0usize),
        BBox::new(rect(15, 20, 15, 20), 0),
        BBox::new(rect(5, 15, 5, 15), 0),
    ];
    // remember where each element came from, since the tree reorders them
    let tagged: Vec<BBox<(usize, usize)>> = aabbs.iter().enumerate().map(|(k, b)| BBox::new(b.rect, (k, b.inner))).collect();
    let mut tree = DinoTree::with_axis(Axis::X, tagged);
    for (a, b) in tree.find_intersections_mut() {
        let (ka, va) = tree.get_bots()[a].inner;
        tree.set_inner(a, (ka, va + 1));
        let (kb, vb) = tree.get_bots()[b].inner;
        tree.set_inner(b, (kb, vb + 1));
    }
    let rect_collisions = tree.for_all_intersect_rect(&rect(-5, 1, -5, 1));
    assert_eq!(rect_collisions.len(), 1);
    assert_eq!(tree.get_bots()[rect_collisions[0]].rect, rect(0, 10, 0, 10));

    let mut counts = vec![0usize; 3];
    for b in tree.get_bots() {
        counts[b.inner.0] = b.inner.1;
    }
    // the second and third boxes touch at their corner (15, 15), which counts as colliding
    assert_eq!(counts[0], 1);
    assert_eq!(counts[1], 1);
    assert_eq!(counts[2], 2);
}

/// Squared euclidean distance from a point to a rectangle, 0 inside it.
struct SqDist;

fn sq_dist(r: &Rect, p: Vec2<i64>) -> i64 {
    let cx = if p.x < r.x.start { r.x.start } else if p.x > r.x.end { r.x.end } else { p.x };
    let cy = if p.y < r.y.start { r.y.start } else if p.y > r.y.end { r.y.end } else { p.y };
    (cx - p.x) * (cx - p.x) + (cy - p.y) * (cy - p.y)
}

impl Knearest for SqDist {
    type Inner = usize;
    fn rect_dist(&self, p: Vec2<i64>, r: Rect) -> i64 {
        sq_dist(&r, p)
    }
    fn bot_dist(&self, p: Vec2<i64>, b: &BBox<usize>) -> i64 {
        sq_dist(&b.rect, p)
    }
    fn distance_to_rect(&self, p: Vec2<i64>, r: &Rect) -> i64 {
        sq_dist(r, p)
    }
    fn distance_to_bot(&self, p: Vec2<i64>, b: &BBox<usize>) -> i64 {
        sq_dist(&b.rect, p)
    }
}

#[test]
fn example_k_nearest() {
    let bots = vec![
        BBox::new(rect(10, 40, 0, 0), 0usize),
        BBox::new(rect(30, 30, 0, 0), 1),
        BBox::new(rect(50, 50, 0, 0), 2),
        BBox::new(rect(70, 70, 0, 0), 3),
    ];
    let mut builder = DinoTreeBuilder::with_axis(Axis::X, bots);
    builder.with_height(3);
    let tree = builder.build_seq();

    let v = k_nearest(&tree, vec2(100, 0), 1, &SqDist, rect(0, 200, -10, 10));
    assert_eq!(v[0].bot.inner, 3);
    assert_eq!(v[0].mag, (100 - 70) * (100 - 70));

    let v = k_nearest(&tree, vec2(41, 0), 2, &SqDist, rect(0, 200, -10, 10));
    assert_eq!(v[0].bot.inner, 0);
    assert_eq!(v[1].bot.inner, 2);
    assert_eq!(v[0].mag, 1);
}

fn make_bot(id: usize, x: (i64, i64), y: (i64, i64)) -> BBox<usize> {
    BBox::new(rect(x.0, x.1, y.0, y.1), id)
}

fn six_bots() -> Vec<BBox<usize>> {
    vec![
        make_bot(0, (10, 20), (50, 60)),
        make_bot(1, (15, 25), (50, 60)),
        make_bot(2, (16, 30), (50, 60)),
        make_bot(3, (50, 60), (10, 20)),
        make_bot(4, (50, 60), (15, 25)),
        make_bot(5, (50, 60), (16, 30)),
    ]
}

#[test]
fn example_multi_rect() {
    let tree = DinoTreeBuilder::with_axis(Axis::Y, six_bots()).build_seq();
    let mut rects = multi_rect_mut(&tree);
    let r1 = rect(10, 25, 40, 70);
    let r2 = rect(40, 70, 10, 25);
    let bb1 = rects.for_all_in_rect_mut(r1).unwrap();
    let bb2 = rects.for_all_in_rect_mut(r2).unwrap();
    let mut ids1: Vec<usize> = bb1.iter().map(|&k| tree.get_bots()[k].inner).collect();
    let mut ids2: Vec<usize> = bb2.iter().map(|&k| tree.get_bots()[k].inner).collect();
    ids1.sort();
    ids2.sort();
    assert_eq!(ids1, vec![0, 1]);
    assert_eq!(ids2, vec![3, 4]);
}

#[test]
fn example_sequential() {
    let tree = DinoTree::with_axis(Axis::X, six_bots());
    let b = tree.get_bots();
    let mut pairs: Vec<(usize, usize)> = query_seq_mut(&tree)
        .iter()
        .map(|&(i, j)| {
            let (x, y) = (b[i].inner, b[j].inner);
            if x < y { (x, y) } else { (y, x) }
        })
        .collect();
    pairs.sort();
    assert_eq!(pairs, vec![(0, 1), (0, 2), (1, 2), (3, 4), (3, 5), (4, 5)]);
}
