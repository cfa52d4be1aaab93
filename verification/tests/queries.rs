use dinotree_alg::bbox::BBox;
use dinotree_alg::colfind::{find_collisions_sweep_mut, query_naive_mut, query_nosort_seq_adv_mut, query_nosort_seq_mut, query_seq_adv_mut, query_seq_mut, query_sweep_mut};
use dinotree_alg::geom::{rect, vec2, Axis, Range, Rect};
use dinotree_alg::knearest::{k_nearest, k_nearest_mut, naive, naive_mut, Knearest};
use std::cell::Cell;
use std::marker::PhantomData;
use dinotree_alg::raycast::{raycast_mut, raycast_naive_mut, Ray, RayCastResult, RayIntersectResult, RayTrait};
use dinotree_alg::rect::{
    for_all_in_rect, for_all_intersect_rect, for_all_not_in_rect_mut, naive_for_all_in_rect_mut,
    naive_for_all_intersect_rect_mut, naive_for_all_not_in_rect_mut, RectIntersectErr,
};
use dinotree_alg::analyze::Splitter;
use dinotree_alg::tree::{DinoTree, DinoTreeBuilder, NotSorted};
use dinotree_alg::intersect_with::intersect_with_mut;
use dinotree_alg::multirect::{collide_two_rect_parallel, multi_rect_mut};

struct Lcg(u64);

impl Lcg {
    fn next(&mut self, m: i64) -> i64 {
        self.0 = self.0.wrapping_mul(6364136223846793005).wrapping_add(1442695040888963407);
        ((self.0 >> 33) % (m as u64)) as i64
    }
}

/// Boxes of positive area scattered over [0, 1000) x [0, 1000), each carrying its id.
fn make_bots(n: usize, seed: u64) -> Vec<BBox<usize>> {
    let mut g = Lcg(seed);
    let mut v = Vec::new();
    for id in 0..n {
        let x = g.next(1000);
        let y = g.next(1000);
        let w = 1 + g.next(40);
        let h = 1 + g.next(40);
        v.push(BBox::new(rect(x, x + w, y, y + h), id));
    }
    v
}

fn id_pairs(bots: &[BBox<usize>], pairs: &[(usize, usize)]) -> Vec<(usize, usize)> {
    let mut v: Vec<(usize, usize)> = pairs
        .iter()
        .map(|&(a, b)| {
            let (x, y) = (bots[a].inner, bots[b].inner);
            if x < y { (x, y) } else { (y, x) }
        })
        .collect();
    v.sort();
    v
}

fn ids(bots: &[BBox<usize>], idx: &[usize]) -> Vec<usize> {
    let mut v: Vec<usize> = idx.iter().map(|&k| bots[k].inner).collect();
    v.sort();
    v
}

#[test]
fn tree_keeps_every_element() {
    let bots = make_bots(500, 7);
    let tree = DinoTree::new(bots.clone());
    let mut a: Vec<usize> = tree.get_bots().iter().map(|b| b.inner).collect();
    a.sort();
    assert_eq!(a, (0..500).collect::<Vec<_>>());
    assert_eq!(tree.axis(), Axis::Y);
    assert_eq!(tree.get_height(), 3);
    assert_eq!(tree.num_nodes(), 7);
    assert_eq!(tree.num_nodes(), dinotree_alg::analyze::nodes_left(0, tree.get_height()));
}

#[test]
fn tree_colfind_matches_naive() {
    for seed in 1..4 {
        let bots = make_bots(700, seed);
        let tree = DinoTree::new(bots.clone());
        let tree_pairs = tree.find_intersections_mut();
        let naive_pairs = query_naive_mut(tree.get_bots());
        let a = id_pairs(tree.get_bots(), &tree_pairs);
        let b = id_pairs(tree.get_bots(), &naive_pairs);
        assert_eq!(a, b);
        assert!(!a.is_empty());

        assert!(tree.tree_invariants());
        let seq = query_seq_mut(&tree);
        assert_eq!(id_pairs(tree.get_bots(), &seq), b);

        let nosort = NotSorted::new(bots.clone());
        assert!(nosort.tree_invariants());
        let c = id_pairs(nosort.get_bots(), &nosort.find_intersections_mut());
        assert_eq!(c, b);
        assert_eq!(id_pairs(nosort.get_bots(), &query_nosort_seq_mut(&nosort)), b);
        let mut cnt = Counting { starts: 0, ends: 0 };
        assert_eq!(id_pairs(nosort.get_bots(), &query_nosort_seq_adv_mut(&nosort, &mut cnt)), b);
        assert_eq!(cnt.starts, nosort.get_nodes().len());

        let mut sweep = bots.clone();
        let sp = query_sweep_mut(Axis::X, &mut sweep);
        assert_eq!(id_pairs(&sweep, &sp), b);
    }
}

struct Counting {
    starts: usize,
    ends: usize,
}

impl Splitter for Counting {
    fn divided(&self) -> (Self, Self) {
        (Counting { starts: self.starts, ends: self.ends }, Counting { starts: 0, ends: 0 })
    }
    fn added(&self, b: Self) -> Self {
        Counting { starts: self.starts + b.starts, ends: self.ends + b.ends }
    }
    fn started(&self) -> Self {
        Counting { starts: self.starts + 1, ends: self.ends }
    }
    fn ended(&self) -> Self {
        Counting { starts: self.starts, ends: self.ends + 1 }
    }
    fn div(&mut self) -> Self {
        Counting { starts: 0, ends: 0 }
    }
    fn add(&mut self, b: Self) {
        self.starts += b.starts;
        self.ends += b.ends;
    }
    fn node_start(&mut self) {
        self.starts += 1;
    }
    fn node_end(&mut self) {
        self.ends += 1;
    }
}

#[test]
fn splitter_sees_every_node() {
    let bots = make_bots(600, 11);
    let tree = DinoTree::new(bots);
    let mut c = Counting { starts: 0, ends: 0 };
    let pairs = query_seq_adv_mut(&tree, &mut c);
    assert_eq!(c.starts, tree.num_nodes());
    assert_eq!(c.ends, (tree.num_nodes() + 1) / 2);
    assert_eq!(id_pairs(tree.get_bots(), &pairs), id_pairs(tree.get_bots(), &query_naive_mut(tree.get_bots())));
}

#[test]
fn builder_height_is_used() {
    let bots = make_bots(300, 3);
    let mut b = DinoTreeBuilder::with_axis(Axis::X, bots);
    b.with_height(5);
    let tree = b.build_seq();
    assert_eq!(tree.get_height(), 5);
    assert_eq!(tree.num_nodes(), 31);
    assert_eq!(tree.axis(), Axis::X);
    let a = id_pairs(tree.get_bots(), &tree.find_intersections_mut());
    let n = id_pairs(tree.get_bots(), &query_naive_mut(tree.get_bots()));
    assert_eq!(a, n);
}

#[test]
fn corners_touch() {
    // boxes that share a corner or an edge collide, as boxes that overlap do
    let bots = vec![
        BBox::new(rect(0, 10, 0, 10), 0usize),
        BBox::new(rect(10, 20, 10, 20), 1),
        BBox::new(rect(20, 30, 0, 10), 2),
        BBox::new(rect(29, 40, 9, 12), 3),
    ];
    let tree = DinoTree::new(bots);
    let p = id_pairs(tree.get_bots(), &tree.find_intersections_mut());
    assert_eq!(p, vec![(0, 1), (1, 2), (2, 3)]);
}

#[test]
fn empty_and_single() {
    let tree: DinoTree<usize> = DinoTree::new(Vec::new());
    assert!(tree.find_intersections_mut().is_empty());
    assert!(for_all_in_rect(&tree, &rect(0, 10, 0, 10)).is_empty());
    let one = DinoTree::new(vec![BBox::new(rect(0, 1, 0, 1), 9usize)]);
    assert!(one.find_intersections_mut().is_empty());
    assert_eq!(for_all_in_rect(&one, &rect(0, 10, 0, 10)), vec![0]);
}

#[test]
fn rect_queries_match_naive() {
    let bots = make_bots(800, 5);
    let tree = DinoTree::new(bots);
    let b = tree.get_bots().to_vec();
    for r in [rect(100, 400, 200, 600), rect(0, 1000, 0, 1000), rect(500, 520, 500, 530), rect(-50, -10, 0, 5)] {
        let t_in = for_all_in_rect(&tree, &r);
        let n_in = naive_for_all_in_rect_mut(&b, &r);
        assert_eq!(t_in, n_in);
        let t_int = for_all_intersect_rect(&tree, &r);
        assert_eq!(t_int, naive_for_all_intersect_rect_mut(&b, &r));
        let t_out = for_all_not_in_rect_mut(&tree, &r);
        assert_eq!(t_out, naive_for_all_not_in_rect_mut(&b, &r));
        // inside and not inside split the elements
        assert_eq!(t_in.len() + t_out.len(), b.len());
        // an element inside the rectangle also intersects it
        for k in &t_in {
            assert!(t_int.contains(k));
        }
    }
}

#[test]
fn test_rect() {
    let bots = vec![
        BBox::new(from_point(0, 0), 0usize),
        BBox::new(from_point(10, 0), 1),
        BBox::new(from_point(0, 10), 2),
        BBox::new(from_point(10, 10), 3),
    ];
    let tree = DinoTree::new(bots);
    let res = tree.for_all_in_rect(&rect(0, 10, 0, 10));
    assert_eq!(res.len(), 4);
}

#[test]
fn test_intersect_with() {
    let bots = vec![BBox::new(rect(0, 10, 0, 10), 0usize), BBox::new(rect(5, 10, 0, 10), 1)];
    let bots2 = vec![BBox::new(rect(-10, 4, 0, 10), 2usize), BBox::new(rect(-10, 3, 0, 10), 3)];
    let tree = DinoTree::new(bots);
    let b = tree.get_bots();
    let res: Vec<(usize, usize)> =
        tree.intersect_with_mut(&bots2).iter().map(|&(i, j)| (b[i].inner, bots2[j].inner)).collect();
    assert!(res.len() == 2);
    assert!(res.contains(&(0, 2)));
    assert!(res.contains(&(0, 3)));
}

#[test]
fn multi_rect_refuses_overlap() {
    let bots = make_bots(400, 9);
    let tree = DinoTree::new(bots);
    let mut m = tree.multi_rect();
    let a = m.for_all_in_rect_mut(rect(0, 500, 0, 500)).unwrap();
    assert_eq!(a, for_all_in_rect(&tree, &rect(0, 500, 0, 500)));
    // touching along an edge is intersecting
    assert_eq!(m.for_all_in_rect_mut(rect(500, 1000, 0, 500)), Err(RectIntersectErr));
    let b = m.for_all_in_rect_mut(rect(501, 1000, 0, 500)).unwrap();
    for k in &a {
        assert!(!b.contains(k));
    }
    let e = m.for_all_in_rect_mut(rect(400, 600, 400, 600));
    assert_eq!(e, Err(RectIntersectErr));
}

#[test]
fn test_rect_panic() {
    let bots: Vec<BBox<usize>> = Vec::new();
    let tree = DinoTree::new(bots);
    let mut m = tree.multi_rect();
    assert!(m.for_all_in_rect_mut(rect(0, 10, 0, 10)).is_ok());
    assert_eq!(m.for_all_in_rect_mut(rect(10, 20, 0, 10)), Err(RectIntersectErr));
}

#[test]
fn test_rect_intersect() {
    let bots = vec![
        BBox::new(from_point(0, 0), 0usize),
        BBox::new(from_point(10, 0), 1),
        BBox::new(from_point(0, 10), 2),
        BBox::new(from_point(10, 10), 3),
        BBox::new(rect(10, 20, 10, 20), 3),
    ];
    let tree = DinoTree::new(bots);
    let res = tree.for_all_intersect_rect(&rect(0, 10, 0, 10));
    assert_eq!(res.len(), 5);
}

#[test]
fn touching_pairs_are_reported() {
    let mut bots = vec![BBox::new(rect(0, 10, 0, 10), 0usize), BBox::new(rect(10, 20, 0, 10), 1)];
    assert_eq!(query_naive_mut(&bots).len(), 1);
    let tree = DinoTree::new(bots.clone());
    assert_eq!(query_seq_mut(&tree).len(), 1);
    assert_eq!(query_sweep_mut(Axis::X, &mut bots).len(), 1);
}

/// The closed ranges share a point.
fn overlap_1d(a: Range, b: Range) -> bool {
    !(a.end < b.start || b.end < a.start)
}

/// Squared euclidean distance from a point to a rectangle, 0 inside it.
fn sq_to_rect(r: &Rect, p: dinotree_alg::geom::Vec2<i64>) -> i64 {
    let cx = if p.x < r.x.start { r.x.start } else if p.x > r.x.end { r.x.end } else { p.x };
    let cy = if p.y < r.y.start { r.y.start } else if p.y > r.y.end { r.y.end } else { p.y };
    (cx - p.x) * (cx - p.x) + (cy - p.y) * (cy - p.y)
}

/// The squared distance to an element's rectangle, for elements with any data.
struct Sq<T>(PhantomData<T>);

fn sq<T>() -> Sq<T> {
    Sq(PhantomData)
}

impl<T> Knearest for Sq<T> {
    type Inner = T;
    fn rect_dist(&self, p: dinotree_alg::geom::Vec2<i64>, r: Rect) -> i64 {
        sq_to_rect(&r, p)
    }
    fn bot_dist(&self, p: dinotree_alg::geom::Vec2<i64>, b: &BBox<T>) -> i64 {
        sq_to_rect(&b.rect, p)
    }
    fn distance_to_rect(&self, p: dinotree_alg::geom::Vec2<i64>, r: &Rect) -> i64 {
        sq_to_rect(r, p)
    }
    fn distance_to_bot(&self, p: dinotree_alg::geom::Vec2<i64>, b: &BBox<T>) -> i64 {
        sq_to_rect(&b.rect, p)
    }
}

/// A border around every element of the tests.
fn big() -> Rect {
    rect(-100_000, 100_000, -100_000, 100_000)
}

fn from_point(a: i64, b: i64) -> Rect {
    rect(a, a, b, b)
}

#[test]
fn test_k_nearest() {
    let bots = vec![
        BBox::new(from_point(15, 15), 4usize),
        BBox::new(from_point(10, 10), 1),
        BBox::new(from_point(20, 20), 2),
        BBox::new(from_point(30, 30), 3),
        BBox::new(from_point(0, 0), 0),
    ];
    let tree = DinoTree::new(bots);
    let res: Vec<usize> = k_nearest(&tree, vec2(40, 40), 3, &sq(), big()).iter().map(|u| u.bot.inner).collect();
    assert_eq!(res, vec![3, 2, 4]);
    let res: Vec<usize> = k_nearest(&tree, vec2(-40, -40), 3, &sq(), big()).iter().map(|u| u.bot.inner).collect();
    assert_eq!(res, vec![0, 1, 4]);
    let m = k_nearest_mut(&tree, vec2(40, 40), 1, &sq(), big());
    assert_eq!(m.len(), 1);
    assert_eq!(m[0].mag, 200);
}

#[test]
fn k_nearest_keeps_ties() {
    let bots = vec![
        BBox::new(from_point(1, 0), 0usize),
        BBox::new(from_point(-1, 0), 1),
        BBox::new(from_point(0, 1), 2),
        BBox::new(from_point(0, 5), 3),
    ];
    let tree = DinoTree::new(bots.clone());
    // two distances asked for: the three elements at distance 1, and the one at distance 25
    let r = k_nearest_mut(&tree, vec2(0, 0), 2, &sq(), big());
    assert_eq!(r.len(), 4);
    assert!(r[..3].iter().all(|u| u.mag == 1));
    assert_eq!(r[3].mag, 25);
    let n = naive_mut(&bots, vec2(0, 0), 2, &sq());
    assert_eq!(n.len(), 4);
    // one distance asked for: the three ties only
    assert_eq!(k_nearest_mut(&tree, vec2(0, 0), 1, &sq(), big()).len(), 3);
    // distances 1, 1 and 4, two asked for: all three
    let three = vec![
        BBox::new(from_point(1, 0), 0usize),
        BBox::new(from_point(0, -1), 1),
        BBox::new(from_point(2, 0), 2),
    ];
    let t3 = DinoTree::new(three.clone());
    let m: Vec<i64> = k_nearest_mut(&t3, vec2(0, 0), 2, &sq(), big()).iter().map(|u| u.mag).collect();
    assert_eq!(m, vec![1, 1, 4]);
    assert_eq!(naive_mut(&three, vec2(0, 0), 2, &sq()).len(), 3);
    assert!(naive_mut(&bots, vec2(0, 0), 0, &sq()).is_empty());
    let all = naive(&bots, vec2(0, 0), 10, &sq());
    assert_eq!(all.len(), 4);
    assert_eq!(all[3].bot.inner, 3);
    assert_eq!(all[3].mag, 25);
}

#[test]
fn k_nearest_matches_naive() {
    let bots = make_bots(900, 21);
    let tree = DinoTree::new(bots);
    let b = tree.get_bots().to_vec();
    for (px, py, k) in [(500, 500, 5usize), (0, 0, 1), (-300, 1200, 20), (999, 3, 50)] {
        let t = k_nearest_mut(&tree, vec2(px, py), k, &sq(), big());
        let n = naive_mut(&b, vec2(px, py), k, &sq());
        assert_eq!(t.len(), n.len());
        let tm: Vec<i64> = t.iter().map(|u| u.mag).collect();
        let nm: Vec<i64> = n.iter().map(|u| u.mag).collect();
        assert_eq!(tm, nm);
        let ti = ids(&b, &t.iter().map(|u| u.index).collect::<Vec<_>>());
        let ni = ids(&b, &n.iter().map(|u| u.index).collect::<Vec<_>>());
        assert_eq!(ti, ni);
        assert!(t.len() >= k);
    }
}

/// Distance along a ray pointing toward increasing x to a rectangle, or no hit.
fn ray_x(ray: Ray<i64>, r: Rect) -> RayIntersectResult<i64> {
    if r.y.start <= ray.point.y && ray.point.y <= r.y.end && r.x.end >= ray.point.x {
        RayIntersectResult::Hit(if r.x.start > ray.point.x { r.x.start - ray.point.x } else { 0 })
    } else {
        RayIntersectResult::NoHit
    }
}

/// A ray toward increasing x, cast against rectangles and against the rectangles of elements.
struct RayX<T>(PhantomData<T>);

impl<T> RayTrait for RayX<T> {
    type Inner = T;
    fn rect_cast(&self, ray: Ray<i64>, r: Rect) -> RayIntersectResult<i64> {
        ray_x(ray, r)
    }
    fn bot_cast(&self, ray: Ray<i64>, b: &BBox<T>) -> RayIntersectResult<i64> {
        ray_x(ray, b.rect)
    }
    fn compute_distance_to_rect(&self, ray: &Ray<i64>, r: &Rect) -> RayIntersectResult<i64> {
        ray_x(*ray, *r)
    }
    fn compute_distance_to_bot(&self, ray: &Ray<i64>, b: &BBox<T>) -> RayIntersectResult<i64> {
        ray_x(*ray, b.rect)
    }
}

#[test]
fn raycast_matches_naive() {
    let bots = make_bots(600, 33);
    let tree = DinoTree::new(bots);
    let b = tree.get_bots().to_vec();
    let world = rect(-10, 2000, -10, 2000);
    let f = RayX(PhantomData);
    for y in [5, 100, 433, 870, 1500] {
        let ray = Ray { point: vec2(-5, y), dir: vec2(1, 0) };
        let t = raycast_mut(&tree, world, ray, &f);
        let n = raycast_naive_mut(&b, ray, &f);
        match (t, n) {
            (RayCastResult::Hit(a, d1), RayCastResult::Hit(c, d2)) => {
                assert_eq!(d1, d2);
                assert_eq!(ids(&b, &a), ids(&b, &c));
            }
            (RayCastResult::NoHit, RayCastResult::NoHit) => {}
            _ => panic!("tree and naive ray casts disagree"),
        }
    }
}

#[test]
fn raycast_ties_and_miss() {
    let bots = vec![
        BBox::new(rect(10, 12, 0, 10), 0usize),
        BBox::new(rect(10, 20, 5, 6), 1),
        BBox::new(rect(30, 40, 0, 10), 2),
    ];
    let f = RayX(PhantomData);
    let hit = raycast_naive_mut(&bots, Ray { point: vec2(0, 5), dir: vec2(1, 0) }, &f);
    let (list, d) = hit.unwrap();
    assert_eq!(d, 10);
    assert_eq!(list, vec![0, 1]);
    let miss = raycast_naive_mut(&bots, Ray { point: vec2(0, 50), dir: vec2(1, 0) }, &f);
    assert!(matches!(miss, RayCastResult::NoHit));
    let tree = DinoTree::new(bots);
    let t = raycast_mut(&tree, rect(0, 100, 0, 100), Ray { point: vec2(0, 5), dir: vec2(1, 0) }, &f);
    let (list, d) = t.unwrap();
    assert_eq!(d, 10);
    assert_eq!(list.len(), 2);
}

#[test]
fn ray_conversions() {
    let ray = Ray { point: vec2(1i32, -2), dir: vec2(3i32, 4) };
    let r: Ray<i64> = ray.inner_into();
    assert_eq!((r.point.x, r.point.y, r.dir.x, r.dir.y), (1, -2, 3, 4));
    let ok: Result<Ray<u8>, _> = Ray { point: vec2(1i64, 2), dir: vec2(3i64, 4) }.inner_try_into();
    assert!(ok.is_ok());
    let bad: Result<Ray<u8>, _> = Ray { point: vec2(1i64, 300), dir: vec2(3i64, 4) }.inner_try_into();
    assert!(bad.is_err());
    let h: RayIntersectResult<i64> = RayIntersectResult::Hit(7i32).inner_into();
    assert_eq!(h, RayIntersectResult::Hit(7));
    let t: Result<RayIntersectResult<u8>, _> = RayIntersectResult::Hit(300i64).inner_try_into();
    assert!(t.is_err());
    let n: Result<RayIntersectResult<u8>, _> = RayIntersectResult::<i64>::NoHit.inner_try_into();
    assert_eq!(n.unwrap(), RayIntersectResult::NoHit);
}

#[test]
fn range_and_rect_helpers() {
    let r = Range::new(0, 10);
    assert_eq!(r.contains_ext(-1), core::cmp::Ordering::Less);
    assert_eq!(r.contains_ext(11), core::cmp::Ordering::Greater);
    assert_eq!(r.contains_ext(10), core::cmp::Ordering::Equal);
    let a = rect(0, 10, 0, 10);
    assert_eq!(a.get_intersect_rect(&rect(5, 15, 5, 15)), Some(rect(5, 10, 5, 10)));
    assert_eq!(a.get_intersect_rect(&rect(10, 15, 5, 15)), None);
    assert!(a.intersects_rect(&rect(10, 15, 5, 15)));
    let (l, rr) = a.subdivide(Axis::X, 4);
    assert_eq!(l, rect(0, 4, 0, 10));
    assert_eq!(rr, rect(4, 10, 0, 10));
    assert_eq!(dinotree_alg::geom::make_rect_from_range(Axis::Y, &Range::new(2, 3), &a), rect(0, 10, 2, 3));
    assert_eq!(a.distance_squared_to_point(vec2(13, 14)), Some(9 + 16));
    assert_eq!(a.distance_squared_to_point(vec2(5, 5)), None);
}

#[test]
fn set_inner_changes_one_element() {
    let bots = make_bots(300, 21);
    let mut tree = DinoTree::new(bots);
    let before = tree.get_bots().to_vec();
    let hits = for_all_in_rect(&tree, &rect(100, 600, 100, 600));
    assert!(!hits.is_empty());
    let k = hits[0];
    let old = tree.set_inner(k, 99_999);
    assert_eq!(old, before[k].inner);
    let after = tree.get_bots();
    assert_eq!(after.len(), before.len());
    for j in 0..after.len() {
        assert_eq!(after[j].rect, before[j].rect);
        if j == k {
            assert_eq!(after[j].inner, 99_999);
        } else {
            assert_eq!(after[j].inner, before[j].inner);
        }
    }
    // queries still agree with the naive scan after the change
    let r = rect(0, 1000, 0, 1000);
    assert_eq!(for_all_in_rect(&tree, &r), naive_for_all_in_rect_mut(&after.to_vec(), &r));
}

#[test]
fn intersect_with_doc_example() {
    let bots1 = vec![BBox::new(rect(0, 10, 0, 10), 0u8)];
    let mut bots2 = vec![BBox::new(rect(5, 15, 5, 15), 0u8)];
    let mut tree = DinoTree::new(bots1);
    let pairs = tree.intersect_with_mut(&bots2);
    assert_eq!(pairs, vec![(0, 0)]);
    for (i, j) in pairs {
        let v = tree.get_bots()[i].inner + 1;
        tree.set_inner(i, v);
        bots2[j].inner += 2;
    }
    assert_eq!(tree.get_bots()[0].inner, 1);
    assert_eq!(bots2[0].inner, 2);
}

#[test]
fn intersect_with_matches_naive() {
    let tree = DinoTree::new(make_bots(500, 31));
    let others = make_bots(60, 77);
    let got = intersect_with_mut(&tree, &others);
    let b = tree.get_bots();
    let mut want = Vec::new();
    for j in 0..others.len() {
        for i in 0..b.len() {
            if others[j].rect.intersects_rect(&b[i].rect) {
                want.push((i, j));
            }
        }
    }
    assert_eq!(got, want);
    // touching rectangles intersect, as overlapping ones do
    let t2 = DinoTree::new(vec![BBox::new(rect(0, 5, 0, 5), 0u8)]);
    assert_eq!(intersect_with_mut(&t2, &[BBox::new(rect(5, 9, 0, 5), 1u8)]), vec![(0, 0)]);
    assert!(intersect_with_mut(&t2, &[BBox::new(rect(6, 9, 0, 5), 1u8)]).is_empty());
    assert_eq!(intersect_with_mut(&t2, &[BBox::new(rect(4, 9, 0, 5), 1u8)]), vec![(0, 0)]);
}

#[test]
fn collide_two_rect_parallel_wraps() {
    let tree = DinoTree::new(make_bots(600, 41));
    let b = tree.get_bots().to_vec();
    let left = rect(0, 100, 0, 1100);
    let right = rect(900, 1100, 0, 1100);
    let mut multi = multi_rect_mut(&tree);
    let got = collide_two_rect_parallel(&mut multi, Axis::Y, &left, &right).unwrap();
    let mut want = Vec::new();
    for i in 0..b.len() {
        for j in 0..b.len() {
            if left.contains_rect(&b[i].rect)
                && right.contains_rect(&b[j].rect)
                && overlap_1d(b[i].rect.get_range(Axis::Y), b[j].rect.get_range(Axis::Y))
            {
                want.push((i, j));
            }
        }
    }
    assert!(got.iter().all(|&(i, j)| i != j));
    let mut got_sorted = got.clone();
    got_sorted.sort();
    assert_eq!(got_sorted, want);
    assert!(!want.is_empty());
    // both rectangles now belong to the session
    assert!(multi.for_all_in_rect_mut(rect(50, 60, 0, 10)).is_err());
    assert!(multi.for_all_in_rect_mut(rect(400, 500, 0, 10)).is_ok());
}

#[test]
fn collide_two_rect_parallel_refuses_overlap() {
    let tree = DinoTree::new(make_bots(100, 3));
    let mut multi = multi_rect_mut(&tree);
    // the second rectangle overlaps the first
    let r = collide_two_rect_parallel(&mut multi, Axis::X, &rect(0, 100, 0, 100), &rect(50, 150, 0, 100));
    assert_eq!(r, Err(RectIntersectErr));
    // the first rectangle stays in the session, so a query overlapping it fails
    assert!(multi.for_all_in_rect_mut(rect(10, 20, 10, 20)).is_err());
    // a first rectangle that overlaps an earlier one fails before anything is queried
    let r2 = collide_two_rect_parallel(&mut multi, Axis::X, &rect(0, 10, 0, 10), &rect(500, 600, 500, 600));
    assert_eq!(r2, Err(RectIntersectErr));
    assert!(multi.for_all_in_rect_mut(rect(500, 600, 500, 600)).is_ok());
}

#[test]
fn tree_methods_agree_with_functions() {
    let tree = DinoTree::new(make_bots(400, 55));
    let r = rect(200, 700, 100, 650);
    assert_eq!(tree.for_all_in_rect_mut(&r), for_all_in_rect(&tree, &r));
    assert_eq!(tree.for_all_intersect_rect_mut(&r), for_all_intersect_rect(&tree, &r));
    assert_eq!(tree.find_intersections_pmut(), tree.find_intersections_mut());
    let a: Vec<i64> = tree.k_nearest_mut(vec2(300, 300), 4, &sq(), big()).iter().map(|u| u.mag).collect();
    let b: Vec<i64> = k_nearest_mut(&tree, vec2(300, 300), 4, &sq(), big()).iter().map(|u| u.mag).collect();
    assert_eq!(a, b);
    let f = RayX(PhantomData);
    let ray = Ray { point: vec2(-5, 433), dir: vec2(1, 0) };
    let world = rect(-10, 2000, -10, 2000);
    let hit = |r: RayCastResult| match r {
        RayCastResult::Hit(v, d) => Some((v, d)),
        RayCastResult::NoHit => None,
    };
    assert_eq!(hit(tree.raycast_mut(world, ray, &f)), hit(raycast_mut(&tree, world, ray, &f)));
}

#[test]
fn sweep_without_tree() {
    let mut bots = make_bots(300, 61);
    let naive = query_naive_mut(&bots).len();
    let pairs = find_collisions_sweep_mut(&mut bots, Axis::X);
    assert_eq!(pairs.len(), naive);
    for (i, j) in pairs {
        assert_ne!(i, j);
        assert!(bots[i].rect.intersects_rect(&bots[j].rect));
    }
}

#[derive(Clone, Copy, Debug)]
struct Pt(i64, i64);

impl dinotree_alg::for_every_nearest::IsPoint for Pt {
    fn point(&self) -> dinotree_alg::geom::Vec2<i64> {
        vec2(self.0, self.1)
    }

    fn get_center(&self) -> [i64; 2] {
        [self.0, self.1]
    }
}

fn dist2(r: &Rect, p: (i64, i64)) -> i64 {
    let cx = p.0.clamp(r.x.start, r.x.end);
    let cy = p.1.clamp(r.y.start, r.y.end);
    (cx - p.0) * (cx - p.0) + (cy - p.1) * (cy - p.1)
}

#[test]
fn every_nearest_pairs() {
    let mut g = Lcg(91);
    let mut bots = Vec::new();
    for _ in 0..300 {
        let x = g.next(1000);
        let y = g.next(1000);
        bots.push(BBox::new(rect(x, x, y, y), Pt(x, y)));
    }
    let tree = DinoTree::new(bots);
    let b = tree.get_bots().to_vec();
    let out = dinotree_alg::for_every_nearest::for_every_nearest_mut(&tree, &sq(), big());
    let mut named = vec![false; b.len()];
    let mut next = 0;
    for &(i, j, d) in &out {
        // elements skipped in between were named by an earlier query
        for k in next..i {
            assert!(named[k]);
        }
        assert!(!named[i]);
        assert_ne!(i, j);
        let p = (b[i].inner.0, b[i].inner.1);
        assert_eq!(d, dist2(&b[j].rect, p));
        for k in 0..b.len() {
            if k != i {
                assert!(d <= dist2(&b[k].rect, p));
            }
        }
        named[j] = true;
        next = i + 1;
    }
    for k in next..b.len() {
        assert!(named[k]);
    }
    assert!(out.len() < b.len());
    // a lone point has no nearest other point
    let single = DinoTree::new(vec![BBox::new(rect(3, 3, 4, 4), Pt(3, 4))]);
    assert!(dinotree_alg::for_every_nearest::for_every_nearest_mut(&single, &sq(), big()).is_empty());
    // two points name each other, so only the first is queried
    let two = DinoTree::new(vec![BBox::new(rect(0, 0, 0, 0), Pt(0, 0)), BBox::new(rect(3, 3, 4, 4), Pt(3, 4))]);
    let o = dinotree_alg::for_every_nearest::for_every_nearest_mut(&two, &sq(), big());
    assert_eq!(o.len(), 1);
    assert_eq!(o[0].2, 25);
}

#[test]
fn build_with_splitter_sees_every_node() {
    let bots = make_bots(700, 13);
    let mut c = Counting { starts: 0, ends: 0 };
    let mut builder = DinoTreeBuilder::new(bots.clone());
    builder.with_height(5);
    let tree = builder.build_with_splitter_seq(&mut c);
    assert_eq!(c.starts, 31);
    assert_eq!(c.ends, 16);
    assert!(tree.tree_invariants());
    let mut ids: Vec<usize> = tree.get_bots().iter().map(|b| b.inner).collect();
    ids.sort();
    assert_eq!(ids, (0..700).collect::<Vec<_>>());
}

/// Distance along x from the point to the start of a rectangle, as the user guide's example has it.
struct XStart;

impl Knearest for XStart {
    type Inner = ();
    fn rect_dist(&self, p: dinotree_alg::geom::Vec2<i64>, r: Rect) -> i64 {
        (r.x.start - p.x).abs()
    }
    fn bot_dist(&self, p: dinotree_alg::geom::Vec2<i64>, b: &BBox<()>) -> i64 {
        (b.rect.x.start - p.x).abs()
    }
    fn distance_to_rect(&self, p: dinotree_alg::geom::Vec2<i64>, r: &Rect) -> i64 {
        (r.x.start - p.x).abs()
    }
    fn distance_to_bot(&self, p: dinotree_alg::geom::Vec2<i64>, b: &BBox<()>) -> i64 {
        (b.rect.x.start - p.x).abs()
    }
}

#[test]
fn naive_with_user_metric() {
    let bots = vec![BBox::new(rect(5, 6, 0, 1), ()), BBox::new(rect(3, 4, 0, 1), ())];
    let r = naive(&bots, vec2(0, 0), 1, &XStart);
    assert_eq!(r.len(), 1);
    assert_eq!(r[0].index, 1);
    assert_eq!(r[0].mag, 3);
}

/// A broad distance to rectangles and a fine distance to the point an element carries, counting
/// the calls.
struct ToPoint {
    calls: Cell<usize>,
}

impl Knearest for ToPoint {
    type Inner = dinotree_alg::geom::Vec2<i64>;
    fn rect_dist(&self, p: dinotree_alg::geom::Vec2<i64>, r: Rect) -> i64 {
        sq_to_rect(&r, p)
    }
    fn bot_dist(&self, p: dinotree_alg::geom::Vec2<i64>, b: &BBox<dinotree_alg::geom::Vec2<i64>>) -> i64 {
        (b.inner.x - p.x) * (b.inner.x - p.x) + (b.inner.y - p.y) * (b.inner.y - p.y)
    }
    fn distance_to_rect(&self, p: dinotree_alg::geom::Vec2<i64>, r: &Rect) -> i64 {
        self.calls.set(self.calls.get() + 1);
        sq_to_rect(r, p)
    }
    fn distance_to_bot(&self, p: dinotree_alg::geom::Vec2<i64>, b: &BBox<dinotree_alg::geom::Vec2<i64>>) -> i64 {
        self.calls.set(self.calls.get() + 1);
        (b.inner.x - p.x) * (b.inner.x - p.x) + (b.inner.y - p.y) * (b.inner.y - p.y)
    }
}

#[test]
fn k_nearest_with_fine_distance() {
    let bots = vec![
        BBox::new(rect(0, 10, 0, 10), vec2(0, 0)),
        BBox::new(rect(2, 5, 2, 5), vec2(0, 5)),
        BBox::new(rect(4, 10, 4, 10), vec2(3, 3)),
    ];
    let tree = DinoTree::new(bots);
    // a single level: every element is measured, so the answer is exact
    assert_eq!(tree.get_height(), 1);
    let knear = ToPoint { calls: Cell::new(0) };
    let res = tree.k_nearest_mut(vec2(0, 0), 2, &knear, rect(0, 100, 0, 100));
    assert_eq!(res.len(), 2);
    assert_eq!(tree.get_bots()[res[0].index].inner, vec2(0, 0));
    assert_eq!(tree.get_bots()[res[1].index].inner, vec2(3, 3));
    assert_eq!(knear.calls.get(), 3);
}

/// Distance along a ray pointing toward increasing y to a rectangle, or no hit.
fn ray_up(ray: Ray<i64>, r: Rect) -> RayIntersectResult<i64> {
    if r.x.start <= ray.point.x && ray.point.x <= r.x.end && r.y.end >= ray.point.y {
        RayIntersectResult::Hit(if r.y.start > ray.point.y { r.y.start - ray.point.y } else { 0 })
    } else {
        RayIntersectResult::NoHit
    }
}

/// Distance along a ray pointing toward increasing y to a circle of radius 5 around `c`.
fn up_to_circle(ray: Ray<i64>, c: dinotree_alg::geom::Vec2<i64>) -> RayIntersectResult<i64> {
    let dx = (ray.point.x - c.x) as f64;
    if dx.abs() > 5.0 {
        return RayIntersectResult::NoHit;
    }
    let h = (25.0 - dx * dx).sqrt();
    let t = (c.y as f64) - h - (ray.point.y as f64);
    if t < 0.0 {
        RayIntersectResult::Hit(0)
    } else {
        RayIntersectResult::Hit(t as i64)
    }
}

/// Rectangles for the broad test, a circle around the point an element carries for the fine one,
/// counting the calls.
struct Circles {
    calls: Cell<usize>,
}

impl RayTrait for Circles {
    type Inner = dinotree_alg::geom::Vec2<i64>;
    fn rect_cast(&self, ray: Ray<i64>, r: Rect) -> RayIntersectResult<i64> {
        ray_up(ray, r)
    }
    fn bot_cast(&self, ray: Ray<i64>, b: &BBox<dinotree_alg::geom::Vec2<i64>>) -> RayIntersectResult<i64> {
        up_to_circle(ray, b.inner)
    }
    fn compute_distance_to_rect(&self, ray: &Ray<i64>, r: &Rect) -> RayIntersectResult<i64> {
        self.calls.set(self.calls.get() + 1);
        ray_up(*ray, *r)
    }
    fn compute_distance_to_bot(&self, ray: &Ray<i64>, b: &BBox<dinotree_alg::geom::Vec2<i64>>) -> RayIntersectResult<i64> {
        self.calls.set(self.calls.get() + 1);
        up_to_circle(*ray, b.inner)
    }
}

#[test]
fn raycast_with_fine_cast() {
    let bots = vec![
        BBox::new(rect(0, 10, 0, 10), vec2(5, 5)),
        BBox::new(rect(2, 5, 2, 5), vec2(4, 4)),
        BBox::new(rect(4, 10, 4, 10), vec2(5, 5)),
    ];
    let tree = DinoTree::new(bots);
    // a single level: every element is cast, so the answer is exact
    assert_eq!(tree.get_height(), 1);
    let rt = Circles { calls: Cell::new(0) };
    let ray = Ray { point: vec2(5, -5), dir: vec2(0, 1) };
    let (list, dis) = tree.raycast_mut(rect(0, 100, 0, 100), ray, &rt).unwrap();
    assert_eq!(dis, 4);
    assert_eq!(list.len(), 1);
    assert_eq!(tree.get_bots()[list[0]].inner, vec2(4, 4));
    assert_eq!(rt.calls.get(), 3);
}

#[test]
fn sweep_reports_and_sorts() {
    let mut bots = vec![
        BBox::new(rect(8, 12, 5, 8), 2usize),
        BBox::new(rect(5, 15, 20, 30), 1),
        BBox::new(rect(0, 10, 0, 10), 0),
    ];
    let found = query_sweep_mut(Axis::X, &mut bots);
    assert_eq!(found.len(), 1);
    let (i, j) = found[0];
    let mut pair = [bots[i].inner, bots[j].inner];
    pair.sort();
    assert_eq!(pair, [0, 2]);
    let order: Vec<usize> = bots.iter().map(|b| b.inner).collect();
    assert_eq!(order, vec![0, 1, 2]);
}
