use dinotree_alg::analyze::Splitter;
use dinotree_alg::bbox::BBox;
use dinotree_alg::colfind::query_seq_adv_mut;
use dinotree_alg::geom::{rect, Axis, Range, Rect};
use dinotree_alg::oned::Sweeper;
use dinotree_alg::support::{compair_bot_pair, create_rect_from_point, create_unordered, Bot};
use dinotree_alg::tree::{DinoTree, DinoTreeBuilder};
use std::cell::Cell;
use std::collections::{BTreeSet, HashSet};
use std::rc::Rc;
use std::sync::atomic::{AtomicIsize, Ordering as AtomicOrdering};

fn make_rect(a: (i64, i64), b: (i64, i64)) -> Rect {
    rect(a.0, a.1, b.0, b.1)
}

/// Points spread over a rectangle, from a fixed seed.
struct PointGenerator {
    state: u64,
    x: (i64, i64),
    y: (i64, i64),
}

impl PointGenerator {
    fn new(r: &Rect, seed: &[u64]) -> PointGenerator {
        let mut state = 0x9E37_79B9_7F4A_7C15u64;
        for s in seed {
            state = state.wrapping_mul(6364136223846793005).wrapping_add(*s);
        }
        PointGenerator { state, x: (r.x.start, r.x.end), y: (r.y.start, r.y.end) }
    }

    fn next_in(&mut self, lo: i64, hi: i64) -> i64 {
        self.state = self.state.wrapping_mul(6364136223846793005).wrapping_add(1442695040888963407);
        lo + ((self.state >> 33) % ((hi - lo) as u64)) as i64
    }

    fn random_point(&mut self) -> (i64, i64) {
        let x = self.next_in(self.x.0, self.x.1);
        let y = self.next_in(self.y.0, self.y.1);
        (x, y)
    }
}

fn bot(id: usize) -> Bot {
    Bot { id, col: Vec::new() }
}

/// The two closed ranges share a point.
fn intersects(a: Range, b: Range) -> bool {
    !(a.end < b.start || b.end < a.start)
}

/// Checks that the tree finds exactly the colliding pairs that checking every pair finds.
fn test_bot_layout(bots: Vec<BBox<Bot>>) {
    let mut control_result: Vec<(usize, usize)> = Vec::new();
    for i in 0..bots.len() {
        for j in i + 1..bots.len() {
            let (a, b) = (&bots[i], &bots[j]);
            let ax = a.rect.get_range(Axis::X);
            let ay = a.rect.get_range(Axis::Y);
            let bx = b.rect.get_range(Axis::X);
            let by = b.rect.get_range(Axis::Y);
            if intersects(ax, bx) && intersects(ay, by) {
                control_result.push(create_unordered(&a.inner, &b.inner));
            }
        }
    }

    let tree = DinoTree::new(bots);
    let b = tree.get_bots();
    let mut test_result: Vec<(usize, usize)> =
        tree.find_intersections_mut().iter().map(|&(i, j)| create_unordered(&b[i].inner, &b[j].inner)).collect();

    control_result.sort_by(compair_bot_pair);
    test_result.sort_by(compair_bot_pair);

    let control_hash: HashSet<(usize, usize)> = control_result.iter().cloned().collect();
    let test_hash: HashSet<(usize, usize)> = test_result.iter().cloned().collect();
    let diff = control_hash.symmetric_difference(&test_hash).count();
    assert!(diff == 0);
    assert_eq!(control_result, test_result);
}

#[test]
fn test_dinotree_drop() {
    struct Dropper {
        _id: usize,
        drop_counter: Rc<Cell<isize>>,
    }

    impl Drop for Dropper {
        fn drop(&mut self) {
            self.drop_counter.set(self.drop_counter.get() - 1);
        }
    }

    let drop_counter: Vec<Rc<Cell<isize>>> = (0..5000).map(|_| Rc::new(Cell::new(1))).collect();
    {
        let spawn_world = make_rect((-990, 990), (-90, 90));
        let mut p = PointGenerator::new(&spawn_world, &[1, 2, 3, 4, 5]);
        let mut bots: Vec<BBox<Dropper>> = Vec::new();
        for (id, dc) in (0..5000).zip(drop_counter.iter()) {
            let r = create_rect_from_point(p.random_point());
            bots.push(BBox::new(r, Dropper { _id: id, drop_counter: dc.clone() }));
        }
        let tree = DinoTree::new(bots);
        let _ = tree.find_intersections_mut();
    }
    assert!(drop_counter.iter().fold(true, |acc, x| acc & (x.get() == 0)));
}

#[test]
fn test_dinotree_adv() {
    let spawn_world = make_rect((-990, 990), (-90, 90));
    let mut p = PointGenerator::new(&spawn_world, &[1, 2, 3, 4, 5]);
    let mut bots: Vec<BBox<Bot>> = Vec::new();
    for id in 0..5000 {
        let r = create_rect_from_point(p.random_point());
        bots.push(BBox::new(r, bot(id)));
    }
    let bots_control = bots.clone();

    struct Blag {
        a: Vec<Vec<(usize, usize)>>,
    }
    impl Blag {
        fn new() -> Blag {
            Blag { a: vec![Vec::new()] }
        }
    }
    impl Splitter for Blag {
        fn divided(&self) -> (Self, Self) {
            (Blag { a: self.a.clone() }, Blag::new())
        }
        fn added(&self, b: Self) -> Self {
            let mut a = self.a.clone();
            a.extend(b.a);
            Blag { a }
        }
        fn started(&self) -> Self {
            Blag { a: self.a.clone() }
        }
        fn ended(&self) -> Self {
            Blag { a: self.a.clone() }
        }
        fn div(&mut self) -> Self {
            Blag::new()
        }
        fn add(&mut self, mut b: Self) {
            self.a.append(&mut b.a);
        }
        fn node_start(&mut self) {}
        fn node_end(&mut self) {}
    }

    // the tree of this scenario has 6 levels, so 31 nodes with a divider
    let mut builder = DinoTreeBuilder::new(bots);
    builder.with_height(6);
    let tree = builder.build_seq();
    let mut pairs = Blag::new();
    let found = query_seq_adv_mut(&tree, &mut pairs);
    let tb = tree.get_bots();
    pairs.a[0] = found.iter().map(|&(i, j)| create_unordered(&tb[i].inner, &tb[j].inner)).collect();

    // the tree keeps every element, with its rectangle
    let mut kept: Vec<(usize, Rect)> = tb.iter().map(|b| (b.inner.id, b.rect)).collect();
    kept.sort_by_key(|k| k.0);
    for (a, b) in kept.iter().zip(bots_control.iter()) {
        assert!(a.0 == b.inner.id);
        assert!(a.1 == b.rect);
    }

    assert_eq!(pairs.a.len(), 32);
}

#[test]
fn test_corners_touch() {
    //# # # #
    // # # #
    //# # # #
    let mut bots = Vec::new();
    let mut id_counter = 0..;
    let mut a = false;
    for y in (-100..200).step_by(20) {
        if a {
            for x in (-1000..2000).step_by(20).step_by(2) {
                let id = id_counter.next().unwrap();
                bots.push(BBox::new(create_rect_from_point((x, y)), bot(id)));
            }
        } else {
            for x in (-1000..2000).step_by(20).skip(1).step_by(2) {
                let id = id_counter.next().unwrap();
                bots.push(BBox::new(create_rect_from_point((x, y)), bot(id)));
            }
        }
        a = !a;
    }
    test_bot_layout(bots);
}

static ZST_DROPS: AtomicIsize = AtomicIsize::new(0);

#[test]
fn test_zero_sized_type() {
    struct Zst;

    impl Drop for Zst {
        fn drop(&mut self) {
            ZST_DROPS.fetch_add(1, AtomicOrdering::SeqCst);
        }
    }

    {
        let spawn_world = make_rect((-990, 990), (-90, 90));
        let mut p = PointGenerator::new(&spawn_world, &[1, 2, 3, 4, 5]);
        let mut bots: Vec<BBox<Zst>> = Vec::new();
        for _id in 0..5000 {
            let r = create_rect_from_point(p.random_point());
            bots.push(BBox::new(r, Zst));
        }
        let tree = DinoTree::new(bots);
        let _ = tree.find_intersections_mut();
    }
    assert_eq!(ZST_DROPS.load(AtomicOrdering::SeqCst), 5000);
}

#[test]
fn test_bounding_boxes_as_points() {
    let spawn_world = make_rect((-990, 990), (-90, 90));
    let mut p = PointGenerator::new(&spawn_world, &[1, 2, 3, 4, 5]);
    let bots: Vec<BBox<Bot>> = (0..2000)
        .map(|id| {
            let p = p.random_point();
            BBox::new(make_rect((p.0, p.0), (p.1, p.1)), bot(id))
        })
        .collect();
    test_bot_layout(bots);
}

#[test]
fn test_one_bot() {
    let bots = vec![BBox::new(create_rect_from_point((0, 0)), bot(0))];
    test_bot_layout(bots);
}

#[test]
fn test_empty() {
    let bots: Vec<BBox<Bot>> = Vec::new();
    test_bot_layout(bots);
}

#[test]
fn test_1_apart() {
    let mut bots = Vec::new();
    let mut id_counter = 0..;
    for x in (-1000..2000).step_by(21) {
        for y in (-100..200).step_by(21) {
            let id = id_counter.next().unwrap();
            bots.push(BBox::new(create_rect_from_point((x, y)), bot(id)));
        }
    }
    test_bot_layout(bots);
}

#[test]
fn test_mesh() {
    // boxes tessellated so that all their edges touch
    let mut bots = Vec::new();
    let mut id_counter = 0..;
    for x in (-1000..2000).step_by(20) {
        for y in (-100..200).step_by(20) {
            let id = id_counter.next().unwrap();
            bots.push(BBox::new(create_rect_from_point((x, y)), bot(id)));
        }
    }
    test_bot_layout(bots);
}

#[test]
fn test_russian_doll() {
    // larger and larger rectangles overlapping each other
    let mut bots = Vec::new();
    let mut id_counter = 0..;
    for x in (-1000..2000).step_by(20) {
        for y in (-100..200).step_by(20) {
            if x > y {
                let id = id_counter.next().unwrap();
                bots.push(BBox::new(make_rect((-1000, -100), (x, y)), bot(id)));
            }
        }
    }
    test_bot_layout(bots);
}

#[test]
fn test_dinotree() {
    let spawn_world = make_rect((-990, 990), (-90, 90));
    let mut p = PointGenerator::new(&spawn_world, &[1, 2, 3, 4, 5]);
    let bots: Vec<BBox<Bot>> =
        (0..2000).map(|id| BBox::new(create_rect_from_point(p.random_point()), bot(id))).collect();
    test_bot_layout(bots);
}

#[test]
fn oned_test_parallel() {
    struct Counter {
        counter: usize,
    }
    impl Counter {
        fn make(&mut self, x1: i64, x2: i64) -> BBox<usize> {
            let b = BBox::new(rect(x1, x2, 0, 10), self.counter);
            self.counter += 1;
            b
        }
    }

    fn sweep(first: &[BBox<usize>], second: &[BBox<usize>]) -> BTreeSet<[usize; 2]> {
        let mut all: Vec<BBox<usize>> = first.to_vec();
        all.extend_from_slice(second);
        let (n1, n) = (first.len(), first.len() + second.len());
        let mut out = Vec::new();
        let mut sweeper = Sweeper::new();
        sweeper.find_parallel_2d(Axis::X, &all, 0, n1, n1, n, &mut out);
        out.iter()
            .map(|&(x, y)| {
                let (a, b) = (all[x].inner, all[y].inner);
                if a < b { [a, b] } else { [b, a] }
            })
            .collect()
    }

    let mut b = Counter { counter: 0 };

    let _left = [b.make(0, 10), b.make(5, 20), b.make(10, 40)];
    let _right = [
        b.make(1, 2),
        b.make(-5, -4),
        b.make(2, 3),
        b.make(-5, -4),
        b.make(3, 4),
        b.make(-5, -4),
        b.make(4, 5),
        b.make(-5, -4),
        b.make(5, 6),
        b.make(-5, -4),
        b.make(6, 7),
    ];

    let left = [b.make(0, 10), b.make(5, 20)];
    let right = [b.make(16, 20)];

    let test1 = sweep(&left, &right);
    let test2 = sweep(&right, &left);

    let num = test1.symmetric_difference(&test2).count();
    assert_eq!(num, 0);
    assert_eq!(test1.len(), 1);
}
