use dinotree_alg::analyze::{compute_tree_height_heuristic, nodes_left, BinStrat, DEFAULT_NUMBER_ELEM_PER_NODE};
use dinotree_alg::bbox::BBox;
use dinotree_alg::collect::{BotCollision, BotCollisionPar, Collision, CollisionList, SingleCollisionList};
use dinotree_alg::find::{find_element, Dir};
use dinotree_alg::geom::{default_axis, rect, Axis, Range};
use dinotree_alg::graphics::{dividers, draw, DividerDrawer, DividerLine};
use dinotree_alg::nbody;
use dinotree_alg::oned::{bin_middle_left_right, create_cont, get_section, get_section_mut, Sweeper};
use dinotree_alg::pmut::PMut;
use dinotree_alg::split::{SliceSplit, SliceSplitMut};
use dinotree_alg::support::{compair_bot_pair, create_rect_from_point, create_unordered, Bot, IDPair};
use dinotree_alg::tree::{DinoTree, DinoTreeBuilder, DivNode, Node};
use core::cmp::Ordering;

fn line_bots(n: usize) -> Vec<BBox<usize>> {
    (0..n).map(|i| BBox::new(rect(i as i64 * 3, i as i64 * 3 + 5, 0, 5), i)).collect()
}

#[test]
fn height_heuristic() {
    assert_eq!(compute_tree_height_heuristic(0, 128), 1);
    assert_eq!(compute_tree_height_heuristic(128, 128), 1);
    assert_eq!(compute_tree_height_heuristic(129, 128), 3);
    assert_eq!(compute_tree_height_heuristic(512, 128), 3);
    assert_eq!(compute_tree_height_heuristic(513, 128), 5);
    assert_eq!(compute_tree_height_heuristic(1000, 128), 5);
    assert_eq!(DEFAULT_NUMBER_ELEM_PER_NODE, 128);
}

#[test]
fn nodes_left_counts() {
    assert_eq!(nodes_left(0, 1), 1);
    assert_eq!(nodes_left(0, 3), 7);
    assert_eq!(nodes_left(1, 3), 3);
    assert_eq!(nodes_left(3, 3), 0);
}

#[test]
fn builder_defaults() {
    let mut b = DinoTreeBuilder::new(line_bots(10));
    b.with_bin_strat(BinStrat::Checked);
    b.with_height_switch_seq(2);
    let t = b.build_seq();
    assert_eq!(t.axis(), default_axis());
    assert_eq!(t.get_height(), 1);
}

#[test]
fn find_element_path() {
    let bots = line_bots(300);
    let tree = DinoTree::with_axis(Axis::X, bots);
    let target = tree.get_bots()[250].inner;
    let (depth, path) = find_element(&tree, |b: &BBox<usize>| b.inner == target).unwrap();
    assert_eq!(depth, path.len());
    assert!(depth < tree.get_height());
    // follow the path down to the node and check it holds the element
    let nodes = tree.get_nodes();
    let mut i = 0usize;
    let mut r = tree.get_height();
    for d in &path {
        match d {
            Dir::Left => i += 1,
            Dir::Right => i += 1 << (r - 1),
        }
        r -= 1;
    }
    let n = nodes[i];
    assert!(tree.get_bots()[n.start..n.end].iter().any(|b| b.inner == target));
    assert!(find_element(&tree, |b: &BBox<usize>| b.inner == 10_000).is_none());
}

struct Count {
    calls: Vec<(Axis, i64, usize)>,
    lines: Vec<DividerLine>,
}

impl DividerDrawer for Count {
    fn drawn(&self) -> Vec<DividerLine> {
        self.lines.clone()
    }

    fn draw_divider(&mut self, axis: Axis, div: i64, cont: [i64; 2], length: [i64; 2], depth: usize) {
        self.calls.push((axis, div, depth));
        self.lines.push(DividerLine {
            axis,
            div,
            cont: Range::new(cont[0], cont[1]),
            length: Range::new(length[0], length[1]),
            depth,
        });
    }
}

#[test]
fn draw_every_divider() {
    let tree = DinoTree::with_axis(Axis::X, line_bots(600));
    let mut c = Count { calls: Vec::new(), lines: Vec::new() };
    let drawn = draw(&tree, &mut c, &rect(0, 2000, 0, 10));
    assert_eq!(drawn.len(), c.calls.len());
    assert_eq!(drawn, dividers(&tree, &rect(0, 2000, 0, 10)));
    // the root's divider comes first, on the tree's axis, at depth 0
    assert_eq!(c.calls[0].0, Axis::X);
    assert_eq!(c.calls[0].2, 0);
    // the boxes all span the same y range: the nodes dividing on y keep all their elements, their
    // children are empty, and the walk stops there: the root and its two children are drawn
    assert_eq!(drawn.len(), 3);
    assert_eq!(c.calls[1].0, Axis::Y);
    assert_eq!(c.calls[1].2, 1);
    assert_eq!(c.drawn(), drawn);
    let leaf_only = DinoTree::new(line_bots(3));
    assert!(dividers(&leaf_only, &rect(0, 10, 0, 10)).is_empty());
    // a tree that is one leaf draws nothing
    let mut c1 = Count { calls: Vec::new(), lines: Vec::new() };
    let one_leaf = DinoTree::new(vec![BBox::new(rect(0, 10, 0, 10), 0usize)]);
    assert!(draw(&one_leaf, &mut c1, &rect(0, 100, 0, 100)).is_empty());
    assert!(c1.calls.is_empty());
    let mut c2 = Count { calls: Vec::new(), lines: Vec::new() };
    assert_eq!(tree.draw_divider(&mut c2, &rect(0, 2000, 0, 10)), drawn);
    assert_eq!(c2.calls, c.calls);
}

#[test]
fn slice_split_runs() {
    let v = [1, 1, 2, 2, 2, 3];
    let mut s = SliceSplit::new(&v, |a: &i32, b: &i32| a == b);
    assert_eq!(s.next(), Some(&v[0..2]));
    assert_eq!(s.next(), Some(&v[2..5]));
    assert_eq!(s.next(), Some(&v[5..6]));
    assert_eq!(s.next(), None);
    assert_eq!(s.next(), None);
    let mut w = [5, 5, 7];
    let mut m = SliceSplitMut::new(&mut w, |a: &i32, b: &i32| a == b);
    let first = m.next().unwrap();
    assert_eq!(first.len(), 2);
    first[0] = 9;
    let second = m.next().unwrap();
    assert_eq!(second, &mut [7]);
    assert!(m.next().is_none());
    assert_eq!(w, [9, 5, 7]);
}

#[test]
fn collision_lists() {
    let bots = vec![
        BBox::new(rect(0, 10, 0, 10), 0usize),
        BBox::new(rect(5, 15, 5, 15), 1),
        BBox::new(rect(14, 20, 0, 6), 2),
        BBox::new(rect(100, 110, 0, 3), 3),
    ];
    let mut tree = DinoTree::new(bots);
    let b = tree.get_bots().to_vec();
    let mut list = BotCollision::collect_intersections_list(&mut tree, |x: &BBox<usize>, y: &BBox<usize>| {
        (x.inner, y.inner, if x.inner + y.inner == 1 { None } else { Some(x.inner + y.inner) })
    });
    let got: Vec<(usize, usize)> = list
        .get()
        .iter()
        .map(|&(i, j, _)| if b[i].inner < b[j].inner { (b[i].inner, b[j].inner) } else { (b[j].inner, b[i].inner) })
        .collect();
    assert_eq!(got, vec![(1, 2)]);
    // the pair's elements get the pair's data added, and the data is multiplied by ten
    list.for_every_pair_mut(&mut tree, |x: &usize, y: &usize, d: &usize| (x + d, y + d, d * 10));
    assert_eq!(list.get()[0].2, 30);
    let mut ids: Vec<usize> = tree.get_bots().iter().map(|e| e.inner).collect();
    ids.sort();
    assert_eq!(ids, vec![0, 3, 4, 5]);

    let mut cl = CollisionList::create_collision_list(&tree, |_: &BBox<usize>, _: &BBox<usize>| Some(1u32));
    // the entry holds copies of the two elements as they were when collected
    let seen = std::cell::RefCell::new(Vec::new());
    cl.for_every_pair_mut(|a: &BBox<usize>, b: &BBox<usize>, d: &u32| {
        seen.borrow_mut().push((a.inner, b.inner));
        d + 1
    });
    let seen = seen.into_inner();
    assert_eq!(seen.len(), 2);
    let cur: Vec<usize> = tree.get_bots().iter().map(|e| e.inner).collect();
    assert!(seen.iter().all(|(a, b)| cur.contains(a) && cur.contains(b) && a != b));
    let c = Collision::new(1, 2, 'x');
    assert_eq!((c.a, c.b, c.d), (1, 2, 'x'));

    let before = tree.get_bots().to_vec();
    let mut single = SingleCollisionList::collect_all(&tree, |x: &BBox<usize>| if x.inner % 2 == 0 { Some(x.inner) } else { None });
    assert_eq!(single.get().len(), 2);
    single.for_every_mut(&mut tree, |v: &usize, d: &usize| (v + 1, d + 100));
    assert!(single.get().iter().all(|&(k, d)| d == before[k].inner + 100));
    assert!(single.get().iter().all(|&(k, _)| tree.get_bots()[k].inner == before[k].inner + 1));
    assert!(single.get().windows(2).all(|w| w[0].0 < w[1].0));

    let before = tree.get_bots().to_vec();
    let mut par = BotCollisionPar::new(vec![vec![(0, 1, 2u8)], vec![], vec![(2, 3, 4u8)]]);
    par.for_every_pair_mut(&mut tree, |x: &usize, y: &usize, d: &u8| (x + 1, y + *d as usize, d + 1));
    let g = par.into_groups();
    assert_eq!(g[0][0].2, 3);
    assert_eq!(g[2][0].2, 5);
    let after: Vec<usize> = tree.get_bots().iter().map(|e| e.inner).collect();
    assert_eq!(after, vec![before[0].inner + 1, before[1].inner + 2, before[2].inner + 1, before[3].inner + 4]);
}

#[test]
fn collected_pairs_walked_again() {
    let bots = vec![BBox::new(rect(1, 7, 5, 11), 0i64), BBox::new(rect(1, 7, 3, 9), 0)];
    let mut tree = DinoTree::new(bots);
    let mut list = BotCollision::collect_intersections_list(&mut tree, |_: &BBox<i64>, _: &BBox<i64>| (0, 0, Some(1i64)));
    assert_eq!(list.get().len(), 1);
    for _ in 0..3 {
        list.for_every_pair_mut(&mut tree, |a: &i64, b: &i64, d: &i64| (a + d, b + d, *d));
    }
    assert!(tree.get_bots().iter().all(|e| e.inner == 3));
}

#[test]
fn collect_pass_changes_elements() {
    // two points (4, 8) and (4, 6), each in a box of radius 3
    let bots = vec![BBox::new(rect(1, 7, 5, 11), 0i64), BBox::new(rect(1, 7, 3, 9), 0)];
    let mut tree = DinoTree::new(bots);
    let mut list = BotCollision::collect_intersections_list(&mut tree, |a: &BBox<i64>, b: &BBox<i64>| {
        (a.inner + 1, b.inner + 2, Some(1i64))
    });
    let (first, second) = (list.get()[0].0, list.get()[0].1);
    // the pair names the later element of the tree's order first
    assert!(first > second);
    for k in tree.for_all_in_rect(&rect(0, 10, 0, 10)) {
        let v = tree.get_bots()[k].inner + 10;
        tree.set_inner(k, v);
    }
    for _ in 0..3 {
        list.for_every_pair_mut(&mut tree, |a: &i64, b: &i64, d: &i64| (a + d, b + d, *d));
    }
    let inside = |k: usize| if tree.get_bots()[k].rect == rect(1, 7, 3, 9) { 10 } else { 0 };
    assert_eq!(tree.get_bots()[first].inner, 1 + 3 + inside(first));
    assert_eq!(tree.get_bots()[second].inner, 2 + 3 + inside(second));
    let at = |r: dinotree_alg::geom::Rect| tree.get_bots().iter().find(|e| e.rect == r).unwrap().inner;
    let (upper, lower) = (at(rect(1, 7, 5, 11)), at(rect(1, 7, 3, 9)));
    assert!((upper, lower) == (4, 15) || (upper, lower) == (5, 14));
}

#[test]
fn support_helpers() {
    let p = IDPair::new(5, 3);
    assert_eq!((p.a, p.b), (3, 5));
    let q = IDPair::new(2, 9);
    assert_eq!((q.a, q.b), (2, 9));
    let a = Bot { id: 7, col: Vec::new() };
    let b = Bot { id: 2, col: vec![1] };
    assert_eq!(create_unordered(&a, &b), (2, 7));
    assert_eq!(create_unordered(&b, &a), (2, 7));
    assert_eq!(compair_bot_pair(&(1, 5), &(2, 0)), Ordering::Less);
    assert_eq!(compair_bot_pair(&(2, 5), &(2, 1)), Ordering::Greater);
    assert_eq!(compair_bot_pair(&(2, 5), &(2, 5)), Ordering::Equal);
    let r = create_rect_from_point((3, -4));
    assert_eq!(r, rect(-7, 13, -14, 6));
    assert_eq!(*DivNode::new(42).divider(), 42);
}

#[test]
fn nbody_naive_pairs_small() {
    let bots = line_bots(5);
    let p = nbody::naive_mut(&bots);
    assert_eq!(p.len(), 10);
    assert!(p.iter().all(|&(i, j)| i < j && j < 5));
}

#[test]
fn sorted_sections() {
    let mut v: Vec<BBox<usize>> = vec![0i64, 3, 5, 9, 12, 20].into_iter().enumerate().map(|(i, s)| BBox::new(rect(s, s + 2, 0, 1), i)).collect();
    let sec = get_section(Axis::X, &v, &Range::new(4, 10));
    let ids: Vec<usize> = sec.iter().map(|b| b.inner).collect();
    assert_eq!(ids, vec![1, 2, 3]);
    let m = get_section_mut(Axis::X, PMut::<[BBox<usize>]>::new(&mut v[..]), &Range::new(13, 100));
    assert_eq!(m.len(), 2);
    assert_eq!(create_cont(Axis::X, &v, 0, v.len()), Some(Range::new(0, 22)));
    assert_eq!(create_cont(Axis::X, &v, 2, 2), None);
}

#[test]
fn three_way_bins() {
    let mut v: Vec<BBox<usize>> = vec![(0i64, 4i64), (6, 8), (1, 2), (5, 9), (3, 7), (10, 11)]
        .into_iter()
        .enumerate()
        .map(|(i, (s, e))| BBox::new(rect(s, e, 0, 1), i))
        .collect();
    let n = v.len();
    let (m, l) = bin_middle_left_right(Axis::X, 5, &mut v, 0, n);
    assert!(v[..m].iter().all(|b| b.rect.x.start <= 5 && 5 <= b.rect.x.end));
    assert!(v[m..l].iter().all(|b| b.rect.x.end < 5));
    assert!(v[l..].iter().all(|b| b.rect.x.start > 5));
    assert_eq!(m, 2);
    assert_eq!(l, 4);
}

#[test]
fn sweeper_pairs() {
    let mut v = line_bots(6);
    dinotree_alg::colfind::sweeper_update(Axis::X, &mut v);
    let mut s = Sweeper::new();
    let mut out = Vec::new();
    s.find_2d(Axis::X, &v, 0, v.len(), &mut out);
    // boxes of width 5 every 3 units meet their next neighbour only
    assert_eq!(out.len(), 5);
}

#[test]
fn pmut_slices() {
    let mut v = vec![1, 2, 3, 4];
    let p = PMut::<[i32]>::new(&mut v[..]);
    assert_eq!(p.len(), 4);
    assert!(!p.is_empty());
    let t = p.truncate(1, 3);
    assert_eq!(t.as_ref(), &[2, 3]);
    let p = PMut::<[i32]>::new(&mut v[..]);
    let (first, rest) = p.split_first_mut().unwrap();
    assert_eq!(*first.as_ref(), 1);
    assert_eq!(rest.len(), 3);
    let p = PMut::<[i32]>::new(&mut v[..]);
    assert_eq!(p.truncate_to(2).as_ref(), &[1, 2]);
    let p = PMut::<[i32]>::new(&mut v[..]);
    assert_eq!(p.truncate_from(3).as_ref(), &[4]);
    let p = PMut::<[i32]>::new(&mut v[..]);
    assert_eq!(p.iter().count(), 4);
    let p = PMut::<[i32]>::new(&mut v[..]);
    let mut it = p.iter_mut();
    let mut seen = 0;
    while let Some(x) = it.next() {
        seen += *x.as_ref();
    }
    assert_eq!(seen, 10);
}

#[test]
fn pmut_iter_both_ends() {
    let mut v = vec![1, 2, 3, 4];
    let mut it = PMut::<[i32]>::new(&mut v[..]).iter_mut();
    assert_eq!(it.size_hint(), (4, Some(4)));
    assert_eq!(*it.next_back().unwrap().as_ref(), 4);
    assert_eq!(*it.next().unwrap().as_ref(), 1);
    assert_eq!(it.size_hint(), (2, Some(2)));
    assert_eq!(*it.next_back().unwrap().as_ref(), 3);
    assert_eq!(*it.next_back().unwrap().as_ref(), 2);
    assert!(it.next_back().is_none());
    assert!(it.next().is_none());
    assert_eq!(it.size_hint(), (0, Some(0)));
}

#[test]
fn unsorted_sections() {
    let v: Vec<BBox<usize>> = vec![10i64, 0, 5, 20, 3].into_iter().enumerate().map(|(i, s)| BBox::new(rect(s, s + 2, 0, 1), i)).collect();
    let ids: Vec<usize> = get_section(Axis::X, &v, &Range::new(4, 10)).iter().map(|b| b.inner).collect();
    assert_eq!(ids, vec![0, 1, 2]);
    assert_eq!(get_section(Axis::X, &v, &Range::new(100, 200)).len(), 5);
    assert_eq!(get_section(Axis::X, &v[..0], &Range::new(0, 1)).len(), 0);
}

#[derive(Clone, Copy)]
struct Mass {
    count: usize,
    acc: usize,
    rect: dinotree_alg::geom::Rect,
}

/// Counts, for every element, the elements it interacted with, directly or through a mass.
struct Counter {
    far: i64,
}

impl nbody::NodeMassTrait for Counter {
    type No = Mass;
    type Inner = usize;

    fn node_node(&self, a: Mass, b: Mass) -> (Mass, Mass) {
        (Mass { acc: a.acc + b.count, ..a }, Mass { acc: b.acc + a.count, ..b })
    }
    fn bot_bot(&self, _ra: dinotree_alg::geom::Rect, a: usize, _rb: dinotree_alg::geom::Rect, b: usize) -> (usize, usize) {
        (a + 1, b + 1)
    }
    fn node_bot(&self, a: Mass, _rb: dinotree_alg::geom::Rect, b: usize) -> (Mass, usize) {
        (Mass { acc: a.acc + 1, ..a }, b + a.count)
    }
    fn applied(&self, a: Mass, _rb: dinotree_alg::geom::Rect, b: usize) -> usize {
        b + a.acc
    }

    fn mass_of(&self, bots: &[BBox<usize>], rect: dinotree_alg::geom::Rect) -> Mass {
        Mass { count: bots.len(), acc: 0, rect }
    }
    fn far_enough(&self, b: [i64; 2]) -> bool {
        (b[0] - b[1]).abs() > self.far
    }
    fn far_enough_half(&self, b: [i64; 2]) -> bool {
        (b[0] - b[1]).abs() > self.far
    }
    fn region_of(no: Mass) -> dinotree_alg::geom::Rect {
        no.rect
    }

    fn get_rect(no: &Mass) -> &dinotree_alg::geom::Rect {
        &no.rect
    }
    fn handle_node_with_node(&self, a: &mut Mass, b: &mut Mass) {
        a.acc += b.count;
        b.acc += a.count;
    }
    fn handle_bot_with_bot(&self, a: dinotree_alg::bbox::BBoxRefMut<'_, usize>, b: dinotree_alg::bbox::BBoxRefMut<'_, usize>) {
        *a.inner += 1;
        *b.inner += 1;
    }
    fn handle_node_with_bot(&self, a: &mut Mass, b: dinotree_alg::bbox::BBoxRefMut<'_, usize>) {
        *b.inner += a.count;
        a.acc += 1;
    }
    fn is_far_enough(&self, b: [i64; 2]) -> bool {
        (b[0] - b[1]).abs() > self.far
    }
    fn is_far_enough_half(&self, b: [i64; 2]) -> bool {
        (b[0] - b[1]).abs() > self.far
    }
    fn apply_to_bots(&self, a: &Mass, b: dinotree_alg::bbox::BBoxRefMut<'_, usize>) {
        *b.inner += a.acc;
    }
    fn new(&self, bots: &[BBox<usize>], rect: dinotree_alg::geom::Rect) -> Mass {
        Mass { count: bots.len(), acc: 0, rect }
    }
}

#[test]
fn nbody_every_pair_once() {
    let mut bots = Vec::new();
    let mut s: u64 = 17;
    for _ in 0..700 {
        s = s.wrapping_mul(6364136223846793005).wrapping_add(1442695040888963407);
        let x = ((s >> 33) % 2000) as i64;
        s = s.wrapping_mul(6364136223846793005).wrapping_add(1442695040888963407);
        let y = ((s >> 33) % 2000) as i64;
        bots.push(BBox::new(rect(x, x + 3, y, y + 3), 0usize));
    }
    let n = bots.len();
    for far in [50, 300, 5000] {
        let mut tree = DinoTree::new(bots.clone());
        let rects_before: Vec<_> = tree.get_bots().iter().map(|b| b.rect).collect();
        let plan = nbody::nbody(&mut tree, &Counter { far }, rect(0, 2010, 0, 2010));
        assert!(tree.get_bots().iter().all(|b| b.inner == n - 1));
        let rects_after: Vec<_> = tree.get_bots().iter().map(|b| b.rect).collect();
        assert_eq!(rects_before, rects_after);
        assert!(!plan.is_empty());
    }
    // the method form runs the same plan
    let mut t1 = DinoTree::new(bots.clone());
    let mut t2 = DinoTree::new(bots.clone());
    let p1 = nbody::nbody(&mut t1, &Counter { far: 300 }, rect(0, 2010, 0, 2010));
    let p2 = t2.nbody_mut(&Counter { far: 300 }, rect(0, 2010, 0, 2010));
    assert_eq!(p1.len(), p2.len());
    assert!(t2.get_bots().iter().all(|b| b.inner == n - 1));
    // the naive step pairs every element with every other one
    assert_eq!(nbody::naive_mut(&bots).len(), n * (n - 1) / 2);
}

/// Checks the hull and the divider of every node of the subtree of node `i` with `r` levels, and
/// returns the end of the subtree's elements.
fn check_hulls(nodes: &[Node], bots: &[BBox<usize>], i: usize, r: usize, axis: Axis) -> usize {
    let n = nodes[i];
    let own = &bots[n.start..n.end];
    match n.cont {
        Some(c) => {
            assert_eq!(own.iter().map(|b| b.rect.get_range(axis).start).min(), Some(c.start));
            assert_eq!(own.iter().map(|b| b.rect.get_range(axis).end).max(), Some(c.end));
        }
        None => assert!(own.is_empty()),
    }
    if r == 1 {
        return n.end;
    }
    check_hulls(nodes, bots, i + 1, r - 1, axis.next());
    let end = check_hulls(nodes, bots, i + (1 << (r - 1)), r - 1, axis.next());
    if let Some(d) = n.div {
        assert!(own.iter().any(|b| b.rect.get_range(axis).start == d));
        assert!(bots[n.start..end].iter().any(|b| b.rect.get_range(axis).start == d));
        // the divider is the median start of the subtree
        let mut starts: Vec<i64> = bots[n.start..end].iter().map(|b| b.rect.get_range(axis).start).collect();
        starts.sort();
        assert_eq!(d, starts[starts.len() / 2]);
    }
    end
}

#[test]
fn node_hulls_and_dividers() {
    let bots: Vec<BBox<usize>> = (0..500usize)
        .map(|i| {
            let x = ((i * 7919) % 1000) as i64;
            let y = ((i * 104729) % 1000) as i64;
            let w = (i % 13) as i64;
            BBox::new(rect(x, x + w, y, y + (i % 7) as i64), i)
        })
        .collect();
    let tree = DinoTree::with_axis(Axis::X, bots);
    let end = check_hulls(tree.get_nodes(), tree.get_bots(), 0, tree.get_height(), Axis::X);
    assert_eq!(end, 500);
}

#[test]
fn height_grows_with_elements() {
    let mut last = 0;
    for n in 0..5000usize {
        let h = compute_tree_height_heuristic(n, 10);
        assert!(h >= last);
        assert_eq!(h % 2, 1);
        last = h;
    }
    assert_eq!(compute_tree_height_heuristic(10, 10), 1);
    assert_eq!(compute_tree_height_heuristic(11, 10), 3);
    assert_eq!(compute_tree_height_heuristic(40, 10), 3);
    assert_eq!(compute_tree_height_heuristic(41, 10), 5);
}

#[test]
fn nbody_masses_only_where_far_enough() {
    let mut bots = Vec::new();
    for i in 0..200i64 {
        let x = (i * 37) % 1000;
        let y = (i * 53) % 1000;
        bots.push(BBox::new(rect(x, x + 2, y, y + 2), 0usize));
    }
    let n = bots.len();
    // nothing is ever far enough: every pair interacts directly
    let mut t1 = DinoTree::new(bots.clone());
    let plan = nbody::nbody(&mut t1, &Counter { far: i64::MAX }, rect(0, 1010, 0, 1010));
    assert_eq!(plan.len(), n * (n - 1) / 2);
    assert!(plan.iter().all(|x| matches!(x, nbody::Interaction::BotBot(_, _))));
    assert!(t1.get_bots().iter().all(|b| b.inner == n - 1));
    // everything is far enough: masses stand for whole subtrees
    let mut t2 = DinoTree::new(bots.clone());
    let plan = nbody::nbody(&mut t2, &Counter { far: -1 }, rect(0, 1010, 0, 1010));
    assert!(plan.iter().any(|x| !matches!(x, nbody::Interaction::BotBot(_, _))));
    assert!(plan.len() < n * (n - 1) / 2);
    assert!(t2.get_bots().iter().all(|b| b.inner == n - 1));
}

#[test]
fn nbody_single_leaf_plan() {
    let bots = vec![
        BBox::new(rect(0, 2, 0, 2), 0usize),
        BBox::new(rect(50, 52, 0, 2), 0),
        BBox::new(rect(100, 102, 0, 2), 0),
    ];
    let mut tree = DinoTree::new(bots);
    assert_eq!(tree.get_height(), 1);
    // a leaf's elements interact pairwise, in order, whatever is far enough
    let plan = nbody::nbody(&mut tree, &Counter { far: -1 }, rect(0, 110, 0, 10));
    let direct = |a: usize, b: usize| nbody::Interaction::BotBot(a, b);
    assert_eq!(plan, vec![direct(0, 1), direct(0, 2), direct(1, 2)]);
    assert!(tree.get_bots().iter().all(|b| b.inner == 2));
}
