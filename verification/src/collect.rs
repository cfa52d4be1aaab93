//! Lists collected from a tree so that they can be walked again later without querying the tree:
//! chosen elements with data, and colliding pairs with data.
use vstd::prelude::*;
use crate::bbox::{BBox, all_valid, same_rects};
use crate::pairs::{pair_found, same_pair, no_dup_from, later_first};
use crate::colfind::colliding_pairs;
use crate::tree::DinoTree;

verus! {

/// The entries `(k, d)` for the indices `k` whose result is `Some(d)`, in increasing order of `k`.
pub open spec fn kept<D>(res: Seq<Option<D>>) -> Seq<(usize, D)>
    decreases res.len(),
{
    if res.len() == 0 {
        Seq::empty()
    } else {
        let front = kept(res.drop_last());
        match res.last() {
            Some(d) => front.push(((res.len() - 1) as usize, d)),
            None => front,
        }
    }
}

/// Elements of a tree chosen by a function, each with the data the function gave for it.
pub struct SingleCollisionList<D> {
    a: Vec<(usize, D)>,
}

impl<D> SingleCollisionList<D> {
    /// The entries: an element's index in `get_bots()` and its data.
    pub closed spec fn entries(&self) -> Seq<(usize, D)> {
        self.a@
    }

    /// Calls `func` on every element of the tree, in the order of `get_bots()`, and keeps those for
    /// which it returns some data.
    pub fn collect_all<T, F: Fn(&BBox<T>) -> Option<D>>(tree: &DinoTree<T>, func: F) -> (r: SingleCollisionList<D>)
        requires
            forall|b: &BBox<T>| func.requires((b,)),
        ensures
            exists|res: Seq<Option<D>>| {
                &&& res.len() == tree.elems().len()
                &&& forall|k: int| 0 <= k < res.len() ==> func.ensures((&tree.elems()[k],), #[trigger] res[k])
                &&& r.entries() == kept(res)
            },
    {
        let bots = tree.get_bots();
        let mut a: Vec<(usize, D)> = Vec::new();
        let ghost mut res: Seq<Option<D>> = Seq::empty();
        let mut k: usize = 0;
        while k < bots.len()
            invariant
                k <= bots@.len(),
                bots@ == tree.elems(),
                forall|b: &BBox<T>| func.requires((b,)),
                res.len() == k,
                forall|j: int| 0 <= j < k ==> func.ensures((&bots@[j],), #[trigger] res[j]),
                a@ == kept(res),
            decreases bots@.len() - k,
        {
            let x = func(&bots[k]);
            let ghost res0 = res;
            proof {
                res = res.push(x);
                assert(res.drop_last() =~= res0);
            }
            match x {
                Some(d) => {
                    a.push((k, d));
                },
                None => {},
            }
            k = k + 1;
        }
        SingleCollisionList { a }
    }

    /// The entries `(k, d)` for the indices `k` whose result is `Some(d)`, for results computed
    /// elsewhere, one per element in the order of `get_bots()`.
    pub fn from_results(res: Vec<Option<D>>) -> (r: SingleCollisionList<D>)
        ensures
            r.entries() == kept(res@),
    {
        let mut rev: Vec<Option<D>> = Vec::new();
        let mut res = res;
        let ghost all = res@;
        assert(all.len() <= usize::MAX) by {
            assert(res@.len() == res.len());
        }
        while res.len() > 0
            invariant
                rev@.len() + res@.len() == all.len(),
                all.len() <= usize::MAX,
                res@ == all.subrange(0, res@.len() as int),
                forall|y: int| 0 <= y < rev@.len() ==> #[trigger] rev@[y] == all[all.len() - 1 - y],
            decreases res@.len(),
        {
            match res.pop() {
                Some(x) => {
                    rev.push(x);
                },
                None => {},
            }
        }
        let mut a: Vec<(usize, D)> = Vec::new();
        let mut k: usize = 0;
        while rev.len() > 0
            invariant
                k + rev@.len() == all.len(),
                all.len() <= usize::MAX,
                forall|y: int| 0 <= y < rev@.len() ==> #[trigger] rev@[y] == all[all.len() - 1 - y],
                a@ == kept(all.subrange(0, k as int)),
            decreases rev@.len(),
        {
            let ghost pre = all.subrange(0, k as int);
            proof {
                assert(all.subrange(0, k + 1).drop_last() =~= pre);
                assert(rev@[rev@.len() - 1] == all[k as int]);
            }
            match rev.pop() {
                Some(x) => {
                    match x {
                        Some(d) => {
                            a.push((k, d));
                        },
                        None => {},
                    }
                },
                None => {},
            }
            k = k + 1;
        }
        proof {
            assert(all.subrange(0, k as int) =~= all);
        }
        SingleCollisionList { a }
    }

    /// The entries.
    pub fn get(&self) -> (r: &[(usize, D)])
        ensures
            r@ == self.entries(),
    {
        self.a.as_slice()
    }

    /// Walks the entries in order over the tree they were collected from: `func` gets the data of
    /// the entry's element and the entry's data, and gives their new values. The rectangles, and
    /// so the tree's shape, stay as they are.
    pub fn for_every_mut<T, F: Fn(&T, &D) -> (T, D)>(&mut self, tree: &mut DinoTree<T>, func: F)
        requires
            forall|a: &T, d: &D| func.requires((a, d)),
            forall|x: int| 0 <= x < old(self).entries().len() ==> (#[trigger] old(self).entries()[x]).0 < old(tree).elems().len(),
        ensures
            exists|st: Seq<Seq<T>>| single_walk(func, old(self).entries(), final(self).entries(), st) && st[0] == inners(
                old(tree).elems(),
            ) && st.last() == inners(final(tree).elems()),
            same_rects(old(tree).elems(), final(tree).elems()),
            final(tree).nodes() == old(tree).nodes(),
    {
        let ghost e0 = tree.elems();
        let ghost a0 = self.a@;
        let ghost mut st: Seq<Seq<T>> = seq![inners(tree.elems())];
        let mut out: Vec<(usize, D)> = Vec::new();
        let mut x: usize = 0;
        while x < self.a.len()
            invariant
                x <= self.a@.len(),
                self.a@ == a0,
                a0 == old(self).entries(),
                forall|a: &T, d: &D| func.requires((a, d)),
                forall|y: int| 0 <= y < a0.len() ==> (#[trigger] a0[y]).0 < e0.len(),
                e0 == old(tree).elems(),
                same_rects(e0, tree.elems()),
                tree.nodes() == old(tree).nodes(),
                out@.len() == x,
                st.len() == x + 1,
                st[0] == inners(e0),
                st[x as int] == inners(tree.elems()),
                single_walk(func, a0.take(x as int), out@, st),
            decreases self.a@.len() - x,
        {
            let ghost e1 = tree.elems();
            let k = self.a[x].0;
            let (nv, nd) = {
                let bots = tree.get_bots();
                func(&bots[k].inner, &self.a[x].1)
            };
            let ghost gnv = nv;
            proof {
                assert(inners(e1)[k as int] == e1[k as int].inner);
            }
            tree.set_inner(k, nv);
            let ghost o_old = out@;
            out.push((k, nd));
            proof {
                let e2 = tree.elems();
                assert(inners(e2) =~= inners(e1).update(k as int, gnv));
                let st1 = st.push(inners(e2));
                let c = a0.take(x + 1);
                assert forall|y: int| #![trigger c[y]] 0 <= y < c.len() implies {
                    &&& out@[y].0 == c[y].0
                    &&& exists|nv: T| #[trigger] func.ensures((&st1[y][c[y].0 as int], &c[y].1), (nv, out@[y].1)) && st1[y + 1]
                        == st1[y].update(c[y].0 as int, nv)
                } by {
                    if y < x {
                        assert(c[y] == a0.take(x as int)[y]);
                        assert(out@[y] == o_old[y]);
                        assert(st1[y] == st[y] && st1[y + 1] == st[y + 1]);
                    } else {
                        assert(c[y] == a0[x as int]);
                        assert(st1[y] == inners(e1));
                        assert(func.ensures((&st1[y][c[y].0 as int], &c[y].1), (gnv, out@[y].1)));
                    }
                }
                assert(c.len() == x + 1 && out@.len() == x + 1 && st1.len() == x + 2);
                assert(single_walk(func, c, out@, st1));
                assert forall|j: int| 0 <= j < e0.len() implies (#[trigger] e2[j]).rect == e0[j].rect by {
                    assert(e1[j].rect == e0[j].rect);
                }
                st = st1;
            }
            x = x + 1;
        }
        proof {
            assert(a0.take(a0.len() as int) =~= a0);
            assert(st.last() == st[x as int]);
        }
        self.a = out;
    }
}

/// The entry `(i, j, _)` or `(j, i, _)` is in the list.
pub open spec fn pair_listed<D>(cols: Seq<(usize, usize, D)>, i: int, j: int) -> bool {
    exists|x: int| 0 <= x < cols.len() && ((#[trigger] cols[x]).0 == i && cols[x].1 == j || cols[x].0 == j && cols[x].1 == i)
}

/// Entries `x` and `y` of the list name the same two elements.
pub open spec fn same_entry<D>(cols: Seq<(usize, usize, D)>, x: int, y: int) -> bool {
    same_pair((cols[x].0, cols[x].1), (cols[y].0, cols[y].1))
}

/// The list holds colliding pairs of the elements of `bots`, each once, with data that `func`
/// gave for it, and every colliding pair is either listed or was given no data.
pub open spec fn collected_pairs<T, D, F: Fn(&BBox<T>, &BBox<T>) -> Option<D>>(cols: Seq<(usize, usize, D)>, bots: Seq<BBox<T>>, func: F) -> bool {
    &&& forall|x: int, y: int| 0 <= x < y < cols.len() ==> !#[trigger] same_entry(cols, x, y)
    &&& forall|x: int| 0 <= x < cols.len() ==> {
        let c = #[trigger] cols[x];
        &&& c.0 < bots.len()
        &&& c.1 < bots.len()
        &&& c.0 != c.1
        &&& bots[c.0 as int].rect.meets(bots[c.1 as int].rect)
        &&& func.ensures((&bots[c.0 as int], &bots[c.1 as int]), Some(c.2))
    }
    &&& forall|i: int, j: int|
        0 <= i < j < bots.len() && #[trigger] bots[i].rect.meets(#[trigger] bots[j].rect) ==> pair_listed(cols, i, j)
            || func.ensures((&bots[i], &bots[j]), None::<D>) || func.ensures((&bots[j], &bots[i]), None::<D>)
}

/// Keeps the pairs of `pairs` for which `func` returns some data.
fn keep_pairs<T, D, F: Fn(&BBox<T>, &BBox<T>) -> Option<D>>(bots: &[BBox<T>], pairs: &Vec<(usize, usize)>, func: &F) -> (cols: Vec<(usize, usize, D)>)
    requires
        colliding_pairs(pairs@, bots@),
        no_dup_from(pairs@, 0),
        forall|a: &BBox<T>, b: &BBox<T>| func.requires((a, b)),
    ensures
        collected_pairs(cols@, bots@, *func),
        later_first(pairs@, 0) ==> forall|y: int| 0 <= y < cols@.len() ==> (#[trigger] cols@[y]).1 < cols@[y].0,
{
    let mut cols: Vec<(usize, usize, D)> = Vec::new();
    let mut x: usize = 0;
    while x < pairs.len()
        invariant
            x <= pairs@.len(),
            colliding_pairs(pairs@, bots@),
            no_dup_from(pairs@, 0),
            forall|a: &BBox<T>, b: &BBox<T>| func.requires((a, b)),
            forall|y: int, z: int| 0 <= y < z < cols@.len() ==> !#[trigger] same_entry(cols@, y, z),
            forall|y: int| 0 <= y < cols@.len() ==> exists|z: int| 0 <= z < x && (#[trigger] cols@[y]).0 == pairs@[z].0
                && cols@[y].1 == pairs@[z].1,
            forall|y: int| 0 <= y < cols@.len() ==> {
                let c = #[trigger] cols@[y];
                &&& c.0 < bots@.len()
                &&& c.1 < bots@.len()
                &&& c.0 != c.1
                &&& bots@[c.0 as int].rect.meets(bots@[c.1 as int].rect)
                &&& func.ensures((&bots@[c.0 as int], &bots@[c.1 as int]), Some(c.2))
            },
            forall|y: int| 0 <= y < x ==> pair_listed(cols@, #[trigger] pairs@[y].0 as int, pairs@[y].1 as int)
                || func.ensures((&bots@[pairs@[y].0 as int], &bots@[pairs@[y].1 as int]), None::<D>),
        decreases pairs@.len() - x,
    {
        let (a, b) = pairs[x];
        let ghost before = cols@;
        let res = func(&bots[a], &bots[b]);
        match res {
            Some(d) => {
                cols.push((a, b, d));
                proof {
                    assert(cols@[before.len() as int].0 == a && cols@[before.len() as int].1 == b);
                    assert forall|y: int, z: int| 0 <= y < z < cols@.len() implies !#[trigger] same_entry(cols@, y, z) by {
                        assert(cols@[y] == before[y]);
                        if z < before.len() {
                            assert(cols@[z] == before[z]);
                            assert(!same_entry(before, y, z));
                        } else {
                            let w = choose|w: int| 0 <= w < x && (#[trigger] before[y]).0 == pairs@[w].0 && before[y].1 == pairs@[w].1;
                            assert(!same_pair(pairs@[w], pairs@[x as int]));
                        }
                    }
                    assert forall|y: int| 0 <= y < cols@.len() implies exists|z: int| 0 <= z < x + 1 && (#[trigger] cols@[y]).0
                        == pairs@[z].0 && cols@[y].1 == pairs@[z].1 by {
                        if y < before.len() {
                            assert(cols@[y] == before[y]);
                            let w = choose|w: int| 0 <= w < x && (#[trigger] before[y]).0 == pairs@[w].0 && before[y].1 == pairs@[w].1;
                        } else {
                            assert(cols@[y].0 == pairs@[x as int].0);
                        }
                    }
                }
            },
            None => {},
        }
        proof {
            assert forall|y: int| 0 <= y < x + 1 implies pair_listed(cols@, #[trigger] pairs@[y].0 as int, pairs@[y].1 as int)
                || func.ensures((&bots@[pairs@[y].0 as int], &bots@[pairs@[y].1 as int]), None::<D>) by {
                if y < x && pair_listed(before, pairs@[y].0 as int, pairs@[y].1 as int) {
                    let z = choose|z: int| 0 <= z < before.len() && ((#[trigger] before[z]).0 == pairs@[y].0 && before[z].1 == pairs@[y].1
                        || before[z].0 == pairs@[y].1 && before[z].1 == pairs@[y].0);
                    assert(cols@[z] == before[z]);
                }
            }
        }
        x = x + 1;
    }
    proof {
        assert forall|i: int, j: int|
            0 <= i < j < bots@.len() && #[trigger] bots@[i].rect.meets(#[trigger] bots@[j].rect) implies pair_listed(cols@, i, j)
                || func.ensures((&bots@[i], &bots@[j]), None::<D>) || func.ensures((&bots@[j], &bots@[i]), None::<D>) by {
            assert(pair_found(pairs@, i, j));
            let y = choose|y: int| 0 <= y < pairs@.len() && ((#[trigger] pairs@[y]).0 == i && pairs@[y].1 == j
                || pairs@[y].0 == j && pairs@[y].1 == i);
            if pair_listed(cols@, pairs@[y].0 as int, pairs@[y].1 as int) {
                let z = choose|z: int| 0 <= z < cols@.len() && ((#[trigger] cols@[z]).0 == pairs@[y].0 && cols@[z].1 == pairs@[y].1
                    || cols@[z].0 == pairs@[y].1 && cols@[z].1 == pairs@[y].0);
                assert(cols@[z].0 == i && cols@[z].1 == j || cols@[z].0 == j && cols@[z].1 == i);
            }
        }
        if later_first(pairs@, 0) {
            assert forall|y: int| 0 <= y < cols@.len() implies (#[trigger] cols@[y]).1 < cols@[y].0 by {
                let z = choose|z: int| 0 <= z < pairs@.len() && (#[trigger] cols@[y]).0 == pairs@[z].0 && cols@[y].1 == pairs@[z].1;
                assert(pairs@[z].1 < pairs@[z].0);
            }
        }
    }
    cols
}

/// The data of the elements.
pub open spec fn inners<T>(s: Seq<BBox<T>>) -> Seq<T> {
    s.map_values(|b: BBox<T>| b.inner)
}

/// Walking the entries `e0` in order, `func` took the data of the entry's element and the entry's
/// data and gave their new values: `e1` has the entries' new data, and `st[x]` is the data of all
/// the elements before entry `x` is walked.
pub open spec fn single_walk<T, D, F: Fn(&T, &D) -> (T, D)>(func: F, e0: Seq<(usize, D)>, e1: Seq<(usize, D)>, st: Seq<Seq<T>>) -> bool {
    &&& st.len() == e0.len() + 1
    &&& e1.len() == e0.len()
    &&& forall|x: int| #![trigger e0[x]] 0 <= x < e0.len() ==> {
        &&& e1[x].0 == e0[x].0
        &&& exists|nv: T| #[trigger] func.ensures((&st[x][e0[x].0 as int], &e0[x].1), (nv, e1[x].1)) && st[x + 1]
            == st[x].update(e0[x].0 as int, nv)
    }
}

/// Walking the pairs `p0` in order, `func` took the data of the pair's two elements and the
/// pair's data and gave their new values: `p1` has the pairs' new data, and `st[x]` is the data of
/// all the elements before pair `x` is walked.
pub open spec fn pair_walk<T, D, F: Fn(&T, &T, &D) -> (T, T, D)>(
    func: F,
    p0: Seq<(usize, usize, D)>,
    p1: Seq<(usize, usize, D)>,
    st: Seq<Seq<T>>,
) -> bool {
    &&& st.len() == p0.len() + 1
    &&& p1.len() == p0.len()
    &&& forall|x: int| #![trigger p0[x]] 0 <= x < p0.len() ==> {
        &&& p1[x].0 == p0[x].0
        &&& p1[x].1 == p0[x].1
        &&& exists|na: T, nb: T| #[trigger] func.ensures((&st[x][p0[x].0 as int], &st[x][p0[x].1 as int], &p0[x].2), (na, nb, p1[x].2))
            && st[x + 1] == st[x].update(p0[x].0 as int, na).update(p0[x].1 as int, nb)
    }
}

/// Walking the groups `g0` in order, the pairs of each in order as `pair_walk` says with the
/// states `sts[g]`: `g1` has the pairs' new data, and `marks[g]` is the data of all the elements
/// before group `g` is walked.
pub open spec fn group_walk<T, D, F: Fn(&T, &T, &D) -> (T, T, D)>(
    func: F,
    g0: Seq<Seq<(usize, usize, D)>>,
    g1: Seq<Seq<(usize, usize, D)>>,
    marks: Seq<Seq<T>>,
    sts: Seq<Seq<Seq<T>>>,
) -> bool {
    &&& marks.len() == g0.len() + 1
    &&& g1.len() == g0.len()
    &&& sts.len() == g0.len()
    &&& forall|g: int| #![trigger g0[g]] 0 <= g < g0.len() ==> pair_walk(func, g0[g], g1[g], sts[g]) && sts[g][0] == marks[g]
        && sts[g].last() == marks[g + 1]
}

/// Walks the pairs in order: `func` gets the data of the pair's two elements and the pair's data,
/// and gives their new values.
fn walk_pairs<T, D, F: Fn(&T, &T, &D) -> (T, T, D)>(cols: &Vec<(usize, usize, D)>, tree: &mut DinoTree<T>, func: &F) -> (out: Vec<(usize, usize, D)>)
    requires
        forall|a: &T, b: &T, d: &D| func.requires((a, b, d)),
        forall|x: int| 0 <= x < cols@.len() ==> (#[trigger] cols@[x]).0 < old(tree).elems().len() && cols@[x].1 < old(tree).elems().len(),
    ensures
        exists|st: Seq<Seq<T>>| pair_walk(*func, cols@, out@, st) && st[0] == inners(old(tree).elems()) && st.last() == inners(final(tree).elems()),
        same_rects(old(tree).elems(), final(tree).elems()),
        final(tree).nodes() == old(tree).nodes(),
        final(tree).first_axis() == old(tree).first_axis(),
        final(tree).levels() == old(tree).levels(),
{
    let ghost e0 = tree.elems();
    let ghost mut st: Seq<Seq<T>> = seq![inners(tree.elems())];
    let mut out: Vec<(usize, usize, D)> = Vec::new();
    let mut x: usize = 0;
    while x < cols.len()
        invariant
            x <= cols@.len(),
            forall|a: &T, b: &T, d: &D| func.requires((a, b, d)),
            forall|y: int| 0 <= y < cols@.len() ==> (#[trigger] cols@[y]).0 < e0.len() && cols@[y].1 < e0.len(),
            same_rects(e0, tree.elems()),
            tree.nodes() == old(tree).nodes(),
            tree.first_axis() == old(tree).first_axis(),
            tree.levels() == old(tree).levels(),
            e0 == old(tree).elems(),
            out@.len() == x,
            st.len() == x + 1,
            st[0] == inners(e0),
            st[x as int] == inners(tree.elems()),
            pair_walk(*func, cols@.take(x as int), out@, st),
        decreases cols@.len() - x,
    {
        let ghost e1 = tree.elems();
        let a = cols[x].0;
        let b = cols[x].1;
        let (na, nb, nd) = {
            let bots = tree.get_bots();
            func(&bots[a].inner, &bots[b].inner, &cols[x].2)
        };
        let ghost gna = na;
        let ghost gnb = nb;
        proof {
            assert(inners(e1)[a as int] == e1[a as int].inner);
            assert(inners(e1)[b as int] == e1[b as int].inner);
        }
        tree.set_inner(a, na);
        tree.set_inner(b, nb);
        let ghost p_old = out@;
        out.push((a, b, nd));
        proof {
            let e2 = tree.elems();
            assert(inners(e2) =~= inners(e1).update(a as int, gna).update(b as int, gnb));
            let st1 = st.push(inners(e2));
            let c = cols@.take(x + 1);
            assert forall|y: int| #![trigger c[y]] 0 <= y < c.len() implies {
                &&& out@[y].0 == c[y].0
                &&& out@[y].1 == c[y].1
                &&& exists|na: T, nb: T| #[trigger] func.ensures((&st1[y][c[y].0 as int], &st1[y][c[y].1 as int], &c[y].2), (na, nb, out@[y].2))
                    && st1[y + 1] == st1[y].update(c[y].0 as int, na).update(c[y].1 as int, nb)
            } by {
                if y < x {
                    assert(c[y] == cols@.take(x as int)[y]);
                    assert(out@[y] == p_old[y]);
                    assert(st1[y] == st[y] && st1[y + 1] == st[y + 1]);
                } else {
                    assert(c[y] == cols@[x as int]);
                    assert(st1[y] == inners(e1));
                    assert(func.ensures((&st1[y][c[y].0 as int], &st1[y][c[y].1 as int], &c[y].2), (gna, gnb, out@[y].2)));
                }
            }
            assert forall|k: int| 0 <= k < e0.len() implies (#[trigger] e2[k]).rect == e0[k].rect by {
                assert(e1[k].rect == e0[k].rect);
            }
            st = st1;
        }
        x = x + 1;
    }
    proof {
        assert(cols@.take(cols@.len() as int) =~= cols@);
        assert(st.last() == st[x as int]);
    }
    out
}

/// The pairs given data: `(i, j, d)` for each pair `(i, j)` of `pairs` whose entry of `ods` is
/// `Some(d)`, in order.
pub open spec fn kept_pairs<D>(pairs: Seq<(usize, usize)>, ods: Seq<Option<D>>) -> Seq<(usize, usize, D)>
    decreases pairs.len(),
{
    if pairs.len() == 0 || ods.len() != pairs.len() {
        Seq::empty()
    } else {
        let front = kept_pairs(pairs.drop_last(), ods.drop_last());
        match ods.last() {
            Some(d) => front.push((pairs.last().0, pairs.last().1, d)),
            None => front,
        }
    }
}

/// `func`, given the elements `p.0` and `p.1` of `e0`, gave their new data, which makes `e1`,
/// and the entry `od`.
pub open spec fn collect_step<T, D, F: Fn(&BBox<T>, &BBox<T>) -> (T, T, Option<D>)>(
    func: F,
    e0: Seq<BBox<T>>,
    e1: Seq<BBox<T>>,
    p: (usize, usize),
    od: Option<D>,
) -> bool {
    exists|na: T, nb: T| #[trigger] func.ensures((&e0[p.0 as int], &e0[p.1 as int]), (na, nb, od)) && e1 == e0.update(
        p.0 as int,
        BBox { rect: e0[p.0 as int].rect, inner: na },
    ).update(p.1 as int, BBox { rect: e0[p.1 as int].rect, inner: nb })
}

/// Walking the pairs in order, `func` got the pair's two elements as they stood, `es[x]` before
/// pair `x`, and gave their new data and the entry `ods[x]` for the pair.
pub open spec fn collect_walk<T, D, F: Fn(&BBox<T>, &BBox<T>) -> (T, T, Option<D>)>(
    func: F,
    pairs: Seq<(usize, usize)>,
    ods: Seq<Option<D>>,
    es: Seq<Seq<BBox<T>>>,
) -> bool {
    &&& ods.len() == pairs.len()
    &&& es.len() == pairs.len() + 1
    &&& forall|x: int| 0 <= x < pairs.len() ==> #[trigger] collect_step(func, es[x], es[x + 1], pairs[x], ods[x])
}

/// Colliding pairs of a tree's elements, each with data, collected once to be walked many times.
pub struct BotCollision<D> {
    cols: Vec<(usize, usize, D)>,
}

impl<D> BotCollision<D> {
    /// The pairs, by index in `get_bots()`, with their data.
    pub closed spec fn pairs(&self) -> Seq<(usize, usize, D)> {
        self.cols@
    }

    /// Finds the colliding pairs of the tree and walks them in order: `func` gets the pair's two
    /// elements, the later of the two in `get_bots()` first, and gives their new data and, maybe,
    /// data for the pair; the pairs given data are kept, in order. The rectangles, and so the
    /// tree's shape, stay as they are.
    pub fn collect_intersections_list<T, F: Fn(&BBox<T>, &BBox<T>) -> (T, T, Option<D>)>(tree: &mut DinoTree<T>, func: F) -> (r: BotCollision<D>)
        requires
            all_valid(old(tree).elems()),
            forall|a: &BBox<T>, b: &BBox<T>| func.requires((a, b)),
        ensures
            exists|pairs: Seq<(usize, usize)>, ods: Seq<Option<D>>, es: Seq<Seq<BBox<T>>>| {
                &&& colliding_pairs(pairs, old(tree).elems())
                &&& no_dup_from(pairs, 0)
                &&& later_first(pairs, 0)
                &&& collect_walk(func, pairs, ods, es)
                &&& es[0] == old(tree).elems()
                &&& es.last() == final(tree).elems()
                &&& r.pairs() == kept_pairs(pairs, ods)
            },
            same_rects(old(tree).elems(), final(tree).elems()),
            final(tree).nodes() == old(tree).nodes(),
    {
        let pairs = tree.find_intersections_mut();
        let ghost e0 = tree.elems();
        let ghost mut ods: Seq<Option<D>> = Seq::empty();
        let ghost mut es: Seq<Seq<BBox<T>>> = seq![tree.elems()];
        let mut cols: Vec<(usize, usize, D)> = Vec::new();
        let mut x: usize = 0;
        while x < pairs.len()
            invariant
                x <= pairs@.len(),
                colliding_pairs(pairs@, e0),
                forall|a: &BBox<T>, b: &BBox<T>| func.requires((a, b)),
                e0 == old(tree).elems(),
                same_rects(e0, tree.elems()),
                tree.nodes() == old(tree).nodes(),
                ods.len() == x,
                es.len() == x + 1,
                es[0] == e0,
                es[x as int] == tree.elems(),
                collect_walk(func, pairs@.take(x as int), ods, es),
                cols@ == kept_pairs(pairs@.take(x as int), ods),
            decreases pairs@.len() - x,
        {
            let ghost e1 = tree.elems();
            let a = pairs[x].0;
            let b = pairs[x].1;
            proof {
                assert(pairs@[x as int].0 < e0.len() && pairs@[x as int].1 < e0.len());
            }
            let (na, nb, od) = {
                let bots = tree.get_bots();
                func(&bots[a], &bots[b])
            };
            let ghost gna = na;
            let ghost gnb = nb;
            let ghost god = od;
            tree.set_inner(a, na);
            tree.set_inner(b, nb);
            let ghost c_old = cols@;
            match od {
                Some(d) => {
                    cols.push((a, b, d));
                },
                None => {},
            }
            proof {
                let e2 = tree.elems();
                let es1 = es.push(e2);
                let ods1 = ods.push(god);
                let p1 = pairs@.take(x + 1);
                assert(p1.drop_last() =~= pairs@.take(x as int));
                assert(ods1.drop_last() =~= ods);
                assert(e2 =~= e1.update(a as int, BBox { rect: e1[a as int].rect, inner: gna }).update(
                    b as int,
                    BBox { rect: e1[b as int].rect, inner: gnb },
                ));
                assert(collect_step(func, e1, e2, pairs@[x as int], god)) by {
                    assert(func.ensures((&e1[a as int], &e1[b as int]), (gna, gnb, god)));
                }
                assert forall|y: int| 0 <= y < p1.len() implies #[trigger] collect_step(func, es1[y], es1[y + 1], p1[y], ods1[y]) by {
                    if y < x {
                        assert(p1[y] == pairs@.take(x as int)[y]);
                        assert(es1[y] == es[y] && es1[y + 1] == es[y + 1]);
                        assert(ods1[y] == ods[y]);
                        assert(collect_step(func, es[y], es[y + 1], pairs@.take(x as int)[y], ods[y]));
                    } else {
                        assert(p1[y] == pairs@[x as int]);
                        assert(es1[y] == e1 && es1[y + 1] == e2);
                    }
                }
                assert(p1.len() == x + 1 && ods1.len() == x + 1 && es1.len() == x + 2);
                assert(collect_walk(func, p1, ods1, es1));
                assert(cols@ == kept_pairs(p1, ods1));
                assert forall|j: int| 0 <= j < e0.len() implies (#[trigger] e2[j]).rect == e0[j].rect by {
                    assert(e1[j].rect == e0[j].rect);
                }
                es = es1;
                ods = ods1;
            }
            x = x + 1;
        }
        proof {
            assert(pairs@.take(pairs@.len() as int) =~= pairs@);
            assert(es.last() == es[x as int]);
        }
        BotCollision { cols }
    }

    /// The pairs with their data.
    pub fn get(&self) -> (r: &[(usize, usize, D)])
        ensures
            r@ == self.pairs(),
    {
        self.cols.as_slice()
    }

    /// Walks the pairs in order over the tree they were collected from: `func` gets the data of
    /// the pair's two elements and the pair's data, and gives their new values. The rectangles,
    /// and so the tree's shape, stay as they are.
    pub fn for_every_pair_mut<T, F: Fn(&T, &T, &D) -> (T, T, D)>(&mut self, tree: &mut DinoTree<T>, func: F)
        requires
            forall|a: &T, b: &T, d: &D| func.requires((a, b, d)),
            forall|x: int| 0 <= x < old(self).pairs().len() ==> (#[trigger] old(self).pairs()[x]).0 < old(tree).elems().len()
                && old(self).pairs()[x].1 < old(tree).elems().len(),
        ensures
            exists|st: Seq<Seq<T>>| pair_walk(func, old(self).pairs(), final(self).pairs(), st) && st[0] == inners(old(tree).elems())
                && st.last() == inners(final(tree).elems()),
            same_rects(old(tree).elems(), final(tree).elems()),
            final(tree).nodes() == old(tree).nodes(),
    {
        proof {
            assert forall|x: int| 0 <= x < self.cols@.len() implies (#[trigger] self.cols@[x]).0 < tree.elems().len()
                && self.cols@[x].1 < tree.elems().len() by {
                assert(self.cols@[x] == old(self).pairs()[x]);
            }
        }
        let out = walk_pairs(&self.cols, tree, &func);
        self.cols = out;
    }
}

/// Colliding pairs with data in groups, one group per part of the tree that a parallel walk hands
/// out.
pub struct BotCollisionPar<D> {
    cols: Vec<Vec<(usize, usize, D)>>,
}

impl<D> BotCollisionPar<D> {
    /// The groups of pairs.
    pub closed spec fn groups(&self) -> Seq<Seq<(usize, usize, D)>> {
        self.cols@.map_values(|v: Vec<(usize, usize, D)>| v@)
    }

    /// Groups the given lists of pairs.
    pub fn new(cols: Vec<Vec<(usize, usize, D)>>) -> (r: BotCollisionPar<D>)
        ensures
            r.groups() == cols@.map_values(|v: Vec<(usize, usize, D)>| v@),
    {
        BotCollisionPar { cols }
    }

    /// The groups of pairs, taken out.
    pub fn into_groups(self) -> (r: Vec<Vec<(usize, usize, D)>>)
        ensures
            r@.map_values(|v: Vec<(usize, usize, D)>| v@) == self.groups(),
    {
        self.cols
    }

    /// Walks the groups in order, and the pairs of each group in order, over the tree they were
    /// collected from: `func` gets the data of the pair's two elements and the pair's data, and
    /// gives their new values. The rectangles, and so the tree's shape, stay as they are.
    pub fn for_every_pair_mut<T, F: Fn(&T, &T, &D) -> (T, T, D)>(&mut self, tree: &mut DinoTree<T>, func: F)
        requires
            forall|a: &T, b: &T, d: &D| func.requires((a, b, d)),
            forall|g: int, x: int| 0 <= g < old(self).groups().len() && 0 <= x < old(self).groups()[g].len()
                ==> (#[trigger] old(self).groups()[g][x]).0 < old(tree).elems().len() && old(self).groups()[g][x].1
                < old(tree).elems().len(),
        ensures
            exists|marks: Seq<Seq<T>>, sts: Seq<Seq<Seq<T>>>| group_walk(func, old(self).groups(), final(self).groups(), marks, sts)
                && marks[0] == inners(old(tree).elems()) && marks.last() == inners(final(tree).elems()),
            same_rects(old(tree).elems(), final(tree).elems()),
            final(tree).nodes() == old(tree).nodes(),
    {
        let ghost g0 = self.groups();
        let ghost e0 = tree.elems();
        let ghost mut marks: Seq<Seq<T>> = seq![inners(tree.elems())];
        let ghost mut sts: Seq<Seq<Seq<T>>> = Seq::empty();
        let mut out: Vec<Vec<(usize, usize, D)>> = Vec::new();
        let mut g: usize = 0;
        while g < self.cols.len()
            invariant
                g <= self.cols@.len(),
                self.cols@ == old(self).cols@,
                g0 == old(self).groups(),
                g0.len() == self.cols@.len(),
                forall|h: int| 0 <= h < g0.len() ==> #[trigger] g0[h] == self.cols@[h]@,
                forall|a: &T, b: &T, d: &D| func.requires((a, b, d)),
                forall|h: int, x: int| 0 <= h < g0.len() && 0 <= x < g0[h].len() ==> (#[trigger] g0[h][x]).0 < e0.len()
                    && g0[h][x].1 < e0.len(),
                e0 == old(tree).elems(),
                same_rects(e0, tree.elems()),
                tree.nodes() == old(tree).nodes(),
                out@.len() == g,
                marks.len() == g + 1,
                marks[0] == inners(e0),
                marks[g as int] == inners(tree.elems()),
                group_walk(func, g0.take(g as int), out@.map_values(|v: Vec<(usize, usize, D)>| v@), marks, sts),
            decreases self.cols@.len() - g,
        {
            let ghost e1 = tree.elems();
            let ghost o_old = out@;
            proof {
                assert forall|x: int| 0 <= x < self.cols@[g as int]@.len() implies (#[trigger] self.cols@[g as int]@[x]).0
                    < tree.elems().len() && self.cols@[g as int]@[x].1 < tree.elems().len() by {
                    assert(g0[g as int][x] == self.cols@[g as int]@[x]);
                }
            }
            let v = walk_pairs(&self.cols[g], tree, &func);
            let ghost vv = v@;
            out.push(v);
            proof {
                let e2 = tree.elems();
                let st = choose|st: Seq<Seq<T>>| pair_walk(func, self.cols@[g as int]@, vv, st) && st[0] == inners(e1)
                    && st.last() == inners(e2);
                let m1 = marks.push(inners(e2));
                let s1 = sts.push(st);
                let h0 = g0.take(g + 1);
                let h1 = out@.map_values(|v: Vec<(usize, usize, D)>| v@);
                let h1_old = o_old.map_values(|v: Vec<(usize, usize, D)>| v@);
                assert forall|h: int| #![trigger h0[h]] 0 <= h < h0.len() implies pair_walk(func, h0[h], h1[h], s1[h]) && s1[h][0]
                    == m1[h] && s1[h].last() == m1[h + 1] by {
                    if h < g {
                        assert(h0[h] == g0.take(g as int)[h]);
                        assert(h1[h] == h1_old[h]);
                        assert(s1[h] == sts[h]);
                        assert(m1[h] == marks[h] && m1[h + 1] == marks[h + 1]);
                    } else {
                        assert(h0[h] == self.cols@[g as int]@);
                        assert(h1[h] == vv);
                        assert(s1[h] == st);
                    }
                }
                assert(group_walk(func, h0, h1, m1, s1));
                sts = s1;
                assert forall|k: int| 0 <= k < e0.len() implies (#[trigger] e2[k]).rect == e0[k].rect by {
                    assert(e1[k].rect == e0[k].rect);
                }
                marks = m1;
            }
            g = g + 1;
        }
        let ghost ov = out@.map_values(|v: Vec<(usize, usize, D)>| v@);
        proof {
            assert(g0.take(g0.len() as int) =~= g0);
            assert(marks.last() == marks[g as int]);
            assert(group_walk(func, g0, ov, marks, sts));
        }
        self.cols = out;
        proof {
            assert(self.groups() =~= ov);
            assert(group_walk(func, old(self).groups(), self.groups(), marks, sts) && marks[0] == inners(old(tree).elems())
                && marks.last() == inners(tree.elems()));
        }
    }
}

/// A colliding pair with its data: copies of the pair's two elements, as they were when the pair
/// was collected, and the data.
pub struct Collision<T, D> {
    pub a: T,
    pub b: T,
    pub d: D,
}

impl<T, D> Collision<T, D> {
    /// Constructor.
    pub fn new(a: T, b: T, d: D) -> (c: Collision<T, D>)
        ensures
            c.a == a,
            c.b == b,
            c.d == d,
    {
        Collision { a, b, d }
    }
}

/// Colliding pairs of a tree's elements with data, collected once to be walked many times; each
/// entry holds copies of the pair's elements.
pub struct CollisionList<T, D> {
    nodes: Vec<Collision<T, D>>,
}

impl<T, D> CollisionList<T, D> {
    /// The entries, as `(a, b, d)`.
    pub closed spec fn pairs(&self) -> Seq<(T, T, D)> {
        self.nodes@.map_values(|c: Collision<T, D>| (c.a, c.b, c.d))
    }
}

/// `entries` holds, for each pair `(i, j, d)` of `cols` in order, copies of the elements `i` and
/// `j` of `bots`, and `d`.
pub open spec fn copies_of<T, D>(entries: Seq<(BBox<T>, BBox<T>, D)>, cols: Seq<(usize, usize, D)>, bots: Seq<BBox<T>>) -> bool {
    &&& entries.len() == cols.len()
    &&& forall|x: int| 0 <= x < cols.len() ==> #[trigger] entries[x] == (bots[cols[x].0 as int], bots[cols[x].1 as int], cols[x].2)
}

impl<T: Copy, D> CollisionList<BBox<T>, D> {
    /// Finds the colliding pairs of the tree and keeps those for which `func` returns some data,
    /// with copies of the pair's two elements, the later of the two in `get_bots()` first.
    pub fn create_collision_list<F: Fn(&BBox<T>, &BBox<T>) -> Option<D>>(tree: &DinoTree<T>, func: F) -> (r: CollisionList<BBox<T>, D>)
        requires
            all_valid(tree.elems()),
            forall|a: &BBox<T>, b: &BBox<T>| func.requires((a, b)),
        ensures
            exists|cols: Seq<(usize, usize, D)>| {
                &&& collected_pairs(cols, tree.elems(), func)
                &&& forall|x: int| 0 <= x < cols.len() ==> (#[trigger] cols[x]).1 < cols[x].0
                &&& copies_of(r.pairs(), cols, tree.elems())
            },
    {
        let pairs = tree.find_intersections_mut();
        let bots = tree.get_bots();
        let mut cols = keep_pairs(bots, &pairs, &func);
        let ghost all = cols@;
        let ghost es = tree.elems();
        let mut nodes: Vec<Collision<BBox<T>, D>> = Vec::new();
        // moves the pairs over, last first, then puts them back in order
        let mut rev: Vec<Collision<BBox<T>, D>> = Vec::new();
        while cols.len() > 0
            invariant
                rev@.len() + cols@.len() == all.len(),
                cols@ == all.subrange(0, cols@.len() as int),
                bots@ == es,
                forall|x: int| 0 <= x < all.len() ==> (#[trigger] all[x]).0 < es.len() && all[x].1 < es.len(),
                forall|y: int| 0 <= y < rev@.len() ==> {
                    let c = #[trigger] rev@[y];
                    let e = all[all.len() - 1 - y];
                    (c.a, c.b, c.d) == (es[e.0 as int], es[e.1 as int], e.2)
                },
            decreases cols@.len(),
        {
            match cols.pop() {
                Some((a, b, d)) => {
                    rev.push(Collision { a: bots[a], b: bots[b], d });
                },
                None => {},
            }
        }
        while rev.len() > 0
            invariant
                rev@.len() + nodes@.len() == all.len(),
                forall|y: int| 0 <= y < rev@.len() ==> {
                    let c = #[trigger] rev@[y];
                    let e = all[all.len() - 1 - y];
                    (c.a, c.b, c.d) == (es[e.0 as int], es[e.1 as int], e.2)
                },
                forall|y: int| 0 <= y < nodes@.len() ==> {
                    let c = #[trigger] nodes@[y];
                    let e = all[y];
                    (c.a, c.b, c.d) == (es[e.0 as int], es[e.1 as int], e.2)
                },
            decreases rev@.len(),
        {
            match rev.pop() {
                Some(c) => {
                    nodes.push(c);
                },
                None => {},
            }
        }
        let r = CollisionList { nodes };
        proof {
            assert(copies_of(r.pairs(), all, es));
        }
        r
    }
}

impl<T, D> CollisionList<T, D> {
    /// Replaces the data of every pair by what `func` returns for the copies of the pair's
    /// elements and the pair's data.
    pub fn for_every_pair_mut<F: Fn(&T, &T, &D) -> D>(&mut self, func: F)
        requires
            forall|a: &T, b: &T, d: &D| func.requires((a, b, d)),
        ensures
            final(self).pairs().len() == old(self).pairs().len(),
            forall|x: int| 0 <= x < old(self).pairs().len() ==> {
                &&& (#[trigger] final(self).pairs()[x]).0 == old(self).pairs()[x].0
                &&& final(self).pairs()[x].1 == old(self).pairs()[x].1
                &&& func.ensures((&old(self).pairs()[x].0, &old(self).pairs()[x].1, &old(self).pairs()[x].2), final(self).pairs()[x].2)
            },
    {
        let mut out: Vec<Collision<T, D>> = Vec::new();
        let mut nodes: Vec<Collision<T, D>> = Vec::new();
        core::mem::swap(&mut nodes, &mut self.nodes);
        let ghost n0 = nodes@;
        // takes the entries out, last first, and puts them back in order
        let mut rev: Vec<Collision<T, D>> = Vec::new();
        while nodes.len() > 0
            invariant
                rev@.len() + nodes@.len() == n0.len(),
                nodes@ == n0.subrange(0, nodes@.len() as int),
                forall|a: &T, b: &T, d: &D| func.requires((a, b, d)),
                forall|y: int| 0 <= y < rev@.len() ==> {
                    let c = #[trigger] rev@[y];
                    let o = n0[n0.len() - 1 - y];
                    &&& c.a == o.a
                    &&& c.b == o.b
                    &&& func.ensures((&o.a, &o.b, &o.d), c.d)
                },
            decreases nodes@.len(),
        {
            match nodes.pop() {
                Some(c) => {
                    let d = func(&c.a, &c.b, &c.d);
                    rev.push(Collision { a: c.a, b: c.b, d });
                },
                None => {},
            }
        }
        while rev.len() > 0
            invariant
                rev@.len() + out@.len() == n0.len(),
                forall|y: int| 0 <= y < rev@.len() ==> {
                    let c = #[trigger] rev@[y];
                    let o = n0[n0.len() - 1 - y];
                    &&& c.a == o.a
                    &&& c.b == o.b
                    &&& func.ensures((&o.a, &o.b, &o.d), c.d)
                },
                forall|y: int| 0 <= y < out@.len() ==> {
                    let c = #[trigger] out@[y];
                    let o = n0[y];
                    &&& c.a == o.a
                    &&& c.b == o.b
                    &&& func.ensures((&o.a, &o.b, &o.d), c.d)
                },
            decreases rev@.len(),
        {
            match rev.pop() {
                Some(c) => {
                    out.push(c);
                },
                None => {},
            }
        }
        self.nodes = out;
    }
}

} // verus!
