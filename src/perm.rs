//! Orderings of items: a bijection of `0..n` onto itself, and the ways to build one.
use vstd::prelude::*;
use vstd::seq_lib::group_to_multiset_ensures;
use vstd::multiset::group_multiset_axioms;
use crate::matrix::SquareMatrixBorrower;
use crate::random::{draw_below, shuffle_items};
use crate::select::{lemma_picked_unique, picked, select_by_weight, weight_total};

verus! {

/// `s` lists each of `0..n` exactly once.
pub open spec fn is_permutation(s: Seq<usize>, n: nat) -> bool {
    &&& s.len() == n
    &&& forall|k: int| 0 <= k < s.len() ==> s[k] < n
    &&& s.no_duplicates()
}

/// `0, 1, ..., n - 1`.
pub open spec fn natural_order(n: nat) -> Seq<usize> {
    Seq::new(n, |k: int| k as usize)
}

pub proof fn lemma_natural_order_is_permutation(n: nat)
    requires
        n <= usize::MAX + 1,
    ensures
        is_permutation(natural_order(n), n),
{
    let s = natural_order(n);
    assert forall|i: int, j: int| 0 <= i < s.len() && 0 <= j < s.len() && i != j implies s[i] != s[j] by {
        assert(s[i] == i as usize && s[j] == j as usize);
    }
}

/// A reordering of a permutation is a permutation.
pub proof fn lemma_same_items_is_permutation(s: Seq<usize>, t: Seq<usize>, n: nat)
    requires
        is_permutation(t, n),
        s.to_multiset() == t.to_multiset(),
    ensures
        is_permutation(s, n),
{
    broadcast use group_to_multiset_ensures;
    s.to_multiset_ensures();
    t.to_multiset_ensures();
    assert(s.len() == t.len());
    assert forall|k: int| 0 <= k < s.len() implies s[k] < n by {
        assert(s.contains(s[k]));
        assert(s.to_multiset().count(s[k]) > 0);
        assert(t.to_multiset().count(s[k]) > 0);
        assert(t.contains(s[k]));
        let q = choose|q: int| 0 <= q < t.len() && t[q] == s[k];
    }
    t.lemma_multiset_has_no_duplicates();
    s.lemma_multiset_has_no_duplicates_conv();
}

/// An ordering of the items `0..n`.
pub struct Permutation {
    items: Vec<usize>,
}

impl View for Permutation {
    type V = Seq<usize>;

    closed spec fn view(&self) -> Seq<usize> {
        self.items@
    }
}

impl Permutation {
    pub open spec fn wf(&self) -> bool {
        is_permutation(self@, self@.len())
    }

    /// The identity ordering `0, 1, ..., n_items - 1`.
    pub fn natural(n_items: usize) -> (r: Self)
        ensures
            r.wf(),
            r@ == natural_order(n_items as nat),
    {
        let mut items: Vec<usize> = Vec::with_capacity(n_items);
        let mut k: usize = 0;
        while k < n_items
            invariant
                k <= n_items,
                items@ == natural_order(k as nat),
            decreases n_items - k,
        {
            items.push(k);
            k = k + 1;
            assert(items@ =~= natural_order(k as nat));
        }
        proof {
            lemma_natural_order_is_permutation(n_items as nat);
        }
        Permutation { items }
    }

    /// The ordering `items`, if it lists each of `0..items.len()` exactly once.
    pub fn from_vector(items: Vec<usize>) -> (r: Option<Self>)
        ensures
            r is Some <==> is_permutation(items@, items@.len()),
            r matches Some(p) ==> p@ == items@ && p.wf(),
    {
        let n = items.len();
        let mut seen: Vec<bool> = Vec::with_capacity(n);
        while seen.len() < n
            invariant
                seen.len() <= n,
                forall|x: int| 0 <= x < seen.len() ==> !seen@[x],
            decreases n - seen.len(),
        {
            seen.push(false);
        }
        let mut k: usize = 0;
        while k < n
            invariant
                n == items@.len(),
                seen@.len() == n,
                k <= n,
                forall|q: int| 0 <= q < k ==> items@[q] < n,
                items@.subrange(0, k as int).no_duplicates(),
                forall|x: int| 0 <= x < n ==> (seen@[x] <==> items@.subrange(0, k as int).contains(x as usize)),
            decreases n - k,
        {
            let x = items[k];
            if x >= n {
                return None;
            }
            if seen[x] {
                proof {
                    let q = choose|q: int| 0 <= q < k && items@.subrange(0, k as int)[q] == x;
                    assert(items@[q] == items@[k as int]);
                }
                return None;
            }
            let ghost old_seen = seen@;
            seen.set(x, true);
            proof {
                let pre = items@.subrange(0, k as int);
                assert(items@.subrange(0, k + 1) =~= pre.push(x));
                assert forall|y: int| 0 <= y < n implies (seen@[y] <==> pre.push(x).contains(y as usize)) by {
                    if y == x {
                        assert(pre.push(x)[k as int] == x);
                    } else {
                        if pre.push(x).contains(y as usize) {
                            let q = choose|q: int| 0 <= q < pre.push(x).len() && pre.push(x)[q] == y as usize;
                            assert(q < k);
                            assert(pre[q] == y as usize);
                        }
                        if pre.contains(y as usize) {
                            let q = choose|q: int| 0 <= q < pre.len() && pre[q] == y as usize;
                            assert(pre.push(x)[q] == y as usize);
                        }
                    }
                }
                assert(pre.push(x).no_duplicates()) by {
                    assert forall|a: int, b: int| 0 <= a < k + 1 && 0 <= b < k + 1 && a != b implies
                        pre.push(x)[a] != pre.push(x)[b] by {
                        if a == k {
                            assert(!pre.contains(pre[b]) || pre[b] != x);
                        } else if b == k {
                            assert(!pre.contains(pre[a]) || pre[a] != x);
                        }
                    }
                }
            }
            k = k + 1;
        }
        proof {
            assert(items@.subrange(0, n as int) =~= items@);
        }
        Some(Permutation { items })
    }

    pub fn n_items(&self) -> (r: usize)
        ensures
            r == self@.len(),
    {
        self.items.len()
    }

    /// The item at position `i`.
    pub fn get(&self, i: usize) -> (r: usize)
        requires
            i < self@.len(),
        ensures
            r == self@[i as int],
    {
        self.items[i]
    }

    /// The items in order.
    pub fn as_slice(&self) -> (r: &[usize])
        ensures
            r@ == self@,
    {
        self.items.as_slice()
    }

    /// Reorders the items uniformly at random.
    pub fn shuffle(&mut self, rng: &mut rand::rngs::StdRng)
        requires
            old(self).wf(),
        ensures
            final(self).wf(),
            final(self)@.len() == old(self)@.len(),
            final(self)@.to_multiset() == old(self)@.to_multiset(),
    {
        let ghost before = self.items@;
        shuffle_items(&mut self.items, rng);
        proof {
            lemma_same_items_is_permutation(self.items@, before, before.len());
            broadcast use group_to_multiset_ensures;
        }
    }
}

/// The state of a path under construction: `path` holds the items visited, `pool` the rest,
/// both in `0..n`, and each step went to an item at least as similar to its predecessor as
/// every item visited after it or still in the pool.
pub open spec fn path_state(sim: SquareMatrixBorrower, path: Seq<usize>, pool: Seq<usize>) -> bool {
    let n = sim.side();
    &&& path.to_multiset().add(pool.to_multiset()) == natural_order(n).to_multiset()
    &&& path.len() + pool.len() == n
    &&& forall|k: int| 0 <= k < pool.len() ==> pool[k] < n
    &&& forall|k: int| 0 <= k < path.len() ==> path[k] < n
}

/// Item `y` comes before item `x` as a successor of `c`: it is more similar to `c`, or as
/// similar with a lower index.
pub open spec fn preferred(sim: SquareMatrixBorrower, c: int, y: int, x: int) -> bool {
    sim.at(c, x) < sim.at(c, y) || (sim.at(c, x) == sim.at(c, y) && y < x)
}

/// Each item after the first is, among the items from it on, the one most similar to the
/// item before it, the lowest index among equally similar ones.
pub open spec fn is_greedy_path(sim: SquareMatrixBorrower, path: Seq<usize>) -> bool {
    forall|k: int, m: int| #![trigger path[k], path[m]] 0 <= k && k + 1 < m < path.len() ==>
        preferred(sim, path[k] as int, path[k + 1] as int, path[m] as int)
}

/// Every pool item comes after each path item's successor as a successor of that path item.
pub open spec fn pool_dominated(sim: SquareMatrixBorrower, path: Seq<usize>, pool: Seq<usize>) -> bool {
    forall|k: int, j: int| #![trigger path[k], pool[j]] 0 <= k && k + 1 < path.len() && 0 <= j < pool.len() ==>
        preferred(sim, path[k] as int, path[k + 1] as int, pool[j] as int)
}

/// Each step goes to an item of positive similarity while one remains; once none does, to
/// the lowest index of those that remain.
pub open spec fn is_similarity_walk(sim: SquareMatrixBorrower, path: Seq<usize>) -> bool {
    forall|k: int, m: int| #![trigger path[k], path[m]] 0 <= k && k + 1 < m < path.len()
        && sim.at(path[k] as int, path[k + 1] as int) == 0 ==>
        sim.at(path[k] as int, path[m] as int) == 0 && path[k + 1] < path[m]
}

/// The pool items too are dissimilar to, and above, each zero-similarity successor.
pub open spec fn pool_walked(sim: SquareMatrixBorrower, path: Seq<usize>, pool: Seq<usize>) -> bool {
    forall|k: int, j: int| #![trigger path[k], pool[j]] 0 <= k && k + 1 < path.len() && 0 <= j < pool.len()
        && sim.at(path[k] as int, path[k + 1] as int) == 0 ==>
        sim.at(path[k] as int, pool[j] as int) == 0 && path[k + 1] < pool[j]
}

pub open spec fn increasing(s: Seq<usize>) -> bool {
    forall|a: int, b: int| 0 <= a < b < s.len() ==> s[a] < s[b]
}

proof fn lemma_remove_increasing(s: Seq<usize>, idx: int)
    requires
        increasing(s),
        0 <= idx < s.len(),
    ensures
        increasing(s.remove(idx)),
{
    let t = s.remove(idx);
    assert forall|a: int, b: int| 0 <= a < b < t.len() implies t[a] < t[b] by {
        let oa = if a < idx { a } else { a + 1 };
        let ob = if b < idx { b } else { b + 1 };
        assert(t[a] == s[oa] && t[b] == s[ob]);
    }
}

proof fn lemma_walk_step(sim: SquareMatrixBorrower, path: Seq<usize>, pool: Seq<usize>, pick: int)
    requires
        path.len() >= 1,
        0 <= pick < pool.len(),
        increasing(pool),
        is_similarity_walk(sim, path),
        pool_walked(sim, path, pool),
        sim.at(path.last() as int, pool[pick] as int) == 0 ==> pick == 0
            && forall|q: int| 0 <= q < pool.len() ==> sim.at(path.last() as int, #[trigger] pool[q] as int) == 0,
    ensures
        is_similarity_walk(sim, path.push(pool[pick])),
        pool_walked(sim, path.push(pool[pick]), pool.remove(pick)),
        increasing(pool.remove(pick)),
{
    lemma_remove_increasing(pool, pick);
    let np = path.push(pool[pick]);
    let nq = pool.remove(pick);
    assert forall|k: int, q: int| #![trigger np[k], nq[q]] 0 <= k && k + 1 < np.len() && 0 <= q < nq.len()
        && sim.at(np[k] as int, np[k + 1] as int) == 0 implies
        sim.at(np[k] as int, nq[q] as int) == 0 && np[k + 1] < nq[q] by {
        let oq = if q < pick { q } else { q + 1 };
        assert(nq[q] == pool[oq]);
        if k + 1 == path.len() {
            assert(np[k] == path.last());
            assert(oq > 0);
            assert(pool[0] < pool[oq]);
        } else {
            assert(np[k] == path[k] && np[k + 1] == path[k + 1]);
        }
    }
    assert forall|k: int, m: int| #![trigger np[k], np[m]] 0 <= k && k + 1 < m < np.len()
        && sim.at(np[k] as int, np[k + 1] as int) == 0 implies
        sim.at(np[k] as int, np[m] as int) == 0 && np[k + 1] < np[m] by {
        assert(np[k] == path[k] && np[k + 1] == path[k + 1]);
        if m == path.len() {
            assert(np[m] == pool[pick]);
        } else {
            assert(np[m] == path[m]);
        }
    }
}

proof fn lemma_path_step(sim: SquareMatrixBorrower, path: Seq<usize>, pool: Seq<usize>, idx: int)
    requires
        path_state(sim, path, pool),
        0 <= idx < pool.len(),
    ensures
        path_state(sim, path.push(pool[idx]), pool.remove(idx)),
{
    broadcast use group_to_multiset_ensures;
    broadcast use group_multiset_axioms;
    let x = pool[idx];
    assert(pool.contains(x));
    assert(path.push(x).to_multiset().add(pool.remove(idx).to_multiset())
        =~= path.to_multiset().add(pool.to_multiset()));
    assert forall|k: int| 0 <= k < pool.remove(idx).len() implies pool.remove(idx)[k] < sim.side() by {
        if k < idx {
            assert(pool.remove(idx)[k] == pool[k]);
        } else {
            assert(pool.remove(idx)[k] == pool[k + 1]);
        }
    }
}

proof fn lemma_path_done(sim: SquareMatrixBorrower, path: Seq<usize>, pool: Seq<usize>)
    requires
        path_state(sim, path, pool),
        pool.len() == 0,
        sim.side() <= usize::MAX + 1,
    ensures
        is_permutation(path, sim.side()),
{
    broadcast use group_multiset_axioms;
    broadcast use group_to_multiset_ensures;
    assert(pool.to_multiset().len() == 0);
    assert(pool.to_multiset() =~= vstd::multiset::Multiset::empty());
    assert(path.to_multiset() =~= natural_order(sim.side()).to_multiset());
    lemma_natural_order_is_permutation(sim.side());
    lemma_same_items_is_permutation(path, natural_order(sim.side()), sim.side());
}

fn start_path(n: usize, start: usize) -> (r: (Vec<usize>, Vec<usize>))
    requires
        start < n,
    ensures
        r.0@ == seq![start],
        r.1@ == natural_order(n as nat).remove(start as int),
        increasing(r.1@),
{
    let mut pool: Vec<usize> = Vec::with_capacity(n);
    let mut k: usize = 0;
    while k < n
        invariant
            k <= n,
            pool@ == natural_order(k as nat),
        decreases n - k,
    {
        pool.push(k);
        k = k + 1;
        assert(pool@ =~= natural_order(k as nat));
    }
    proof {
        lemma_remove_increasing(pool@, start as int);
    }
    let first = pool.remove(start);
    let mut path: Vec<usize> = Vec::new();
    path.push(first);
    (path, pool)
}

proof fn lemma_start_state(sim: SquareMatrixBorrower, start: usize)
    requires
        start < sim.side(),
        sim.side() <= usize::MAX + 1,
    ensures
        path_state(sim, seq![start], natural_order(sim.side()).remove(start as int)),
{
    let full = natural_order(sim.side());
    assert(path_state(sim, Seq::<usize>::empty(), full)) by {
        broadcast use group_multiset_axioms;
        broadcast use group_to_multiset_ensures;
        assert(Seq::<usize>::empty().to_multiset().len() == 0);
        assert(Seq::<usize>::empty().to_multiset() =~= vstd::multiset::Multiset::empty());
        assert(Seq::<usize>::empty().to_multiset().add(full.to_multiset()) =~= full.to_multiset());
    }
    lemma_path_step(sim, Seq::<usize>::empty(), full, start as int);
    assert(Seq::<usize>::empty().push(full[start as int]) =~= seq![start]);
}

proof fn lemma_greedy_step(sim: SquareMatrixBorrower, path: Seq<usize>, pool: Seq<usize>, best: int)
    requires
        path.len() >= 1,
        0 <= best < pool.len(),
        increasing(pool),
        is_greedy_path(sim, path),
        pool_dominated(sim, path, pool),
        forall|q: int| 0 <= q < pool.len() ==>
            sim.at(path.last() as int, #[trigger] pool[q] as int) <= sim.at(path.last() as int, pool[best] as int),
        forall|q: int| 0 <= q < best ==>
            sim.at(path.last() as int, #[trigger] pool[q] as int) < sim.at(path.last() as int, pool[best] as int),
    ensures
        is_greedy_path(sim, path.push(pool[best])),
        pool_dominated(sim, path.push(pool[best]), pool.remove(best)),
        increasing(pool.remove(best)),
{
    lemma_remove_increasing(pool, best);
    let np = path.push(pool[best]);
    let nq = pool.remove(best);
    assert forall|k: int, q: int| #![trigger np[k], nq[q]] 0 <= k && k + 1 < np.len() && 0 <= q < nq.len() implies
        preferred(sim, np[k] as int, np[k + 1] as int, nq[q] as int) by {
        let oq = if q < best { q } else { q + 1 };
        assert(nq[q] == pool[oq]);
        if k + 1 == path.len() {
            assert(np[k] == path.last());
            assert(np[k + 1] == pool[best]);
            if oq > best {
                assert(pool[best] < pool[oq]);
            }
        } else {
            assert(np[k] == path[k] && np[k + 1] == path[k + 1]);
        }
    }
    assert forall|k: int, m: int| #![trigger np[k], np[m]] 0 <= k && k + 1 < m < np.len() implies
        preferred(sim, np[k] as int, np[k + 1] as int, np[m] as int) by {
        assert(np[k] == path[k] && np[k + 1] == path[k + 1]);
        if m == path.len() {
            assert(np[m] == pool[best]);
        } else {
            assert(np[m] == path[m]);
        }
    }
}

/// The nearest-neighbour path from `start`: each next item is, among those not yet visited,
/// the one most similar to the current item, the lowest index on a tie.
pub fn nearest_permutation(sim: &SquareMatrixBorrower, start: usize) -> (r: Permutation)
    requires
        sim.wf(),
        start < sim.side(),
    ensures
        r.wf(),
        r@.len() == sim.side(),
        r@[0] == start,
        is_greedy_path(*sim, r@),
{
    let n = sim.n_items();
    proof {
        crate::matrix::lemma_side_bound(n as nat);
        lemma_start_state(*sim, start);
    }
    let (mut path, mut pool) = start_path(n, start);
    let mut current = start;
    while pool.len() > 0
        invariant
            sim.wf(),
            n == sim.side(),
            n < 0x1_0000_0000,
            path_state(*sim, path@, pool@),
            path@.len() >= 1,
            path@[0] == start,
            current == path@.last(),
            increasing(pool@),
            is_greedy_path(*sim, path@),
            pool_dominated(*sim, path@, pool@),
        decreases pool@.len(),
    {
        let mut best: usize = 0;
        let mut best_value = sim.index(current, pool[0]);
        let mut j: usize = 1;
        while j < pool.len()
            invariant
                sim.wf(),
                n == sim.side(),
                path_state(*sim, path@, pool@),
                current < n,
                1 <= j <= pool@.len(),
                best < j,
                best_value == sim.at(current as int, pool@[best as int] as int),
                forall|q: int| 0 <= q < j ==> sim.at(current as int, #[trigger] pool@[q] as int) <= best_value,
                forall|q: int| 0 <= q < best ==> sim.at(current as int, #[trigger] pool@[q] as int) < best_value,
            decreases pool@.len() - j,
        {
            let v = sim.index(current, pool[j]);
            if v > best_value {
                best = j;
                best_value = v;
            }
            j = j + 1;
        }
        let ghost old_path = path@;
        let ghost old_pool = pool@;
        proof {
            lemma_path_step(*sim, old_path, old_pool, best as int);
        }
        let next = pool.remove(best);
        path.push(next);
        proof {
            lemma_greedy_step(*sim, old_path, old_pool, best as int);
        }
        current = next;
    }
    proof {
        lemma_path_done(*sim, path@, pool@);
    }
    Permutation { items: path }
}

/// The similarities of item `current` to each pool item, as weights.
pub open spec fn pool_weights(sim: SquareMatrixBorrower, current: int, pool: Seq<usize>) -> Seq<u64> {
    Seq::new(pool.len(), |q: int| sim.at(current, pool[q] as int) as u64)
}

/// The pool position that the draw `d` selects among weights `w`: the one whose slice of
/// the total holds `d` reduced modulo the total, or the first when the total is zero.
pub open spec fn walk_pick(w: Seq<u64>, d: int) -> int {
    if weight_total(w) == 0 {
        0
    } else {
        picked(w, d % weight_total(w))
    }
}

/// Path and pool of a random walk from `start` after the draws `ds`, one per step; draws
/// beyond the last step change nothing.
pub open spec fn walk(sim: SquareMatrixBorrower, start: usize, ds: Seq<u128>) -> (Seq<usize>, Seq<usize>)
    decreases ds.len(),
{
    if ds.len() == 0 {
        (seq![start], natural_order(sim.side()).remove(start as int))
    } else {
        let st = walk(sim, start, ds.drop_last());
        if st.1.len() == 0 {
            st
        } else {
            let k = walk_pick(pool_weights(sim, st.0.last() as int, st.1), ds.last() as int);
            (st.0.push(st.1[k]), st.1.remove(k))
        }
    }
}

proof fn lemma_walk_push(sim: SquareMatrixBorrower, start: usize, ds: Seq<u128>, d: u128)
    ensures
        walk(sim, start, ds.push(d)) == ({
            let st = walk(sim, start, ds);
            if st.1.len() == 0 {
                st
            } else {
                let k = walk_pick(pool_weights(sim, st.0.last() as int, st.1), d as int);
                (st.0.push(st.1[k]), st.1.remove(k))
            }
        }),
{
    assert(ds.push(d).drop_last() =~= ds);
}

proof fn lemma_walk_advance(sim: SquareMatrixBorrower, start: usize, ds: Seq<u128>, path: Seq<usize>, pool: Seq<usize>, pick: int, d: u128)
    requires
        path_state(sim, path, pool),
        path.len() >= 1,
        walk(sim, start, ds) == (path, pool),
        increasing(pool),
        is_similarity_walk(sim, path),
        pool_walked(sim, path, pool),
        0 <= pick < pool.len(),
        pick == walk_pick(pool_weights(sim, path.last() as int, pool), d as int),
        sim.at(path.last() as int, pool[pick] as int) == 0 ==> pick == 0
            && forall|q: int| 0 <= q < pool.len() ==> sim.at(path.last() as int, #[trigger] pool[q] as int) == 0,
    ensures
        path_state(sim, path.push(pool[pick]), pool.remove(pick)),
        walk(sim, start, ds.push(d)) == (path.push(pool[pick]), pool.remove(pick)),
        increasing(pool.remove(pick)),
        is_similarity_walk(sim, path.push(pool[pick])),
        pool_walked(sim, path.push(pool[pick]), pool.remove(pick)),
{
    lemma_path_step(sim, path, pool, pick);
    lemma_walk_step(sim, path, pool, pick);
    lemma_walk_push(sim, start, ds, d);
}

/// The pool position that the draw `d` selects for the step from `current`.
pub fn next_by_draw(sim: &SquareMatrixBorrower, current: usize, pool: &Vec<usize>, d: u128) -> (pick: usize)
    requires
        sim.wf(),
        current < sim.side(),
        pool@.len() > 0,
        pool@.len() <= sim.side(),
        forall|k: int| 0 <= k < pool@.len() ==> pool@[k] < sim.side(),
    ensures
        pick == walk_pick(pool_weights(*sim, current as int, pool@), d as int),
        pick < pool@.len(),
        sim.at(current as int, pool@[pick as int] as int) == 0 ==> pick == 0
            && forall|q: int| 0 <= q < pool@.len() ==> sim.at(current as int, #[trigger] pool@[q] as int) == 0,
{
    proof {
        sim.lemma_len_fits();
        crate::matrix::lemma_side_bound(sim.side());
    }
    let weights = similarity_weights(sim, current, pool);
    proof {
        assert(weights@ =~= pool_weights(*sim, current as int, pool@));
    }
    let total = total_weight(&weights);
    if total == 0 {
        proof {
            crate::select::lemma_zero_total(weights@);
            assert forall|q: int| 0 <= q < pool@.len() implies sim.at(current as int, #[trigger] pool@[q] as int) == 0 by {
                assert(weights@[q] == 0);
            }
        }
        0
    } else {
        let r = d % total;
        let k = select_by_weight(&weights, r);
        proof {
            lemma_picked_unique(weights@, r as int, k as int);
        }
        assert(weights@[k as int] > 0);
        k
    }
}

/// A draw for the step from `current`: below the sum of the similarities to the pool
/// items, or zero, drawing nothing, when that sum is zero.
fn draw_step(sim: &SquareMatrixBorrower, current: usize, pool: &Vec<usize>, rng: &mut rand::rngs::StdRng) -> (d: u128)
    requires
        sim.wf(),
        current < sim.side(),
        pool@.len() <= sim.side(),
        forall|k: int| 0 <= k < pool@.len() ==> pool@[k] < sim.side(),
{
    proof {
        sim.lemma_len_fits();
        crate::matrix::lemma_side_bound(sim.side());
    }
    let weights = similarity_weights(sim, current, pool);
    let total = total_weight(&weights);
    if total == 0 {
        0
    } else {
        draw_below(rng, total)
    }
}

/// A path from `start` where each next item is drawn from those not yet visited, with
/// chance proportional to its similarity to the current item: the walk that
/// `random_nearest_from_draws` takes for draws below the sum of those similarities. When
/// all of them have similarity zero, nothing is drawn and the lowest index is taken.
pub fn random_nearest_permutation(sim: &SquareMatrixBorrower, start: usize, rng: &mut rand::rngs::StdRng) -> (r: Permutation)
    requires
        sim.wf(),
        start < sim.side(),
    ensures
        r.wf(),
        r@.len() == sim.side(),
        r@[0] == start,
        is_similarity_walk(*sim, r@),
        exists|ds: Seq<u128>| ds.len() + 1 == sim.side() && #[trigger] walk(*sim, start, ds).0 == r@,
{
    let n = sim.n_items();
    proof {
        sim.lemma_len_fits();
        crate::matrix::lemma_side_bound(n as nat);
        lemma_start_state(*sim, start);
    }
    let (mut path, mut pool) = start_path(n, start);
    let ghost mut ds: Seq<u128> = Seq::empty();
    while pool.len() > 0
        invariant
            sim.wf(),
            n == sim.side(),
            n < 0x1_0000_0000,
            path_state(*sim, path@, pool@),
            path@.len() >= 1,
            path@[0] == start,
            path@.len() == ds.len() + 1,
            walk(*sim, start, ds) == (path@, pool@),
            increasing(pool@),
            is_similarity_walk(*sim, path@),
            pool_walked(*sim, path@, pool@),
        decreases pool@.len(),
    {
        let current = path[path.len() - 1];
        let d = draw_step(sim, current, &pool, rng);
        let pick = next_by_draw(sim, current, &pool, d);
        proof {
            lemma_walk_advance(*sim, start, ds, path@, pool@, pick as int, d);
            ds = ds.push(d);
        }
        let next = pool.remove(pick);
        path.push(next);
    }
    proof {
        lemma_path_done(*sim, path@, pool@);
    }
    let r = Permutation { items: path };
    proof {
        assert(walk(*sim, start, ds).0 == r@);
    }
    r
}

/// The walk from `start` that the draws `draws`, one per step after the first item, select.
pub fn random_nearest_from_draws(sim: &SquareMatrixBorrower, start: usize, draws: &Vec<u128>) -> (r: Permutation)
    requires
        sim.wf(),
        start < sim.side(),
        draws@.len() + 1 == sim.side(),
    ensures
        r@ == walk(*sim, start, draws@).0,
        r.wf(),
        r@.len() == sim.side(),
        r@[0] == start,
        is_similarity_walk(*sim, r@),
{
    let n = sim.n_items();
    proof {
        sim.lemma_len_fits();
        crate::matrix::lemma_side_bound(n as nat);
        lemma_start_state(*sim, start);
        assert(draws@.subrange(0, 0) =~= Seq::<u128>::empty());
    }
    let (mut path, mut pool) = start_path(n, start);
    let mut i: usize = 0;
    while pool.len() > 0
        invariant
            sim.wf(),
            n == sim.side(),
            n < 0x1_0000_0000,
            draws@.len() + 1 == n,
            path_state(*sim, path@, pool@),
            path@.len() >= 1,
            path@[0] == start,
            path@.len() == i + 1,
            walk(*sim, start, draws@.subrange(0, i as int)) == (path@, pool@),
            increasing(pool@),
            is_similarity_walk(*sim, path@),
            pool_walked(*sim, path@, pool@),
        decreases pool@.len(),
    {
        let current = path[path.len() - 1];
        let pick = next_by_draw(sim, current, &pool, draws[i]);
        proof {
            lemma_walk_advance(*sim, start, draws@.subrange(0, i as int), path@, pool@, pick as int, draws@[i as int]);
            assert(draws@.subrange(0, i as int).push(draws@[i as int]) =~= draws@.subrange(0, i + 1));
        }
        let next = pool.remove(pick);
        path.push(next);
        i = i + 1;
    }
    proof {
        lemma_path_done(*sim, path@, pool@);
        assert(draws@.subrange(0, i as int) =~= draws@);
    }
    Permutation { items: path }
}

/// The similarities of `row` to each item of `items`, as weights.
pub fn similarity_weights(sim: &SquareMatrixBorrower, row: usize, items: &Vec<usize>) -> (w: Vec<u64>)
    requires
        sim.wf(),
        row < sim.side(),
        forall|k: int| 0 <= k < items@.len() ==> items@[k] < sim.side(),
    ensures
        w@.len() == items@.len(),
        forall|k: int| 0 <= k < items@.len() ==> w@[k] == sim.at(row as int, items@[k] as int),
{
    let mut w: Vec<u64> = Vec::with_capacity(items.len());
    let mut k: usize = 0;
    while k < items.len()
        invariant
            sim.wf(),
            row < sim.side(),
            forall|q: int| 0 <= q < items@.len() ==> items@[q] < sim.side(),
            k <= items@.len(),
            w@.len() == k,
            forall|q: int| 0 <= q < k ==> w@[q] == sim.at(row as int, items@[q] as int),
        decreases items@.len() - k,
    {
        let v = sim.index(row, items[k]);
        w.push(v as u64);
        k = k + 1;
    }
    w
}

/// The sum of the weights.
pub fn total_weight(weights: &Vec<u64>) -> (r: u128)
    requires
        weights@.len() < 0x1_0000_0000_0000_0000,
    ensures
        r == weight_total(weights@),
{
    let mut acc: u128 = 0;
    let mut k: usize = 0;
    while k < weights.len()
        invariant
            weights@.len() < 0x1_0000_0000_0000_0000,
            k <= weights@.len(),
            acc == crate::select::weight_prefix(weights@, k as int),
        decreases weights@.len() - k,
    {
        proof {
            crate::select::lemma_prefix_monotone(weights@, k + 1, weights@.len() as int);
            assert((k + 1) * 0xffff_ffff_ffff_ffff < 0x1_0000_0000_0000_0000 * 0x1_0000_0000_0000_0000)
                by (nonlinear_arith) requires k < 0x1_0000_0000_0000_0000;
        }
        acc = acc + weights[k] as u128;
        k = k + 1;
    }
    acc
}

} // verus!

verus! {

proof fn lemma_greedy_prefix(sim: SquareMatrixBorrower, a: Seq<usize>, b: Seq<usize>, k: int)
    requires
        is_permutation(a, sim.side()),
        is_permutation(b, sim.side()),
        sim.side() <= usize::MAX + 1,
        is_greedy_path(sim, a),
        is_greedy_path(sim, b),
        0 <= k < a.len(),
        a[0] == b[0],
    ensures
        forall|j: int| 0 <= j <= k ==> a[j] == b[j],
    decreases k,
{
    if k > 0 {
        lemma_greedy_prefix(sim, a, b, k - 1);
        crate::sample::lemma_permutation_covers(a, sim.side());
        crate::sample::lemma_permutation_covers(b, sim.side());
        let p = k - 1;
        let x = a[k];
        let y = b[k];
        let c = a[p] as int;
        assert(b[p] == a[p]);
        assert(x < sim.side());
        assert(b.contains((x as int) as usize));
        let m = choose|m: int| 0 <= m < b.len() && b[m] == x;
        assert(y < sim.side());
        assert(a.contains((y as int) as usize));
        let q = choose|q: int| 0 <= q < a.len() && a[q] == y;
        if m <= p {
            assert(a[m] == b[m]);
        }
        if q <= p {
            assert(a[q] == b[q]);
        }
        if x != y {
            assert(m > k && q > k);
            assert(preferred(sim, b[p] as int, b[p + 1] as int, b[m] as int));
            assert(preferred(sim, a[p] as int, a[p + 1] as int, a[q] as int));
        }
    }
}

/// From a fixed start there is exactly one greedy nearest-neighbour ordering: the nearest
/// strategy is determined by the matrix and its start.
pub proof fn lemma_greedy_path_unique(sim: SquareMatrixBorrower, a: Seq<usize>, b: Seq<usize>)
    requires
        is_permutation(a, sim.side()),
        is_permutation(b, sim.side()),
        is_greedy_path(sim, a),
        is_greedy_path(sim, b),
        a.len() >= 1,
        a[0] == b[0],
    ensures
        a == b,
{
    sim.lemma_side_fits();
    lemma_greedy_prefix(sim, a, b, a.len() - 1);
    assert forall|j: int| 0 <= j < a.len() implies a[j] == b[j] by {
        assert(j <= a.len() - 1);
    }
    assert(a =~= b);
}

} // verus!
