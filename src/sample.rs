//! Drawing one partition: items are placed in the order of the permutation, each
//! into a new cluster or into the cluster of an earlier item.
use vstd::prelude::*;
use vstd::set_lib::lemma_subset_equality;
use crate::epa::EpaParameters;
use crate::perm::{is_permutation, natural_order, similarity_weights, total_weight, lemma_natural_order_is_permutation};
use crate::random::draw_below;
use crate::select::{lemma_picked_unique, lemma_prefix_monotone, picked, select_by_weight, weight_prefix, weight_total};

verus! {

/// The similarity of the `i`-th item of the order to the `k`-th.
pub open spec fn sim_between(p: EpaParameters, i: int, k: int) -> int {
    p.sim().at(p.order()[i] as int, p.order()[k] as int)
}

/// Sum of the similarities of each item to the next, over the first `k` items of the order.
pub open spec fn chain_sum(p: EpaParameters, k: int) -> int
    decreases k,
{
    if k <= 1 {
        0
    } else {
        chain_sum(p, k - 1) + sim_between(p, k - 2, k - 1)
    }
}

/// Sum of the similarities of each item to the next around the order, closed into a cycle:
/// `n` times the mean neighbour similarity.
pub open spec fn cycle_sum(p: EpaParameters) -> int {
    sim_between(p, p.n() - 1, 0) + chain_sum(p, p.n() as int)
}

/// `mass + discount * q`, scaled by `mass.den * discount.den`.
pub open spec fn scaled_strength(p: EpaParameters, q: int) -> int {
    p.mass_of().num * p.discount_of().den + p.discount_of().num * p.mass_of().den * q
}

/// Parameters under which each item after the first has a new cluster of positive weight,
/// so that the weights of a step are never all zero: `mass + discount * q > 0` for every
/// cluster count `q` that can occur, and a positive mean neighbour similarity.
pub open spec fn valid_for_sampling(p: EpaParameters) -> bool {
    &&& forall|q: int| 1 <= q < p.n() ==> #[trigger] scaled_strength(p, q) > 0
    &&& p.n() >= 1 ==> cycle_sum(p) > 0
}

/// The similarities of the `i`-th item of the order to each item before it.
pub open spec fn placed_weights(p: EpaParameters, i: int) -> Seq<u64> {
    Seq::new(i as nat, |k: int| sim_between(p, i, k) as u64)
}

pub open spec fn clamp(x: int) -> int {
    if x < 0 { 0 } else { x }
}

/// The weight of a new cluster for the `i`-th item, `qt` clusters being occupied: the
/// weight `(mass + discount * qt) * jump_density`, where `jump_density` is the mean
/// neighbour similarity over the similarity `s` of the item to the one before it, scaled by
/// the factor `n * s * mass.den * discount.den`; negative weights count as zero. When `s`
/// is zero the jump density is taken as infinite: the occupied clusters then weigh zero
/// and the item opens a new cluster.
pub open spec fn new_cluster_weight(p: EpaParameters, qt: int) -> int {
    let m = p.mass_of();
    let d = p.discount_of();
    clamp((m.num * d.den + d.num * m.den * qt) * cycle_sum(p))
}

/// The total weight of the occupied clusters for the `i`-th item, on the scale of
/// `new_cluster_weight`: the weights `kt * similarity to the cluster` add up to
/// `i - discount * qt`. It is zero when the item is not similar to any placed item (the
/// item then opens a new cluster) or to the item before it (see `new_cluster_weight`).
pub open spec fn old_clusters_weight(p: EpaParameters, i: int, qt: int) -> int {
    let m = p.mass_of();
    let d = p.discount_of();
    if weight_total(placed_weights(p, i)) == 0 {
        0
    } else {
        clamp((i * d.den - d.num * qt) * m.den * p.n() * sim_between(p, i, i - 1))
    }
}

/// Whether the `i`-th item opens a new cluster, for the first draw `r1`.
pub open spec fn opens_cluster(p: EpaParameters, i: int, qt: int, r1: int) -> bool {
    i == 0 || old_clusters_weight(p, i, qt) == 0 || r1 < new_cluster_weight(p, qt)
}

/// Placing the `i`-th item of the order, with `qt` clusters occupied and draws `(r1, r2)`:
/// a new cluster `qt`, or the cluster of the earlier item that `r2`, reduced modulo the
/// item's similarity to all placed items, picks by similarity.
pub open spec fn step(p: EpaParameters, i: int, st: (Seq<usize>, nat), draws: (u128, u128)) -> (Seq<usize>, nat) {
    let item = p.order()[i] as int;
    if opens_cluster(p, i, st.1 as int, draws.0 as int) {
        (st.0.update(item, st.1 as usize), st.1 + 1)
    } else {
        let w = placed_weights(p, i);
        let k = picked(w, draws.1 as int % weight_total(w));
        (st.0.update(item, st.0[p.order()[k] as int]), st.1)
    }
}

/// Labels and cluster count after placing one item for each pair of draws.
pub open spec fn replay(p: EpaParameters, draws: Seq<(u128, u128)>) -> (Seq<usize>, nat)
    decreases draws.len(),
{
    if draws.len() == 0 {
        (Seq::new(p.n(), |x: int| 0usize), 0)
    } else {
        step(p, draws.len() - 1, replay(p, draws.drop_last()), draws.last())
    }
}

/// The first `i` items of the order have labels, below `qt`, and each of the `qt` clusters
/// holds one of them.
pub open spec fn placed_wf(p: EpaParameters, i: int, st: (Seq<usize>, nat)) -> bool {
    &&& st.0.len() == p.n()
    &&& st.1 <= i
    &&& (i > 0 ==> st.1 >= 1)
    &&& forall|k: int| 0 <= k < i ==> (#[trigger] st.0[p.order()[k] as int]) < st.1
    &&& forall|c: int| 0 <= c < st.1 ==> #[trigger] holds_placed(p, i, st.0, c)
}

/// One of the first `i` items of the order has label `c`.
pub open spec fn holds_placed(p: EpaParameters, i: int, labels: Seq<usize>, c: int) -> bool {
    exists|k: int| 0 <= k < i && #[trigger] labels[p.order()[k] as int] == c
}

/// `labels` gives each item a cluster below `n_clusters`, and no cluster is empty.
pub open spec fn is_partition(labels: Seq<usize>, n_clusters: nat) -> bool {
    &&& forall|x: int| 0 <= x < labels.len() ==> labels[x] < n_clusters
    &&& forall|c: int| 0 <= c < n_clusters ==> #[trigger] labels.contains(c as usize)
}

proof fn lemma_step_wf(p: EpaParameters, i: int, st: (Seq<usize>, nat), draws: (u128, u128))
    requires
        p.wf(),
        0 <= i < p.n(),
        placed_wf(p, i, st),
        !opens_cluster(p, i, st.1 as int, draws.0 as int) ==> {
            let w = placed_weights(p, i);
            let k = picked(w, draws.1 as int % weight_total(w));
            0 <= k < i
        },
    ensures
        placed_wf(p, i + 1, step(p, i, st, draws)),
{
    p.sim().lemma_side_fits();
    let item = p.order()[i] as int;
    let ns = step(p, i, st, draws);
    assert forall|k: int| 0 <= k < i implies ns.0[p.order()[k] as int] == st.0[p.order()[k] as int] by {
        assert(p.order()[k] != p.order()[i]);
    }
    assert forall|k: int| 0 <= k < i + 1 implies (#[trigger] ns.0[p.order()[k] as int]) < ns.1 by {
        if k < i {
            assert(ns.0[p.order()[k] as int] == st.0[p.order()[k] as int]);
            assert(st.0[p.order()[k] as int] < st.1);
        }
    }
    assert forall|c: int| 0 <= c < ns.1 implies #[trigger] holds_placed(p, i + 1, ns.0, c) by {
        if c < st.1 {
            assert(holds_placed(p, i, st.0, c));
            let k = choose|k: int| 0 <= k < i && st.0[p.order()[k] as int] == c;
            assert(ns.0[p.order()[k] as int] == c);
        } else {
            assert(opens_cluster(p, i, st.1 as int, draws.0 as int));
            assert(p.order()[i] < p.n());
            assert(ns.0 == st.0.update(item, st.1 as usize));
            assert(ns.0[p.order()[i] as int] == st.1 as usize);
        }
    }
}

/// A permutation of `0..n` lists every item of `0..n`.
pub proof fn lemma_permutation_covers(s: Seq<usize>, n: nat)
    requires
        is_permutation(s, n),
        n <= usize::MAX + 1,
    ensures
        forall|x: int| 0 <= x < n ==> #[trigger] s.contains(x as usize),
{
    let all = natural_order(n);
    lemma_natural_order_is_permutation(n);
    s.unique_seq_to_set();
    all.unique_seq_to_set();
    assert(s.to_set().subset_of(all.to_set())) by {
        assert forall|x: usize| s.to_set().contains(x) implies all.to_set().contains(x) by {
            let k = choose|k: int| 0 <= k < s.len() && s[k] == x;
            assert(all[x as int] == x);
        }
    }
    lemma_subset_equality(s.to_set(), all.to_set());
    assert forall|x: int| 0 <= x < n implies #[trigger] s.contains(x as usize) by {
        assert(all[x] == x as usize);
        assert(all.to_set().contains(x as usize));
    }
}

proof fn lemma_placed_is_partition(p: EpaParameters, st: (Seq<usize>, nat))
    requires
        p.wf(),
        p.n() <= usize::MAX + 1,
        placed_wf(p, p.n() as int, st),
    ensures
        is_partition(st.0, st.1),
{
    lemma_permutation_covers(p.order(), p.n());
    assert forall|x: int| 0 <= x < st.0.len() implies st.0[x] < st.1 by {
        assert(p.order().contains(x as usize));
        let k = choose|k: int| 0 <= k < p.order().len() && p.order()[k] == x as usize;
        assert(st.0[p.order()[k] as int] < st.1);
    }
    assert forall|c: int| 0 <= c < st.1 implies #[trigger] st.0.contains(c as usize) by {
        assert(holds_placed(p, p.n() as int, st.0, c));
        let k = choose|k: int| 0 <= k < p.n() && st.0[p.order()[k] as int] == c;
        assert(st.0[p.order()[k] as int] == c);
    }
}

} // verus!

verus! {

proof fn lemma_chain_bound(p: EpaParameters, k: int)
    requires
        p.wf(),
        k <= p.n(),
    ensures
        0 <= chain_sum(p, k) <= 0xffff * (if k < 1 { 0 } else { k - 1 }),
    decreases k,
{
    if k > 1 {
        lemma_chain_bound(p, k - 1);
        crate::matrix::lemma_index_in_bounds(p.n(), p.order()[k - 2] as int, p.order()[k - 1] as int);
    }
}

/// `cycle_sum(p)`, for at least one item.
fn cycle_sum_of(p: &EpaParameters) -> (r: u128)
    requires
        p.wf(),
        p.n() >= 1,
        p.n() < 0x1_0000_0000,
    ensures
        r == cycle_sum(*p),
        r <= 0xffff * p.n(),
{
    let sim = p.similarity();
    let perm = p.permutation();
    let n = sim.n_items();
    let mut acc: u128 = 0;
    let mut k: usize = 1;
    while k < n
        invariant
            p.wf(),
            sim == p.sim(),
            perm@ == p.order(),
            n == p.n(),
            n < 0x1_0000_0000,
            1 <= k <= n,
            acc == chain_sum(*p, k as int),
        decreases n - k,
    {
        proof {
            lemma_chain_bound(*p, k as int + 1);
        }
        let v = sim.index(perm.get(k - 1), perm.get(k));
        acc = acc + v as u128;
        k = k + 1;
    }
    proof {
        lemma_chain_bound(*p, n as int);
    }
    let last = sim.index(perm.get(n - 1), perm.get(0));
    acc + last as u128
}

/// `clamp((mn * dd + dn * md * qt) * c)`, computed exactly.
fn scaled_new_weight(mn: i16, md: u16, dn: i16, dd: u16, qt: usize, c: u128) -> (r: u128)
    requires
        qt < 0x1_0000_0000,
        c < 0x1_0000_0000_0000,
    ensures
        r == clamp((mn * dd + dn * md * qt) * c),
        r < 0x1_0000_0000_0000_0000_0000_0000_0000,
{
    proof {
        assert(-0x8000_0000 <= mn * dd <= 0x8000_0000) by (nonlinear_arith)
            requires -0x8000 <= mn <= 0x7fff, 0 <= dd <= 0xffff;
        assert(-0x8000_0000 <= dn * md <= 0x8000_0000) by (nonlinear_arith)
            requires -0x8000 <= dn <= 0x7fff, 0 <= md <= 0xffff;
    }
    let x: i128 = mn as i128 * dd as i128;
    let y: i128 = dn as i128 * md as i128;
    proof {
        assert(-0x8000_0000_0000_0000 <= y * qt <= 0x8000_0000_0000_0000) by (nonlinear_arith)
            requires -0x8000_0000 <= y <= 0x8000_0000, 0 <= qt < 0x1_0000_0000;
    }
    let z: i128 = x + y * qt as i128;
    proof {
        assert(-0x1_0000_0000_0000_0000_0000_0000_0000 < z * c < 0x1_0000_0000_0000_0000_0000_0000_0000) by (nonlinear_arith)
            requires -0x8000_0000_8000_0000 <= z <= 0x8000_0000_8000_0000, 0 <= c < 0x1_0000_0000_0000;
        assert(dn * md * qt == y * qt);
    }
    let w: i128 = z * c as i128;
    if w < 0 {
        0
    } else {
        w as u128
    }
}

/// `clamp((i * dd - dn * qt) * md * n * num)`, computed exactly.
fn scaled_old_weight(md: u16, dn: i16, dd: u16, i: usize, qt: usize, n: usize, num: u16) -> (r: u128)
    requires
        i < 0x1_0000_0000,
        qt < 0x1_0000_0000,
        n < 0x1_0000_0000,
    ensures
        r == clamp((i * dd - dn * qt) * md * n * num),
        r < 0x100_0000_0000_0000_0000_0000_0000_0000,
{
    proof {
        assert(0 <= i * dd <= 0x1_0000_0000_0000) by (nonlinear_arith)
            requires 0 <= i < 0x1_0000_0000, 0 <= dd <= 0xffff;
        assert(-0x8000_0000_0000 <= dn * qt <= 0x8000_0000_0000) by (nonlinear_arith)
            requires -0x8000 <= dn <= 0x7fff, 0 <= qt < 0x1_0000_0000;
    }
    let x: i128 = i as i128 * dd as i128 - dn as i128 * qt as i128;
    proof {
        assert(-0x2_0000_0000_0000_0000 <= x * md <= 0x2_0000_0000_0000_0000) by (nonlinear_arith)
            requires -0x2_0000_0000_0000 <= x <= 0x2_0000_0000_0000, 0 <= md <= 0xffff;
    }
    let y: i128 = x * md as i128;
    proof {
        assert(-0x2_0000_0000_0000_0000_0000_0000 <= y * n <= 0x2_0000_0000_0000_0000_0000_0000) by (nonlinear_arith)
            requires -0x2_0000_0000_0000_0000 <= y <= 0x2_0000_0000_0000_0000, 0 <= n < 0x1_0000_0000;
    }
    let z: i128 = y * n as i128;
    proof {
        assert(-0x100_0000_0000_0000_0000_0000_0000_0000 < z * num < 0x100_0000_0000_0000_0000_0000_0000_0000) by (nonlinear_arith)
            requires -0x2_0000_0000_0000_0000_0000_0000 <= z <= 0x2_0000_0000_0000_0000_0000_0000, 0 <= num <= 0xffff;
    }
    let w: i128 = z * num as i128;
    if w < 0 {
        0
    } else {
        w as u128
    }
}

} // verus!

verus! {

/// A partition of the items `0..n`, as the cluster label of each item.
pub struct Clustering {
    labels: Vec<usize>,
    n_clusters: usize,
}

impl Clustering {
    /// The label of each item.
    pub closed spec fn labels_view(&self) -> Seq<usize> {
        self.labels@
    }

    pub closed spec fn count(&self) -> nat {
        self.n_clusters as nat
    }

    pub fn n_items(&self) -> (r: usize)
        ensures
            r == self.labels_view().len(),
    {
        self.labels.len()
    }

    /// The number of nonempty clusters.
    pub fn n_clusters(&self) -> (r: usize)
        ensures
            r == self.count(),
    {
        self.n_clusters
    }

    /// The cluster of `item`.
    pub fn label_of(&self, item: usize) -> (r: usize)
        requires
            item < self.labels_view().len(),
        ensures
            r == self.labels_view()[item as int],
    {
        self.labels[item]
    }

    /// The items of cluster `label`, in increasing order.
    pub fn items_of(&self, label: usize) -> (r: Vec<usize>)
        ensures
            forall|k: int| 0 <= k < r@.len() ==> r@[k] < self.labels_view().len()
                && self.labels_view()[r@[k] as int] == label,
            forall|k: int, q: int| 0 <= k < q < r@.len() ==> r@[k] < r@[q],
            forall|x: int| 0 <= x < self.labels_view().len() && self.labels_view()[x] == label
                ==> #[trigger] r@.contains(x as usize),
    {
        let mut r: Vec<usize> = Vec::new();
        let mut x: usize = 0;
        while x < self.labels.len()
            invariant
                x <= self.labels@.len(),
                forall|k: int| 0 <= k < r@.len() ==> r@[k] < x && self.labels@[r@[k] as int] == label,
                forall|k: int, q: int| 0 <= k < q < r@.len() ==> r@[k] < r@[q],
                forall|y: int| 0 <= y < x && self.labels@[y] == label ==> #[trigger] r@.contains(y as usize),
            decreases self.labels@.len() - x,
        {
            if self.labels[x] == label {
                let ghost before = r@;
                r.push(x);
                proof {
                    assert forall|y: int| 0 <= y < x + 1 && self.labels@[y] == label implies
                        #[trigger] r@.contains(y as usize) by {
                        assert(r@ == before.push(x));
                        if y < x {
                            assert(before.contains(y as usize));
                            let k = choose|k: int| 0 <= k < before.len() && before[k] == y as usize;
                            assert(r@[k] == y as usize);
                        } else {
                            assert(y == x as int);
                            assert(r@[before.len() as int] == x);
                        }
                    }
                }
            }
            x = x + 1;
        }
        r
    }

    /// The number of items in cluster `label`.
    pub fn size_of(&self, label: usize) -> (r: usize)
        ensures
            r == self.labels_view().filter(|l: usize| l == label).len(),
    {
        let mut count: usize = 0;
        let mut x: usize = 0;
        while x < self.labels.len()
            invariant
                x <= self.labels@.len(),
                count == self.labels@.subrange(0, x as int).filter(|l: usize| l == label).len(),
                count <= x,
            decreases self.labels@.len() - x,
        {
            proof {
                let pre = self.labels@.subrange(0, x as int);
                assert(self.labels@.subrange(0, x + 1) =~= pre.push(self.labels@[x as int]));
                pre.lemma_filter_push(self.labels@[x as int], |l: usize| l == label);
            }
            if self.labels[x] == label {
                count = count + 1;
            }
            x = x + 1;
        }
        proof {
            assert(self.labels@.subrange(0, x as int) =~= self.labels@);
        }
        count
    }

    /// The label of each item.
    pub fn labels(&self) -> (r: &[usize])
        ensures
            r@ == self.labels_view(),
    {
        self.labels.as_slice()
    }
}

proof fn lemma_replay_push(p: EpaParameters, ds: Seq<(u128, u128)>, d: (u128, u128))
    ensures
        replay(p, ds.push(d)) == step(p, ds.len() as int, replay(p, ds), d),
{
    assert(ds.push(d).drop_last() =~= ds);
}

fn step_weights_with(p: &EpaParameters, placed: &Vec<usize>, i: usize, qt: usize, c: u128) -> (r: (u128, u128))
    requires
        p.wf(),
        1 <= i < p.n(),
        p.n() < 0x1_0000_0000,
        qt <= i,
        c == cycle_sum(*p),
        c <= 0xffff * p.n(),
        placed@ == p.order().subrange(0, i as int),
    ensures
        r.0 == new_cluster_weight(*p, qt as int),
        r.1 == old_clusters_weight(*p, i as int, qt as int),
        r.0 < 0x1_0000_0000_0000_0000_0000_0000_0000,
        r.1 < 0x100_0000_0000_0000_0000_0000_0000_0000,
{
    let sim = p.similarity();
    let perm = p.permutation();
    let mass = p.mass();
    let discount = p.discount();
    let n = sim.n_items();
    let item = perm.get(i);
    let weights = similarity_weights(&sim, item, placed);
    proof {
        assert(weights@ =~= placed_weights(*p, i as int));
    }
    let s_total = total_weight(&weights);
    let fresh = scaled_new_weight(mass.num, mass.den, discount.num, discount.den, qt, c);
    let old = if s_total == 0 {
        0
    } else {
        let num = sim.index(item, perm.get(i - 1));
        scaled_old_weight(mass.den, discount.num, discount.den, i, qt, n, num)
    };
    (fresh, old)
}

/// The two weights that decide where the `i`-th item of the order goes when `qt` clusters
/// are occupied: that of a new cluster and that of all occupied clusters together, on one
/// common scale.
pub fn step_weights(parameters: &EpaParameters, i: usize, qt: usize) -> (r: (u128, u128))
    requires
        parameters.wf(),
        1 <= i < parameters.n(),
        qt <= i,
    ensures
        r.0 == new_cluster_weight(*parameters, qt as int),
        r.1 == old_clusters_weight(*parameters, i as int, qt as int),
        r.0 < 0x1_0000_0000_0000_0000_0000_0000_0000,
        r.1 < 0x100_0000_0000_0000_0000_0000_0000_0000,
{
    let p = parameters;
    proof {
        lemma_items_fit(*p);
    }
    let c = cycle_sum_of(p);
    let placed = placed_prefix(p, i);
    step_weights_with(p, &placed, i, qt, c)
}

/// The side of a well-formed matrix is below 2^32.
proof fn lemma_items_fit(p: EpaParameters)
    requires
        p.wf(),
    ensures
        p.n() < 0x1_0000_0000,
{
    p.sim().lemma_len_fits();
    crate::matrix::lemma_side_bound(p.n());
}

fn place_item_with(p: &EpaParameters, i: usize, labels: &mut Vec<usize>, n_clusters: &mut usize, draws: (u128, u128), c: u128, placed: &Vec<usize>)
    requires
        p.wf(),
        i < p.n(),
        p.n() < 0x1_0000_0000,
        c == cycle_sum(*p),
        c <= 0xffff * p.n(),
        placed@ == p.order().subrange(0, i as int),
        placed_wf(*p, i as int, (old(labels)@, *old(n_clusters) as nat)),
    ensures
        (final(labels)@, *final(n_clusters) as nat) == step(*p, i as int, (old(labels)@, *old(n_clusters) as nat), draws),
        placed_wf(*p, i + 1, (final(labels)@, *final(n_clusters) as nat)),
{
    let ghost st = (labels@, *n_clusters as nat);
    let item = p.permutation().get(i);
    let mut join: Option<usize> = None;
    if i > 0 {
        let (fresh, old) = step_weights_with(p, placed, i, *n_clusters, c);
        if old > 0 && draws.0 >= fresh {
            let weights = similarity_weights(&p.similarity(), item, placed);
            proof {
                assert(weights@ =~= placed_weights(*p, i as int));
            }
            let total = total_weight(&weights);
            let r = draws.1 % total;
            let k = select_by_weight(&weights, r);
            proof {
                lemma_picked_unique(weights@, r as int, k as int);
            }
            join = Some(labels[placed[k]]);
        }
    }
    proof {
        lemma_step_wf(*p, i as int, st, draws);
        p.sim().lemma_side_fits();
    }
    match join {
        Some(label) => {
            labels.set(item, label);
        },
        None => {
            labels.set(item, *n_clusters);
            *n_clusters = *n_clusters + 1;
        },
    }
}

/// Places the `i`-th item of the order for the draws `(r1, r2)`, as `step` says.
pub fn place_item(parameters: &EpaParameters, i: usize, labels: &mut Vec<usize>, n_clusters: &mut usize, draws: (u128, u128))
    requires
        parameters.wf(),
        i < parameters.n(),
        placed_wf(*parameters, i as int, (old(labels)@, *old(n_clusters) as nat)),
    ensures
        (final(labels)@, *final(n_clusters) as nat) == step(*parameters, i as int, (old(labels)@, *old(n_clusters) as nat), draws),
        placed_wf(*parameters, i + 1, (final(labels)@, *final(n_clusters) as nat)),
{
    let p = parameters;
    proof {
        lemma_items_fit(*p);
    }
    let c = cycle_sum_of(p);
    let placed = placed_prefix(p, i);
    place_item_with(p, i, labels, n_clusters, draws, c, &placed);
}

/// The first `i` items of the order.
fn placed_prefix(p: &EpaParameters, i: usize) -> (r: Vec<usize>)
    requires
        p.wf(),
        i <= p.n(),
    ensures
        r@ == p.order().subrange(0, i as int),
{
    let perm = p.permutation();
    let mut placed: Vec<usize> = Vec::with_capacity(i);
    let mut k: usize = 0;
    while k < i
        invariant
            p.wf(),
            perm@ == p.order(),
            i <= p.n(),
            k <= i,
            placed@ == p.order().subrange(0, k as int),
        decreases i - k,
    {
        placed.push(perm.get(k));
        k = k + 1;
        proof {
            assert(placed@ =~= p.order().subrange(0, k as int));
        }
    }
    placed
}

/// The similarity of the `i`-th item of the order to all items before it.
pub fn placed_similarity(parameters: &EpaParameters, i: usize) -> (r: u128)
    requires
        parameters.wf(),
        i < parameters.n(),
    ensures
        r == weight_total(placed_weights(*parameters, i as int)),
{
    let p = parameters;
    let placed = placed_prefix(p, i);
    let weights = similarity_weights(&p.similarity(), p.permutation().get(i), &placed);
    proof {
        assert(weights@ =~= placed_weights(*p, i as int));
    }
    total_weight(&weights)
}

fn unplaced_labels(n: usize) -> (r: Vec<usize>)
    ensures
        r@ == Seq::new(n as nat, |x: int| 0usize),
{
    let mut labels: Vec<usize> = Vec::with_capacity(n);
    while labels.len() < n
        invariant
            labels@.len() <= n,
            forall|x: int| 0 <= x < labels@.len() ==> labels@[x] == 0usize,
        decreases n - labels@.len(),
    {
        labels.push(0);
    }
    assert(labels@ =~= Seq::new(n as nat, |x: int| 0usize));
    labels
}

/// The partition that the draws `draws`, one pair per item, select.
pub fn sample_from_draws(parameters: &EpaParameters, draws: &Vec<(u128, u128)>) -> (r: Clustering)
    requires
        parameters.wf(),
        draws@.len() == parameters.n(),
    ensures
        (r.labels_view(), r.count()) == replay(*parameters, draws@),
        r.labels_view().len() == parameters.n(),
        is_partition(r.labels_view(), r.count()),
{
    let p = parameters;
    let n = p.similarity().n_items();
    let mut labels = unplaced_labels(n);
    let mut qt: usize = 0;
    if n == 0 {
        return Clustering { labels, n_clusters: qt };
    }
    proof {
        lemma_items_fit(*p);
    }
    let c = cycle_sum_of(p);
    let mut placed: Vec<usize> = Vec::with_capacity(n);
    let mut i: usize = 0;
    while i < n
        invariant
            p.wf(),
            n == p.n(),
            n < 0x1_0000_0000,
            c == cycle_sum(*p),
            c <= 0xffff * n,
            draws@.len() == n,
            i <= n,
            placed@ == p.order().subrange(0, i as int),
            replay(*p, draws@.subrange(0, i as int)) == (labels@, qt as nat),
            placed_wf(*p, i as int, (labels@, qt as nat)),
        decreases n - i,
    {
        proof {
            lemma_replay_push(*p, draws@.subrange(0, i as int), draws@[i as int]);
            assert(draws@.subrange(0, i as int).push(draws@[i as int]) =~= draws@.subrange(0, i + 1));
        }
        place_item_with(p, i, &mut labels, &mut qt, draws[i], c, &placed);
        placed.push(p.permutation().get(i));
        i = i + 1;
        proof {
            assert(placed@ =~= p.order().subrange(0, i as int));
        }
    }
    proof {
        assert(draws@.subrange(0, n as int) =~= draws@);
        p.sim().lemma_side_fits();
        lemma_placed_is_partition(*p, (labels@, qt as nat));
    }
    Clustering { labels, n_clusters: qt }
}

/// One partition drawn from the distribution given by `parameters`, which `can_sample`
/// accepts: the partition that `sample_from_draws` gives for the draws made. For each item
/// after the first, the first draw is below the sum of the two `step_weights`, and the
/// second, made only when the item joins an occupied cluster, below `placed_similarity`.
pub fn sample(parameters: &EpaParameters, rng: &mut rand::rngs::StdRng) -> (r: Clustering)
    requires
        parameters.wf(),
        valid_for_sampling(*parameters),
    ensures
        r.labels_view().len() == parameters.n(),
        is_partition(r.labels_view(), r.count()),
        r.count() <= parameters.n(),
        parameters.n() >= 1 ==> r.count() >= 1,
        exists|ds: Seq<(u128, u128)>| ds.len() == parameters.n()
            && replay(*parameters, ds) == (r.labels_view(), r.count()),
{
    let p = parameters;
    let n = p.similarity().n_items();
    let mut draws: Vec<(u128, u128)> = Vec::with_capacity(n);
    let mut labels = unplaced_labels(n);
    let mut qt: usize = 0;
    if n == 0 {
        let r = Clustering { labels, n_clusters: qt };
        proof {
            assert(replay(*p, draws@) == (r.labels_view(), r.count()));
        }
        return r;
    }
    proof {
        lemma_items_fit(*p);
    }
    let c = cycle_sum_of(p);
    let mut placed: Vec<usize> = Vec::with_capacity(n);
    let mut i: usize = 0;
    while i < n
        invariant
            p.wf(),
            n == p.n(),
            n < 0x1_0000_0000,
            c == cycle_sum(*p),
            c <= 0xffff * n,
            placed@ == p.order().subrange(0, i as int),
            i <= n,
            draws@.len() == i,
            replay(*p, draws@) == (labels@, qt as nat),
            placed_wf(*p, i as int, (labels@, qt as nat)),
        decreases n - i,
    {
        let mut r1: u128 = 0;
        let mut r2: u128 = 0;
        if i > 0 {
            let (fresh, old) = step_weights_with(p, &placed, i, qt, c);
            if fresh + old > 0 {
                r1 = draw_below(rng, fresh + old);
                if r1 >= fresh {
                    let weights = similarity_weights(&p.similarity(), p.permutation().get(i), &placed);
                    proof {
                        assert(weights@ =~= placed_weights(*p, i as int));
                    }
                    let s = total_weight(&weights);
                    r2 = draw_below(rng, s);
                }
            }
        }
        proof {
            lemma_replay_push(*p, draws@, (r1, r2));
        }
        place_item_with(p, i, &mut labels, &mut qt, (r1, r2), c, &placed);
        draws.push((r1, r2));
        placed.push(p.permutation().get(i));
        i = i + 1;
        proof {
            assert(placed@ =~= p.order().subrange(0, i as int));
        }
    }
    proof {
        p.sim().lemma_side_fits();
        lemma_placed_is_partition(*p, (labels@, qt as nat));
        lemma_clusters_at_most_items(*p, draws@);
    }
    Clustering { labels, n_clusters: qt }
}

} // verus!

verus! {

/// Placing an item adds at most one cluster, and never removes one; after `k` items at most
/// `k` clusters are occupied.
pub proof fn lemma_clusters_grow(p: EpaParameters, ds: Seq<(u128, u128)>, k: int)
    requires
        0 <= k < ds.len(),
    ensures
        replay(p, ds.take(k)).1 <= replay(p, ds.take(k + 1)).1 <= replay(p, ds.take(k)).1 + 1,
        replay(p, ds).1 <= ds.len(),
    decreases ds.len(),
{
    assert(ds.take(k + 1).drop_last() =~= ds.take(k));
    lemma_clusters_at_most_items(p, ds);
}

/// After `k` items at most `k` clusters are occupied.
pub proof fn lemma_clusters_at_most_items(p: EpaParameters, ds: Seq<(u128, u128)>)
    ensures
        replay(p, ds).1 <= ds.len(),
    decreases ds.len(),
{
    if ds.len() > 0 {
        lemma_clusters_at_most_items(p, ds.drop_last());
    }
}

/// The partition is a function of the parameters and the draws: equal draws give equal
/// partitions, and the first `k` items are placed by the first `k` draws alone.
pub proof fn lemma_same_draws_same_partition(p: EpaParameters, ds1: Seq<(u128, u128)>, ds2: Seq<(u128, u128)>, k: int)
    requires
        0 <= k <= ds1.len(),
        0 <= k <= ds2.len(),
        ds1.take(k) == ds2.take(k),
    ensures
        replay(p, ds1.take(k)) == replay(p, ds2.take(k)),
        ds1 == ds2 ==> replay(p, ds1) == replay(p, ds2),
{
}

} // verus!

verus! {

/// Whether `sample` accepts `parameters`.
pub fn can_sample(parameters: &EpaParameters) -> (r: bool)
    requires
        parameters.wf(),
    ensures
        r == valid_for_sampling(*parameters),
{
    let p = parameters;
    let n = p.similarity().n_items();
    if n == 0 {
        return true;
    }
    proof {
        lemma_items_fit(*p);
    }
    if cycle_sum_of(p) == 0 {
        return false;
    }
    let m = p.mass();
    let d = p.discount();
    let mut q: usize = 1;
    while q < n
        invariant
            p == parameters,
            p.wf(),
            n == p.n(),
            n < 0x1_0000_0000,
            m == p.mass_of(),
            d == p.discount_of(),
            cycle_sum(*p) > 0,
            1 <= q <= n,
            forall|x: int| 1 <= x < q ==> #[trigger] scaled_strength(*p, x) > 0,
        decreases n - q,
    {
        proof {
            assert(-0x8000_0000 <= m.num * d.den <= 0x8000_0000) by (nonlinear_arith)
                requires -0x8000 <= m.num <= 0x7fff, 0 <= d.den <= 0xffff;
            assert(-0x8000_0000 <= d.num * m.den <= 0x8000_0000) by (nonlinear_arith)
                requires -0x8000 <= d.num <= 0x7fff, 0 <= m.den <= 0xffff;
        }
        let y: i128 = d.num as i128 * m.den as i128;
        proof {
            assert(-0x8000_0000_0000_0000 <= y * q <= 0x8000_0000_0000_0000) by (nonlinear_arith)
                requires -0x8000_0000 <= y <= 0x8000_0000, 0 <= q < 0x1_0000_0000;
            assert(d.num * m.den * q == y * q);
        }
        let v: i128 = m.num as i128 * d.den as i128 + y * q as i128;
        proof {
            assert(v == scaled_strength(*p, q as int));
        }
        if v <= 0 {
            proof {
                assert(!(scaled_strength(*p, q as int) > 0));
            }
            return false;
        }
        q = q + 1;
    }
    true
}

} // verus!
