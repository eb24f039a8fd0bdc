//! Density-based clustering (DBSCAN) of query plans.
//!
//! The clustering works on the neighbourhood relation of the points: entry
//! `within[i][j]` says whether point `j` lies within the neighbourhood radius
//! of point `i` (how that radius is measured is up to the caller). A point is
//! a core point when its neighbourhood holds at least `min_pts` points; the
//! point counts itself when it lies within its own radius (`within[i][i]`,
//! true for any radius of 0 or more).
use vstd::prelude::*;

verus! {

/// The within-radius relation as a matrix of booleans.
pub open spec fn matrix_view(within: &Vec<Vec<bool>>) -> Seq<Seq<bool>> {
    Seq::new(within@.len(), |i: int| within@[i]@)
}

/// Every row has one entry per point.
pub open spec fn is_square(m: Seq<Seq<bool>>) -> bool {
    forall|i: int| 0 <= i < m.len() ==> #[trigger] m[i].len() == m.len()
}

/// `j` is a neighbour of `i`: another point that lies within `i`'s radius.
pub open spec fn adjacent(m: Seq<Seq<bool>>, i: int, j: int) -> bool {
    &&& 0 <= i < m.len()
    &&& 0 <= j < m.len()
    &&& i != j
    &&& m[i][j]
}

/// The neighbours of `index` among the points `0..upto`, in increasing order.
pub open spec fn neighbors_below(row: Seq<bool>, index: int, upto: int) -> Seq<usize>
    decreases upto,
{
    if upto <= 0 {
        Seq::empty()
    } else {
        let rest = neighbors_below(row, index, upto - 1);
        if upto - 1 != index && row[upto - 1] {
            rest.push((upto - 1) as usize)
        } else {
            rest
        }
    }
}

/// All neighbours of point `i`, in increasing order.
pub open spec fn neighbors(m: Seq<Seq<bool>>, i: int) -> Seq<usize> {
    neighbors_below(m[i], i, m.len() as int)
}

/// How many points lie within the radius of point `i`: its neighbours, and
/// the point itself when it lies within its own radius.
pub open spec fn neighbourhood_size(m: Seq<Seq<bool>>, i: int) -> nat {
    neighbors(m, i).len() + if m[i][i] {
        1nat
    } else {
        0nat
    }
}

/// Point `i` is a core point: at least `min_pts` points lie within its
/// radius.
pub open spec fn is_core(m: Seq<Seq<bool>>, min_pts: nat, i: int) -> bool {
    &&& 0 <= i < m.len()
    &&& neighbourhood_size(m, i) >= min_pts
}

/// Facts about `neighbors_below`: it lists exactly the neighbours below
/// `upto`.
pub proof fn lemma_neighbors_below(row: Seq<bool>, index: int, upto: int)
    requires
        0 <= upto <= row.len(),
        row.len() <= usize::MAX + 1,
    ensures
        neighbors_below(row, index, upto).len() <= upto,
        forall|t: int|
            0 <= t < neighbors_below(row, index, upto).len() ==> {
                let j = #[trigger] neighbors_below(row, index, upto)[t];
                &&& j < upto
                &&& j != index
                &&& row[j as int]
            },
        forall|j: int|
            0 <= j < upto && j != index && row[j] ==> #[trigger] neighbors_below(
                row,
                index,
                upto,
            ).contains(j as usize),
        forall|t: int, u: int|
            0 <= t < u < neighbors_below(row, index, upto).len() ==> #[trigger] neighbors_below(
                row,
                index,
                upto,
            )[t] < #[trigger] neighbors_below(row, index, upto)[u],
    decreases upto,
{
    if upto > 0 {
        lemma_neighbors_below(row, index, upto - 1);
        let rest = neighbors_below(row, index, upto - 1);
        let res = neighbors_below(row, index, upto);
        assert forall|t: int, u: int| 0 <= t < u < res.len() implies #[trigger] res[t] < #[trigger] res[u] by {
            if u < rest.len() {
                assert(res[t] == rest[t] && res[u] == rest[u]);
            } else {
                assert(res[t] == rest[t]);
            }
        }
        assert forall|j: int| 0 <= j < upto && j != index && row[j] implies res.contains(
            j as usize,
        ) by {
            if j < upto - 1 {
                assert(rest.contains(j as usize));
                let t = choose|t: int| 0 <= t < rest.len() && rest[t] == j as usize;
                assert(res[t] == j as usize);
            } else {
                assert(res[res.len() - 1] == j as usize);
            }
        }
    }
}

/// The neighbours of a point are listed in strictly increasing order, so
/// each at most once, and they are exactly the other points within its
/// radius.
pub proof fn lemma_neighbors_exact(m: Seq<Seq<bool>>, i: int)
    requires
        is_square(m),
        0 <= i < m.len(),
        m.len() <= usize::MAX,
    ensures
        forall|t: int, u: int|
            0 <= t < u < neighbors(m, i).len() ==> #[trigger] neighbors(m, i)[t] < #[trigger] neighbors(
                m,
                i,
            )[u],
        forall|j: int|
            0 <= j < m.len() ==> (neighbors(m, i).contains(j as usize) <==> j != i && m[i][j]),
{
    assert(m[i].len() == m.len());
    lemma_neighbors_below(m[i], i, m.len() as int);
    assert forall|j: int| 0 <= j < m.len() implies (neighbors(m, i).contains(j as usize) <==> j
        != i && m[i][j]) by {
        if neighbors(m, i).contains(j as usize) {
            let t = choose|t: int| 0 <= t < neighbors(m, i).len() && neighbors(m, i)[t] == j as usize;
            assert(neighbors(m, i)[t] == j as usize);
        }
    }
}

/// The neighbourhood size of a point is the number of points within its
/// radius, the point itself included when it lies within its own radius;
/// a point is a core point exactly when that number reaches `min_pts`.
pub proof fn lemma_neighbourhood_size_counts_points(m: Seq<Seq<bool>>, i: int)
    requires
        is_square(m),
        0 <= i < m.len(),
        m.len() <= usize::MAX,
    ensures
        neighbourhood_size(m, i) == Set::new(|j: usize| (j as int) < m.len() && m[i][j as int]).len(),
        Set::new(|j: usize| (j as int) < m.len() && m[i][j as int]).finite(),
        forall|min_pts: nat|
            #[trigger] is_core(m, min_pts, i) <==> Set::new(
                |j: usize| (j as int) < m.len() && m[i][j as int],
            ).len() >= min_pts,
{
    let nb = neighbors(m, i);
    lemma_neighbors_exact(m, i);
    assert(nb.no_duplicates()) by {
        assert forall|t: int, u: int| 0 <= t < nb.len() && 0 <= u < nb.len() && t != u implies nb[t]
            != nb[u] by {
            if t < u {
                assert(nb[t] < nb[u]);
            } else {
                assert(nb[u] < nb[t]);
            }
        }
    }
    nb.unique_seq_to_set();
    let within = Set::new(|j: usize| (j as int) < m.len() && m[i][j as int]);
    let others = nb.to_set();
    assert(m[i].len() == m.len());
    lemma_neighbors_below(m[i], i, m.len() as int);
    assert forall|j: usize| #[trigger] others.contains(j) <==> (j as int) < m.len() && j as int
        != i && m[i][j as int] by {
        if others.contains(j) {
            let t = choose|t: int| 0 <= t < nb.len() && nb[t] == j;
            assert(nb[t] == j);
        } else if (j as int) < m.len() && j as int != i && m[i][j as int] {
            assert(nb.contains(j));
        }
    }
    vstd::seq_lib::seq_to_set_is_finite(nb);
    if m[i][i] {
        assert(within =~= others.insert(i as usize));
        assert(!others.contains(i as usize));
        vstd::set::axiom_set_insert_len(others, i as usize);
    } else {
        assert(within =~= others);
    }
}

/// Membership in `neighbors` is adjacency.
pub proof fn lemma_neighbors(m: Seq<Seq<bool>>, i: int)
    requires
        is_square(m),
        0 <= i < m.len(),
        m.len() <= usize::MAX,
    ensures
        forall|t: int|
            0 <= t < neighbors(m, i).len() ==> adjacent(m, i, #[trigger] neighbors(m, i)[t] as int),
        forall|j: int| #[trigger] adjacent(m, i, j) ==> neighbors(m, i).contains(j as usize),
{
    assert(m[i].len() == m.len());
    lemma_neighbors_below(m[i], i, m.len() as int);
}

/// Step `k` of a chain: a core point followed by one of its neighbours.
pub open spec fn chain_step(m: Seq<Seq<bool>>, min_pts: nat, path: Seq<int>, k: int) -> bool {
    &&& is_core(m, min_pts, path[k])
    &&& adjacent(m, path[k], path[k + 1])
}

/// A chain of core points, each a neighbour of the one before it, that may
/// end in any point.
pub open spec fn is_chain(m: Seq<Seq<bool>>, min_pts: nat, path: Seq<int>) -> bool {
    &&& path.len() >= 1
    &&& forall|k: int| 0 <= k < path.len() - 1 ==> #[trigger] chain_step(m, min_pts, path, k)
}

/// Point `to` is density-reachable from `from`.
pub open spec fn reaches(m: Seq<Seq<bool>>, min_pts: nat, from: int, to: int) -> bool {
    exists|path: Seq<int>|
        #[trigger] is_chain(m, min_pts, path) && path[0] == from && path.last() == to
}

/// Point `p` is a neighbour of some core point.
pub open spec fn near_core(m: Seq<Seq<bool>>, min_pts: nat, p: int) -> bool {
    exists|q: int| #[trigger] adjacent(m, q, p) && is_core(m, min_pts, q)
}

/// Every neighbour of a labelled core point is labelled, with a cluster
/// number no greater than that of the core point.
pub open spec fn core_closed(m: Seq<Seq<bool>>, min_pts: nat, labels: Seq<Option<usize>>) -> bool {
    forall|p: int, q: int|
        is_core(m, min_pts, p) && #[trigger] adjacent(m, p, q) && labels[p] is Some ==> {
            &&& labels[q] is Some
            &&& labels[q]->0 <= labels[p]->0
        }
}

/// A labelled point that is not a core point is a neighbour of a core point
/// of its own cluster.
pub open spec fn borders_attached(
    m: Seq<Seq<bool>>,
    min_pts: nat,
    labels: Seq<Option<usize>>,
) -> bool {
    forall|p: int|
        #![trigger labels[p]]
        0 <= p < labels.len() && labels[p] is Some && !is_core(m, min_pts, p) ==> exists|q: int|
            is_core(m, min_pts, q) && #[trigger] adjacent(m, q, p) && labels[q] == labels[p]
}

/// Cluster `c` is grown from the core point `seeds[c]`: the seeds are
/// increasing, each is the first core point of its cluster, and every point
/// of a cluster is density-reachable from its seed.
pub open spec fn seeded_by(
    m: Seq<Seq<bool>>,
    min_pts: nat,
    labels: Seq<Option<usize>>,
    seeds: Seq<usize>,
) -> bool {
    &&& forall|c: int|
        #![trigger seeds[c]]
        0 <= c < seeds.len() ==> is_core(m, min_pts, seeds[c] as int) && labels[seeds[c] as int]
            == Some(c as usize)
    &&& forall|c: int, d: int| 0 <= c < d < seeds.len() ==> #[trigger] seeds[c] < #[trigger] seeds[d]
    &&& forall|p: int|
        #![trigger labels[p]]
        0 <= p < labels.len() && labels[p] is Some ==> {
            &&& labels[p]->0 < seeds.len()
            &&& reaches(m, min_pts, seeds[labels[p]->0 as int] as int, p)
        }
    &&& forall|p: int|
        #![trigger labels[p]]
        is_core(m, min_pts, p) && labels[p] is Some ==> seeds[labels[p]->0 as int] <= p
}

/// What DBSCAN computes: a point is labelled exactly when it is a core point
/// or a neighbour of one; neighbouring core points share their cluster when
/// the relation is symmetric; a border point joins the lowest-numbered
/// cluster among its core neighbours; clusters are numbered from 0 in the
/// order of their first core point, and each is the set of points
/// density-reachable from that point.
pub open spec fn is_dbscan_labelling(
    m: Seq<Seq<bool>>,
    min_pts: nat,
    labels: Seq<Option<usize>>,
) -> bool {
    &&& labels.len() == m.len()
    &&& forall|p: int|
        #![trigger labels[p]]
        0 <= p < m.len() ==> (labels[p] is Some <==> is_core(m, min_pts, p) || near_core(
            m,
            min_pts,
            p,
        ))
    &&& core_closed(m, min_pts, labels)
    &&& borders_attached(m, min_pts, labels)
    &&& exists|seeds: Seq<usize>| #[trigger] seeded_by(m, min_pts, labels, seeds)
}

/// Point `x` on the work stack is a neighbour of a core point of cluster `c`.
spec fn fed_by(
    m: Seq<Seq<bool>>,
    min_pts: nat,
    labels: Seq<Option<usize>>,
    c: int,
    x: int,
) -> bool {
    exists|q: int|
        is_core(m, min_pts, q) && #[trigger] adjacent(m, q, x) && labels[q] == Some(c as usize)
}

/// The state of a clustering between two seeds: the points below `done`
/// have been visited and no cluster is being grown.
spec fn settled(
    m: Seq<Seq<bool>>,
    min_pts: nat,
    labels: Seq<Option<usize>>,
    seeds: Seq<usize>,
    done: int,
) -> bool {
    &&& labels.len() == m.len()
    &&& seeded_by(m, min_pts, labels, seeds)
    &&& seeds.len() <= done
    &&& forall|c: int| 0 <= c < seeds.len() ==> #[trigger] seeds[c] < done
    &&& forall|p: int| 0 <= p < done && is_core(m, min_pts, p) ==> #[trigger] labels[p] is Some
    &&& core_closed(m, min_pts, labels)
    &&& borders_attached(m, min_pts, labels)
}

/// The state of a clustering while the last cluster of `seeds` is grown
/// from the points on `stack`.
spec fn expanding(
    m: Seq<Seq<bool>>,
    min_pts: nat,
    labels: Seq<Option<usize>>,
    seeds: Seq<usize>,
    stack: Seq<usize>,
) -> bool {
    let c = seeds.len() - 1;
    let s = seeds[c];
    &&& seeds.len() >= 1
    &&& labels.len() == m.len()
    &&& seeded_by(m, min_pts, labels, seeds)
    &&& seeds.len() <= s + 1
    &&& forall|p: int| 0 <= p < s && is_core(m, min_pts, p) ==> #[trigger] labels[p] is Some
    &&& borders_attached(m, min_pts, labels)
    &&& forall|p: int, q: int|
        is_core(m, min_pts, p) && #[trigger] adjacent(m, p, q) && labels[p] is Some ==> {
            ||| labels[q] is Some && labels[q]->0 <= labels[p]->0
            ||| labels[p] == Some(c as usize) && stack.contains(q as usize)
        }
    &&& forall|t: int|
        0 <= t < stack.len() ==> fed_by(m, min_pts, labels, c, #[trigger] stack[t] as int)
}

/// Number of unlabelled points.
spec fn count_unlabelled(labels: Seq<Option<usize>>) -> nat
    decreases labels.len(),
{
    if labels.len() == 0 {
        0
    } else {
        count_unlabelled(labels.drop_last()) + if labels.last() is None {
            1nat
        } else {
            0nat
        }
    }
}

proof fn lemma_count_unlabelled(labels: Seq<Option<usize>>, x: int, v: usize)
    requires
        0 <= x < labels.len(),
        labels[x] is None,
    ensures
        count_unlabelled(labels.update(x, Some(v))) + 1 == count_unlabelled(labels),
    decreases labels.len(),
{
    let up = labels.update(x, Some(v));
    if x == labels.len() - 1 {
        assert(up.drop_last() =~= labels.drop_last());
    } else {
        assert(up.drop_last() =~= labels.drop_last().update(x, Some(v)));
        lemma_count_unlabelled(labels.drop_last(), x, v);
    }
}

/// Every point reaches itself.
pub proof fn lemma_reaches_self(m: Seq<Seq<bool>>, min_pts: nat, p: int)
    ensures
        reaches(m, min_pts, p, p),
{
    let path = seq![p];
    assert(is_chain(m, min_pts, path));
}

/// Reachability extends through a core point to its neighbours.
pub proof fn lemma_reaches_step(m: Seq<Seq<bool>>, min_pts: nat, s: int, q: int, x: int)
    requires
        reaches(m, min_pts, s, q),
        is_core(m, min_pts, q),
        adjacent(m, q, x),
    ensures
        reaches(m, min_pts, s, x),
{
    let path = choose|path: Seq<int>|
        #[trigger] is_chain(m, min_pts, path) && path[0] == s && path.last() == q;
    let longer = path.push(x);
    assert forall|k: int| 0 <= k < longer.len() - 1 implies #[trigger] chain_step(
        m,
        min_pts,
        longer,
        k,
    ) by {
        if k < path.len() - 1 {
            assert(chain_step(m, min_pts, path, k));
        }
    }
    assert(is_chain(m, min_pts, longer));
}

/// Popping a point that is already labelled keeps the expansion state.
proof fn lemma_skip_step(
    m: Seq<Seq<bool>>,
    min_pts: nat,
    labels: Seq<Option<usize>>,
    seeds: Seq<usize>,
    rest: Seq<usize>,
    x: usize,
)
    requires
        expanding(m, min_pts, labels, seeds, rest.push(x)),
        m.len() <= usize::MAX,
        0 <= x < labels.len(),
        labels[x as int] is Some,
    ensures
        expanding(m, min_pts, labels, seeds, rest),
{
    let c = seeds.len() - 1;
    let stack = rest.push(x);
    assert(labels[x as int]->0 < seeds.len());
    assert forall|p: int, q: int|
        is_core(m, min_pts, p) && #[trigger] adjacent(m, p, q) && labels[p] is Some implies {
        ||| labels[q] is Some && labels[q]->0 <= labels[p]->0
        ||| labels[p] == Some(c as usize) && rest.contains(q as usize)
    } by {
        if !(labels[q] is Some && labels[q]->0 <= labels[p]->0) {
            assert(labels[p] == Some(c as usize) && stack.contains(q as usize));
            let t = choose|t: int| 0 <= t < stack.len() && stack[t] == q as usize;
            if t == rest.len() {
                assert(stack[rest.len() as int] == x);
                assert(q == x as int);
            } else {
                assert(rest[t] == q as usize);
            }
        }
    }
    assert forall|t: int| 0 <= t < rest.len() implies fed_by(
        m,
        min_pts,
        labels,
        c,
        #[trigger] rest[t] as int,
    ) by {
        assert(stack[t] == rest[t]);
    }
}

/// Labelling an unlabelled point of the stack with the current cluster,
/// and pushing its neighbours when it is a core point, keeps the expansion
/// state.
proof fn lemma_label_step(
    m: Seq<Seq<bool>>,
    min_pts: nat,
    labels: Seq<Option<usize>>,
    seeds: Seq<usize>,
    rest: Seq<usize>,
    x: usize,
    next_stack: Seq<usize>,
)
    requires
        expanding(m, min_pts, labels, seeds, rest.push(x)),
        is_square(m),
        m.len() <= usize::MAX,
        0 <= x < labels.len(),
        labels[x as int] is None,
        next_stack == if is_core(m, min_pts, x as int) {
            rest + neighbors(m, x as int)
        } else {
            rest
        },
    ensures
        expanding(
            m,
            min_pts,
            labels.update(x as int, Some((seeds.len() - 1) as usize)),
            seeds,
            next_stack,
        ),
{
    let c = seeds.len() - 1;
    let s = seeds[c];
    let stack = rest.push(x);
    let new_labels = labels.update(x as int, Some(c as usize));
    let xi = x as int;
    assert(stack[rest.len() as int] == x);
    assert(fed_by(m, min_pts, labels, c, xi));
    let q0 = choose|q: int|
        is_core(m, min_pts, q) && #[trigger] adjacent(m, q, xi) && labels[q] == Some(c as usize);
    lemma_neighbors(m, xi);
    // seeds
    assert forall|d: int| #![trigger seeds[d]] 0 <= d < seeds.len() implies is_core(
        m,
        min_pts,
        seeds[d] as int,
    ) && new_labels[seeds[d] as int] == Some(d as usize) by {
        assert(labels[seeds[d] as int] == Some(d as usize));
    }
    assert forall|p: int|
        #![trigger new_labels[p]]
        0 <= p < new_labels.len() && new_labels[p] is Some implies {
        &&& new_labels[p]->0 < seeds.len()
        &&& reaches(m, min_pts, seeds[new_labels[p]->0 as int] as int, p)
    } by {
        if p == xi {
            assert(labels[q0] is Some);
            lemma_reaches_step(m, min_pts, s as int, q0, xi);
        } else {
            assert(labels[p] is Some);
        }
    }
    assert forall|p: int|
        #![trigger new_labels[p]]
        is_core(m, min_pts, p) && new_labels[p] is Some implies seeds[new_labels[p]->0 as int]
        <= p by {
        if p == xi {
            if p < s {
                assert(labels[p] is Some);
            }
        } else {
            assert(labels[p] is Some);
        }
    }
    assert(seeded_by(m, min_pts, new_labels, seeds));
    assert forall|p: int| 0 <= p < s && is_core(m, min_pts, p) implies #[trigger] new_labels[p] is Some by {
        assert(labels[p] is Some);
    }
    assert forall|p: int|
        #![trigger new_labels[p]]
        0 <= p < new_labels.len() && new_labels[p] is Some && !is_core(m, min_pts, p) implies exists|q: int|
        is_core(m, min_pts, q) && #[trigger] adjacent(m, q, p) && new_labels[q] == new_labels[p] by {
        if p == xi {
            assert(new_labels[q0] == labels[q0]);
            assert(is_core(m, min_pts, q0) && adjacent(m, q0, p) && new_labels[q0] == new_labels[p]);
        } else {
            assert(labels[p] is Some);
            let q = choose|q: int|
                is_core(m, min_pts, q) && #[trigger] adjacent(m, q, p) && labels[q] == labels[p];
            assert(new_labels[q] == labels[q]);
            assert(is_core(m, min_pts, q) && adjacent(m, q, p) && new_labels[q] == new_labels[p]);
        }
    }
    assert forall|p: int, q: int|
        is_core(m, min_pts, p) && #[trigger] adjacent(m, p, q) && new_labels[p] is Some implies {
        ||| new_labels[q] is Some && new_labels[q]->0 <= new_labels[p]->0
        ||| new_labels[p] == Some(c as usize) && next_stack.contains(q as usize)
    } by {
        if p == xi {
            assert(neighbors(m, xi).contains(q as usize));
            let t = choose|t: int| 0 <= t < neighbors(m, xi).len() && neighbors(m, xi)[t] == q as usize;
            assert(next_stack[rest.len() + t] == q as usize);
        } else {
            assert(labels[p] is Some);
            if q == xi {
                assert(!(labels[q] is Some));
            } else if !(labels[q] is Some && labels[q]->0 <= labels[p]->0) {
                assert(stack.contains(q as usize));
                let t = choose|t: int| 0 <= t < stack.len() && stack[t] == q as usize;
                assert(t != rest.len());
                assert(next_stack[t] == q as usize);
            }
        }
    }
    assert forall|t: int| 0 <= t < next_stack.len() implies fed_by(
        m,
        min_pts,
        new_labels,
        c,
        #[trigger] next_stack[t] as int,
    ) by {
        if t < rest.len() {
            let y = rest[t] as int;
            assert(stack[t] == rest[t]);
            assert(fed_by(m, min_pts, labels, c, y));
            let q = choose|q: int|
                is_core(m, min_pts, q) && #[trigger] adjacent(m, q, y) && labels[q] == Some(c as usize);
            assert(new_labels[q] == labels[q]);
            assert(is_core(m, min_pts, q) && adjacent(m, q, y) && new_labels[q] == Some(c as usize));
        } else {
            let y = next_stack[t] as int;
            assert(next_stack[t] == neighbors(m, xi)[t - rest.len()]);
            assert(adjacent(m, xi, y));
            assert(is_core(m, min_pts, xi) && adjacent(m, xi, y) && new_labels[xi] == Some(c as usize));
        }
    }
}

/// Starting a cluster at an unlabelled core point `i`.
proof fn lemma_seed_step(
    m: Seq<Seq<bool>>,
    min_pts: nat,
    labels: Seq<Option<usize>>,
    seeds: Seq<usize>,
    i: usize,
)
    requires
        settled(m, min_pts, labels, seeds, i as int),
        is_square(m),
        m.len() <= usize::MAX,
        0 <= i < m.len(),
        labels[i as int] is None,
        is_core(m, min_pts, i as int),
    ensures
        expanding(
            m,
            min_pts,
            labels.update(i as int, Some(seeds.len() as usize)),
            seeds.push(i),
            neighbors(m, i as int),
        ),
{
    let c = seeds.len();
    let ii = i as int;
    let new_labels = labels.update(ii, Some(c as usize));
    let new_seeds = seeds.push(i);
    let stack = neighbors(m, ii);
    lemma_neighbors(m, ii);
    assert forall|d: int| #![trigger new_seeds[d]] 0 <= d < new_seeds.len() implies is_core(
        m,
        min_pts,
        new_seeds[d] as int,
    ) && new_labels[new_seeds[d] as int] == Some(d as usize) by {
        if d < c {
            assert(seeds[d] == new_seeds[d]);
            assert(seeds[d] < i);
        }
    }
    assert forall|d: int, e: int| 0 <= d < e < new_seeds.len() implies #[trigger] new_seeds[d]
        < #[trigger] new_seeds[e] by {
        assert(seeds[d] < i);
        if e < c {
            assert(seeds[d] < seeds[e]);
        }
    }
    assert forall|p: int|
        #![trigger new_labels[p]]
        0 <= p < new_labels.len() && new_labels[p] is Some implies {
        &&& new_labels[p]->0 < new_seeds.len()
        &&& reaches(m, min_pts, new_seeds[new_labels[p]->0 as int] as int, p)
    } by {
        if p == ii {
            lemma_reaches_self(m, min_pts, ii);
        } else {
            assert(labels[p] is Some);
            assert(new_seeds[labels[p]->0 as int] == seeds[labels[p]->0 as int]);
        }
    }
    assert forall|p: int|
        #![trigger new_labels[p]]
        is_core(m, min_pts, p) && new_labels[p] is Some implies new_seeds[new_labels[p]->0 as int]
        <= p by {
        if p != ii {
            assert(labels[p] is Some);
            assert(new_seeds[labels[p]->0 as int] == seeds[labels[p]->0 as int]);
        }
    }
    assert(seeded_by(m, min_pts, new_labels, new_seeds));
    assert forall|p: int| 0 <= p < i && is_core(m, min_pts, p) implies #[trigger] new_labels[p] is Some by {
        assert(labels[p] is Some);
    }
    assert forall|p: int|
        #![trigger new_labels[p]]
        0 <= p < new_labels.len() && new_labels[p] is Some && !is_core(m, min_pts, p) implies exists|q: int|
        is_core(m, min_pts, q) && #[trigger] adjacent(m, q, p) && new_labels[q] == new_labels[p] by {
        assert(labels[p] is Some);
        let q = choose|q: int|
            is_core(m, min_pts, q) && #[trigger] adjacent(m, q, p) && labels[q] == labels[p];
        assert(new_labels[q] == labels[q]);
        assert(is_core(m, min_pts, q) && adjacent(m, q, p) && new_labels[q] == new_labels[p]);
    }
    assert forall|p: int, q: int|
        is_core(m, min_pts, p) && #[trigger] adjacent(m, p, q) && new_labels[p] is Some implies {
        ||| new_labels[q] is Some && new_labels[q]->0 <= new_labels[p]->0
        ||| new_labels[p] == Some(c as usize) && stack.contains(q as usize)
    } by {
        if p != ii {
            assert(labels[p] is Some);
            assert(labels[q] is Some && labels[q]->0 <= labels[p]->0);
            assert(q != ii);
        }
    }
    assert forall|t: int| 0 <= t < stack.len() implies fed_by(
        m,
        min_pts,
        new_labels,
        c as int,
        #[trigger] stack[t] as int,
    ) by {
        let y = stack[t] as int;
        assert(adjacent(m, ii, y));
        assert(is_core(m, min_pts, ii) && adjacent(m, ii, y) && new_labels[ii] == Some(c as usize));
    }
}

/// A cluster whose stack has run empty leaves a settled state.
proof fn lemma_finish_cluster(
    m: Seq<Seq<bool>>,
    min_pts: nat,
    labels: Seq<Option<usize>>,
    seeds: Seq<usize>,
)
    requires
        expanding(m, min_pts, labels, seeds, Seq::empty()),
    ensures
        settled(m, min_pts, labels, seeds, seeds.last() + 1),
{
    let c = seeds.len() - 1;
    let s = seeds[c];
    assert forall|d: int| 0 <= d < seeds.len() implies #[trigger] seeds[d] < s + 1 by {
        if d < c {
            assert(seeds[d] < seeds[c]);
        }
    }
    assert forall|p: int| 0 <= p < s + 1 && is_core(m, min_pts, p) implies #[trigger] labels[p] is Some by {
        if p == s {
            assert(labels[seeds[c] as int] == Some(c as usize));
        }
    }
    assert forall|p: int, q: int|
        is_core(m, min_pts, p) && #[trigger] adjacent(m, p, q) && labels[p] is Some implies {
        &&& labels[q] is Some
        &&& labels[q]->0 <= labels[p]->0
    } by {
        assert(!Seq::<usize>::empty().contains(q as usize));
    }
}

/// Visiting a point that is labelled or not a core point starts nothing.
proof fn lemma_visit_step(
    m: Seq<Seq<bool>>,
    min_pts: nat,
    labels: Seq<Option<usize>>,
    seeds: Seq<usize>,
    i: int,
)
    requires
        settled(m, min_pts, labels, seeds, i),
        0 <= i < m.len(),
        labels[i] is Some || !is_core(m, min_pts, i),
    ensures
        settled(m, min_pts, labels, seeds, i + 1),
{
}

/// A settled state over all points is a DBSCAN labelling.
proof fn lemma_settled_is_labelling(
    m: Seq<Seq<bool>>,
    min_pts: nat,
    labels: Seq<Option<usize>>,
    seeds: Seq<usize>,
)
    requires
        settled(m, min_pts, labels, seeds, m.len() as int),
    ensures
        is_dbscan_labelling(m, min_pts, labels),
{
    assert forall|p: int|
        #![trigger labels[p]]
        0 <= p < m.len() implies (labels[p] is Some <==> is_core(m, min_pts, p) || near_core(
        m,
        min_pts,
        p,
    )) by {
        if labels[p] is Some && !is_core(m, min_pts, p) {
            let q = choose|q: int|
                is_core(m, min_pts, q) && #[trigger] adjacent(m, q, p) && labels[q] == labels[p];
            assert(adjacent(m, q, p) && is_core(m, min_pts, q));
        }
        if near_core(m, min_pts, p) {
            let q = choose|q: int| #[trigger] adjacent(m, q, p) && is_core(m, min_pts, q);
            assert(labels[q] is Some);
        }
    }
    assert(seeded_by(m, min_pts, labels, seeds));
}

/// The within-radius relation is symmetric, as it is for any distance.
pub open spec fn is_symmetric(m: Seq<Seq<bool>>) -> bool {
    forall|i: int, j: int| #[trigger] adjacent(m, i, j) ==> adjacent(m, j, i)
}

/// Two core points that are each other's neighbours are in the same
/// cluster.
pub proof fn lemma_neighbouring_cores_share_cluster(
    m: Seq<Seq<bool>>,
    min_pts: nat,
    labels: Seq<Option<usize>>,
    p: int,
    q: int,
)
    requires
        is_dbscan_labelling(m, min_pts, labels),
        is_core(m, min_pts, p),
        is_core(m, min_pts, q),
        adjacent(m, p, q),
        adjacent(m, q, p),
    ensures
        labels[p] is Some,
        labels[p] == labels[q],
{
    assert(labels[p] is Some);
    assert(labels[q] is Some);
}

/// A border point (labelled, not a core point) belongs to the
/// lowest-numbered cluster among those of its core neighbours.
pub proof fn lemma_border_joins_lowest_cluster(
    m: Seq<Seq<bool>>,
    min_pts: nat,
    labels: Seq<Option<usize>>,
    b: int,
)
    requires
        is_dbscan_labelling(m, min_pts, labels),
        0 <= b < m.len(),
        labels[b] is Some,
        !is_core(m, min_pts, b),
    ensures
        exists|q: int| is_core(m, min_pts, q) && #[trigger] adjacent(m, q, b) && labels[q] == labels[b],
        forall|q: int|
            is_core(m, min_pts, q) && #[trigger] adjacent(m, q, b) ==> labels[q] is Some
                && labels[b]->0 <= labels[q]->0,
{
    assert forall|q: int| is_core(m, min_pts, q) && #[trigger] adjacent(m, q, b) implies labels[q] is Some
        && labels[b]->0 <= labels[q]->0 by {
        assert(labels[q] is Some);
    }
}

/// Along a chain whose last point is a core point, every point is a core
/// point; with a symmetric relation the chain can be walked backwards.
proof fn lemma_chain_reverse(m: Seq<Seq<bool>>, min_pts: nat, path: Seq<int>)
    requires
        is_symmetric(m),
        is_chain(m, min_pts, path),
        is_core(m, min_pts, path.last()),
    ensures
        is_chain(m, min_pts, path.reverse()),
        path.reverse()[0] == path.last(),
        path.reverse().last() == path[0],
{
    let r = path.reverse();
    let n = path.len();
    assert forall|k: int| 0 <= k < r.len() - 1 implies #[trigger] chain_step(m, min_pts, r, k) by {
        let a = n - 1 - k;
        let b = n - 2 - k;
        assert(chain_step(m, min_pts, path, b));
        assert(r[k] == path[a]);
        assert(r[k + 1] == path[b]);
        if a < n - 1 {
            assert(chain_step(m, min_pts, path, a));
        }
    }
}

/// Chains join end to start when the first ends in a core point.
proof fn lemma_chain_concat(m: Seq<Seq<bool>>, min_pts: nat, first: Seq<int>, second: Seq<int>)
    requires
        is_chain(m, min_pts, first),
        is_chain(m, min_pts, second),
        first.last() == second[0],
        is_core(m, min_pts, first.last()),
    ensures
        is_chain(m, min_pts, first + second.drop_first()),
        (first + second.drop_first())[0] == first[0],
        (first + second.drop_first()).last() == second.last(),
{
    let joined = first + second.drop_first();
    let f = first.len();
    assert forall|k: int| 0 <= k < joined.len() - 1 implies #[trigger] chain_step(
        m,
        min_pts,
        joined,
        k,
    ) by {
        if k < f - 1 {
            assert(chain_step(m, min_pts, first, k));
        } else if k == f - 1 {
            assert(chain_step(m, min_pts, second, 0));
            assert(joined[k + 1] == second[1]);
        } else {
            assert(chain_step(m, min_pts, second, k - f + 1));
            assert(joined[k] == second[k - f + 1]);
            assert(joined[k + 1] == second[k - f + 2]);
        }
    }
    if second.len() == 1 {
        assert(joined =~= first);
    }
}

/// Along a chain of core points with a symmetric relation, every point is
/// in the cluster of the first.
proof fn lemma_chain_one_cluster(
    m: Seq<Seq<bool>>,
    min_pts: nat,
    labels: Seq<Option<usize>>,
    path: Seq<int>,
    k: int,
)
    requires
        is_dbscan_labelling(m, min_pts, labels),
        is_symmetric(m),
        is_chain(m, min_pts, path),
        is_core(m, min_pts, path.last()),
        0 <= k < path.len(),
    ensures
        labels[path[k]] == labels[path[0]],
    decreases k,
{
    if k > 0 {
        lemma_chain_one_cluster(m, min_pts, labels, path, k - 1);
        assert(chain_step(m, min_pts, path, k - 1));
        if k < path.len() - 1 {
            assert(chain_step(m, min_pts, path, k));
        }
        lemma_neighbouring_cores_share_cluster(m, min_pts, labels, path[k - 1], path[k]);
    }
}

/// With a symmetric relation, two core points are in the same cluster
/// exactly when one is density-reachable from the other.
pub proof fn lemma_cores_cluster_iff_connected(
    m: Seq<Seq<bool>>,
    min_pts: nat,
    labels: Seq<Option<usize>>,
    p: int,
    q: int,
)
    requires
        is_dbscan_labelling(m, min_pts, labels),
        is_symmetric(m),
        is_core(m, min_pts, p),
        is_core(m, min_pts, q),
    ensures
        labels[p] == labels[q] <==> reaches(m, min_pts, p, q),
{
    if reaches(m, min_pts, p, q) {
        let path = choose|path: Seq<int>|
            #[trigger] is_chain(m, min_pts, path) && path[0] == p && path.last() == q;
        lemma_chain_one_cluster(m, min_pts, labels, path, path.len() - 1);
    }
    if labels[p] == labels[q] {
        let seeds = choose|seeds: Seq<usize>| #[trigger] seeded_by(m, min_pts, labels, seeds);
        assert(labels[p] is Some);
        assert(labels[q] is Some);
        let s = seeds[labels[p]->0 as int] as int;
        assert(is_core(m, min_pts, s));
        assert(reaches(m, min_pts, s, p));
        assert(reaches(m, min_pts, s, q));
        let to_p = choose|path: Seq<int>|
            #[trigger] is_chain(m, min_pts, path) && path[0] == s && path.last() == p;
        let to_q = choose|path: Seq<int>|
            #[trigger] is_chain(m, min_pts, path) && path[0] == s && path.last() == q;
        lemma_chain_reverse(m, min_pts, to_p);
        lemma_chain_concat(m, min_pts, to_p.reverse(), to_q);
        assert(is_chain(m, min_pts, to_p.reverse() + to_q.drop_first()));
    }
}

/// The clustering parameters.
pub struct DBSCAN {
    min_pts: usize,
}

impl DBSCAN {
    /// Minimum neighbourhood size of a core point.
    pub closed spec fn min_pts(&self) -> nat {
        self.min_pts as nat
    }

    /// Clustering with the given core-point threshold.
    pub fn new(min_pts: usize) -> (dbscan: Self)
        ensures
            dbscan.min_pts() == min_pts,
    {
        DBSCAN { min_pts }
    }

    /// The neighbours of `index`, in increasing order.
    fn get_neighbors(&self, index: usize, within: &Vec<Vec<bool>>) -> (res: Vec<usize>)
        requires
            index < within@.len(),
            is_square(matrix_view(within)),
        ensures
            res@ == neighbors(matrix_view(within), index as int),
    {
        let ghost m = matrix_view(within);
        let row = &within[index];
        assert(row@ == m[index as int]);
        assert(row@.len() == within@.len());
        let mut res: Vec<usize> = Vec::new();
        let n = within.len();
        let mut i: usize = 0;
        while i < n
            invariant
                0 <= i <= n,
                n == within@.len(),
                row@.len() == n,
                row@ == m[index as int],
                m.len() == n,
                res@ == neighbors_below(row@, index as int, i as int),
            decreases n - i,
        {
            if i != index && row[i] {
                res.push(i);
            }
            i = i + 1;
        }
        res
    }

    /// Whether a point with `count` neighbours is a core point, where
    /// `counts_itself` tells whether it lies within its own radius.
    fn is_core_count(&self, count: usize, counts_itself: bool) -> (core: bool)
        ensures
            core == (count + (if counts_itself {
                1int
            } else {
                0int
            }) >= self.min_pts()),
    {
        if counts_itself {
            self.min_pts == 0 || count >= self.min_pts - 1
        } else {
            count >= self.min_pts
        }
    }

    /// Grows cluster `cluster_id` from its seed `index` and the seed's
    /// neighbours.
    fn expand_cluster(
        &self,
        index: usize,
        neighbors: &Vec<usize>,
        labels: &mut Vec<Option<usize>>,
        cluster_id: usize,
        within: &Vec<Vec<bool>>,
        Ghost(seeds): Ghost<Seq<usize>>,
    )
        requires
            is_square(matrix_view(within)),
            expanding(matrix_view(within), self.min_pts(), old(labels)@, seeds, neighbors@),
            seeds.len() >= 1,
            cluster_id == seeds.len() - 1,
            index == seeds.last(),
        ensures
            expanding(matrix_view(within), self.min_pts(), final(labels)@, seeds, Seq::empty()),
    {
        let ghost m = matrix_view(within);
        let n = within.len();
        let mut stack = neighbors.clone();
        assert(stack@ =~= neighbors@);
        while stack.len() > 0
            invariant
                is_square(m),
                m == matrix_view(within),
                m.len() == within@.len(),
                m.len() == n,
                seeds.len() >= 1,
                cluster_id == seeds.len() - 1,
                expanding(m, self.min_pts(), labels@, seeds, stack@),
            decreases count_unlabelled(labels@), stack@.len(),
        {
            let ghost before = labels@;
            let ghost rest = stack@.drop_last();
            assert(stack@ =~= rest.push(stack@.last()));
            let neighbor_idx = stack.pop().unwrap();
            assert(stack@ == rest);
            assert(fed_by(m, self.min_pts(), before, cluster_id as int, neighbor_idx as int)) by {
                assert(rest.push(neighbor_idx)[rest.len() as int] == neighbor_idx);
            }
            if labels[neighbor_idx].is_none() {
                labels[neighbor_idx] = Some(cluster_id);
                proof {
                    lemma_count_unlabelled(before, neighbor_idx as int, cluster_id);
                }
                let mut new_neighbors = self.get_neighbors(neighbor_idx, within);
                let core = self.is_core_count(new_neighbors.len(), within[neighbor_idx][neighbor_idx]);
                if core {
                    stack.append(&mut new_neighbors);
                }
                proof {
                    lemma_label_step(m, self.min_pts(), before, seeds, rest, neighbor_idx, stack@);
                }
            } else {
                proof {
                    lemma_skip_step(m, self.min_pts(), before, seeds, rest, neighbor_idx);
                }
            }
        }
        assert(stack@ =~= Seq::<usize>::empty());
    }

    /// Labels each point with its cluster number, or `None` for noise.
    ///
    /// `within[i][j]` tells whether point `j` lies within the neighbourhood
    /// radius of point `i`.
    pub fn cluster(&self, within: &Vec<Vec<bool>>) -> (labels: Vec<Option<usize>>)
        requires
            is_square(matrix_view(within)),
        ensures
            is_dbscan_labelling(matrix_view(within), self.min_pts(), labels@),
    {
        let ghost m = matrix_view(within);
        let n = within.len();
        let mut labels: Vec<Option<usize>> = Vec::new();
        let mut k: usize = 0;
        while k < n
            invariant
                k <= n,
                labels@.len() == k,
                forall|p: int| 0 <= p < k ==> #[trigger] labels@[p] is None,
            decreases n - k,
        {
            labels.push(None);
            k = k + 1;
        }
        let mut cluster_id: usize = 0;
        let ghost mut seeds: Seq<usize> = Seq::empty();
        let mut i: usize = 0;
        while i < n
            invariant
                i <= n,
                n == within@.len(),
                m == matrix_view(within),
                m.len() == n,
                is_square(m),
                cluster_id == seeds.len(),
                settled(m, self.min_pts(), labels@, seeds, i as int),
            decreases n - i,
        {
            if labels[i].is_none() {
                let neighbors = self.get_neighbors(i, within);
                if self.is_core_count(neighbors.len(), within[i][i]) {
                    let ghost before = labels@;
                    labels[i] = Some(cluster_id);
                    proof {
                        lemma_seed_step(m, self.min_pts(), before, seeds, i);
                        seeds = seeds.push(i);
                    }
                    self.expand_cluster(i, &neighbors, &mut labels, cluster_id, within, Ghost(seeds));
                    proof {
                        lemma_finish_cluster(m, self.min_pts(), labels@, seeds);
                    }
                    cluster_id = cluster_id + 1;
                } else {
                    proof {
                        lemma_visit_step(m, self.min_pts(), labels@, seeds, i as int);
                    }
                }
            } else {
                proof {
                    lemma_visit_step(m, self.min_pts(), labels@, seeds, i as int);
                }
            }
            i = i + 1;
        }
        proof {
            lemma_settled_is_labelling(m, self.min_pts(), labels@, seeds);
        }
        labels
    }
}

} // verus!
