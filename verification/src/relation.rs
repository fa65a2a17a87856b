//! A mapping from keys to sets of values, read as a set of edges between the
//! two sides, and what inversion does to it.

use vstd::prelude::*;
use vstd::relations::injective_on;
use vstd::set_lib::lemma_map_size;

verus! {

/// The edges of a mapping: a key paired with each value in its set.
pub open spec fn edges_of<K, V>(m: Map<K, Set<V>>) -> Set<(K, V)> {
    Set::new(|e: (K, V)| m.dom().contains(e.0) && m[e.0].contains(e.1))
}

/// The mapping that groups edges by their first side. A key is present where
/// some edge starts at it, so no key has an empty set.
pub open spec fn mapping_of<K, V>(edges: Set<(K, V)>) -> Map<K, Set<V>> {
    Map::new(
        |k: K| exists|v: V| edges.contains((k, v)),
        |k: K| Set::new(|v: V| edges.contains((k, v))),
    )
}

/// Every edge turned round.
pub open spec fn flipped<K, V>(edges: Set<(K, V)>) -> Set<(V, K)> {
    Set::new(|e: (V, K)| edges.contains((e.1, e.0)))
}

/// The mapping grouped by the other side: every edge of `m` turned round,
/// nothing added and nothing dropped.
pub open spec fn inverted<K, V>(m: Map<K, Set<V>>) -> Map<V, Set<K>> {
    mapping_of(flipped(edges_of(m)))
}

/// No key of `m` maps to the empty set.
pub open spec fn no_empty_values<K, V>(m: Map<K, Set<V>>) -> bool {
    forall|k: K| #[trigger] m.dom().contains(k) ==> m[k] != Set::<V>::empty()
}

/// `m` with the edge from `k` to `v` added.
pub open spec fn with_edge<K, V>(m: Map<K, Set<V>>, k: K, v: V) -> Map<K, Set<V>> {
    if m.dom().contains(k) {
        m.insert(k, m[k].insert(v))
    } else {
        m.insert(k, Set::<V>::empty().insert(v))
    }
}

/// Grouping edges and reading them back gives the same edges.
pub proof fn lemma_edges_of_mapping<K, V>(edges: Set<(K, V)>)
    ensures
        edges_of(mapping_of(edges)) == edges,
{
    let back = edges_of(mapping_of(edges));
    assert forall|e: (K, V)| back.contains(e) <==> edges.contains(e) by {
        if edges.contains(e) {
            assert(edges.contains((e.0, e.1)));
        }
    }
    assert(back =~= edges);
}

/// A mapping without empty sets is the grouping of its own edges.
pub proof fn lemma_mapping_of_edges<K, V>(m: Map<K, Set<V>>)
    requires
        no_empty_values(m),
    ensures
        mapping_of(edges_of(m)) == m,
{
    let edges = edges_of(m);
    let back = mapping_of(edges);
    assert forall|k: K| back.dom().contains(k) <==> m.dom().contains(k) by {
        if m.dom().contains(k) {
            assert(m[k] != Set::<V>::empty());
            if forall|v: V| !m[k].contains(v) {
                assert(m[k] =~= Set::<V>::empty());
            }
            let v = choose|v: V| m[k].contains(v);
            assert(edges.contains((k, v)));
        }
    }
    assert(back.dom() =~= m.dom());
    assert forall|k: K| back.dom().contains(k) implies #[trigger] back[k] == m[k] by {
        assert(back[k] =~= m[k]);
    }
    assert(back =~= m);
}

/// The grouping of any edges has no empty set.
pub proof fn lemma_mapping_has_no_empty_values<K, V>(edges: Set<(K, V)>)
    ensures
        no_empty_values(mapping_of(edges)),
{
    let m = mapping_of(edges);
    assert forall|k: K| #[trigger] m.dom().contains(k) implies m[k] != Set::<V>::empty() by {
        let v = choose|v: V| edges.contains((k, v));
        assert(m[k].contains(v));
    }
}

/// Turning every edge round twice gives the same edges.
pub proof fn lemma_flipped_twice<K, V>(edges: Set<(K, V)>)
    ensures
        flipped(flipped(edges)) == edges,
{
    assert(flipped(flipped(edges)) =~= edges);
}

/// Adding an edge before grouping is adding it to the grouping.
pub proof fn lemma_mapping_with_edge<K, V>(edges: Set<(K, V)>, k: K, v: V)
    ensures
        mapping_of(edges.insert((k, v))) == with_edge(mapping_of(edges), k, v),
{
    let before = mapping_of(edges);
    let after = mapping_of(edges.insert((k, v)));
    let want = with_edge(before, k, v);
    assert forall|x: K| after.dom().contains(x) <==> want.dom().contains(x) by {
        if after.dom().contains(x) {
            let y = choose|y: V| edges.insert((k, v)).contains((x, y));
            if x != k {
                assert(edges.contains((x, y)));
            }
        }
        if want.dom().contains(x) {
            if x == k {
                assert(edges.insert((k, v)).contains((x, v)));
            } else {
                let y = choose|y: V| edges.contains((x, y));
                assert(edges.insert((k, v)).contains((x, y)));
            }
        }
    }
    assert(after.dom() =~= want.dom());
    assert forall|x: K| after.dom().contains(x) implies #[trigger] after[x] == want[x] by {
        assert(after[x] =~= want[x]);
    }
    assert(after =~= want);
}

/// Turning a new edge round before or after adding it comes to the same.
pub proof fn lemma_flipped_insert<K, V>(edges: Set<(K, V)>, k: K, v: V)
    ensures
        flipped(edges.insert((k, v))) == flipped(edges).insert((v, k)),
{
    assert(flipped(edges.insert((k, v))) =~= flipped(edges).insert((v, k)));
}

/// Inverting a mapping without empty sets twice gives the mapping back.
pub proof fn lemma_inversion_round_trip<K, V>(m: Map<K, Set<V>>)
    requires
        no_empty_values(m),
    ensures
        inverted(inverted(m)) == m,
{
    let edges = edges_of(m);
    lemma_edges_of_mapping(flipped(edges));
    lemma_flipped_twice(edges);
    lemma_mapping_of_edges(m);
}

/// The inverted mapping has the edges of the mapping, each turned round.
pub proof fn lemma_edges_of_inverted<K, V>(m: Map<K, Set<V>>)
    ensures
        edges_of(inverted(m)) == flipped(edges_of(m)),
        no_empty_values(inverted(m)),
{
    lemma_edges_of_mapping(flipped(edges_of(m)));
    lemma_mapping_has_no_empty_values(flipped(edges_of(m)));
}

/// A mapping and its inversion have the same number of edges.
pub proof fn lemma_inversion_keeps_edge_count<K, V>(m: Map<K, Set<V>>)
    requires
        edges_of(m).finite(),
    ensures
        edges_of(inverted(m)).finite(),
        edges_of(inverted(m)).len() == edges_of(m).len(),
{
    let edges = edges_of(m);
    let turn = |e: (K, V)| (e.1, e.0);
    lemma_edges_of_inverted(m);
    assert(injective_on(turn, edges)) by {
        assert forall|a: (K, V), b: (K, V)|
            edges.contains(a) && edges.contains(b) && #[trigger] turn(a) == #[trigger] turn(
                b,
            ) implies a == b by {
            assert(a.0 == b.0 && a.1 == b.1);
        }
    }
    assert forall|e: (V, K)| flipped(edges).contains(e) implies edges.map(turn).contains(e) by {
        assert(edges.contains((e.1, e.0)));
        assert(turn((e.1, e.0)) == e);
    }
    assert(edges.map(turn) =~= flipped(edges));
    edges.lemma_map_finite(turn);
    lemma_map_size(edges, flipped(edges), turn);
}

/// Place `j` of row `i` exists.
pub open spec fn in_rows<E>(rows: Seq<Seq<E>>, i: int, j: int) -> bool {
    0 <= i < rows.len() && 0 <= j < rows[i].len()
}

/// Everything that stands in the rows.
pub open spec fn all_of<E>(rows: Seq<Seq<E>>) -> Set<E> {
    Set::new(|e: E| exists|a: int, b: int| in_rows(rows, a, b) && #[trigger] rows[a][b] == e)
}

/// What stands before place `j` of row `i`, reading row after row and each
/// row from its start.
pub open spec fn read_before<E>(rows: Seq<Seq<E>>, i: int, j: int) -> Set<E> {
    Set::new(
        |e: E|
            exists|a: int, b: int|
                in_rows(rows, a, b) && (a < i || (a == i && b < j)) && #[trigger] rows[a][b] == e,
    )
}

/// The number of places in the first `n` rows.
pub open spec fn places<E>(rows: Seq<Seq<E>>, n: int) -> nat
    decreases n,
{
    if n <= 0 {
        0
    } else {
        places(rows, n - 1) + rows[n - 1].len()
    }
}

/// Nothing stands at two places.
pub open spec fn all_distinct<E>(rows: Seq<Seq<E>>) -> bool {
    forall|a: int, b: int, c: int, d: int|
        in_rows(rows, a, b) && in_rows(rows, c, d) && #[trigger] rows[a][b] == #[trigger] rows[c][d]
            ==> a == c && b == d
}

/// Reading on by one place takes in what stands there.
pub proof fn lemma_read_step<E>(rows: Seq<Seq<E>>, i: int, j: int)
    requires
        in_rows(rows, i, j),
    ensures
        read_before(rows, i, j + 1) == read_before(rows, i, j).insert(rows[i][j]),
{
    let next = read_before(rows, i, j + 1);
    let want = read_before(rows, i, j).insert(rows[i][j]);
    assert forall|e: E| next.contains(e) implies want.contains(e) by {
        let (a, b) = choose|a: int, b: int|
            in_rows(rows, a, b) && (a < i || (a == i && b < j + 1)) && #[trigger] rows[a][b] == e;
        if !(a == i && b == j) {
            assert(in_rows(rows, a, b) && (a < i || (a == i && b < j)) && rows[a][b] == e);
        }
    }
    assert forall|e: E| want.contains(e) implies next.contains(e) by {
        if e == rows[i][j] {
            assert(in_rows(rows, i, j) && (i < i || (i == i && j < j + 1)) && rows[i][j] == e);
        } else {
            let (a, b) = choose|a: int, b: int|
                in_rows(rows, a, b) && (a < i || (a == i && b < j)) && #[trigger] rows[a][b] == e;
            assert(in_rows(rows, a, b) && (a < i || (a == i && b < j + 1)) && rows[a][b] == e);
        }
    }
    assert(next =~= want);
}

/// Having read a row to its end is standing before the next row.
pub proof fn lemma_read_next_row<E>(rows: Seq<Seq<E>>, i: int)
    requires
        0 <= i < rows.len(),
    ensures
        read_before(rows, i, rows[i].len() as int) == read_before(rows, i + 1, 0),
{
    let here = read_before(rows, i, rows[i].len() as int);
    let there = read_before(rows, i + 1, 0);
    assert forall|e: E| here.contains(e) implies there.contains(e) by {
        let (a, b) = choose|a: int, b: int|
            in_rows(rows, a, b) && (a < i || (a == i && b < rows[i].len())) && #[trigger] rows[a][b]
                == e;
        assert(in_rows(rows, a, b) && (a < i + 1 || (a == i + 1 && b < 0)) && rows[a][b] == e);
    }
    assert forall|e: E| there.contains(e) implies here.contains(e) by {
        let (a, b) = choose|a: int, b: int|
            in_rows(rows, a, b) && (a < i + 1 || (a == i + 1 && b < 0)) && #[trigger] rows[a][b]
                == e;
        assert(in_rows(rows, a, b) && (a < i || (a == i && b < rows[i].len())) && rows[a][b] == e);
    }
    assert(here =~= there);
}

/// Before the first row stands nothing; behind the last row stands all.
pub proof fn lemma_read_ends<E>(rows: Seq<Seq<E>>)
    ensures
        read_before(rows, 0, 0) == Set::<E>::empty(),
        read_before(rows, rows.len() as int, 0) == all_of(rows),
{
    assert(read_before(rows, 0, 0) =~= Set::<E>::empty());
    let all = read_before(rows, rows.len() as int, 0);
    assert forall|e: E| all_of(rows).contains(e) implies all.contains(e) by {
        let (a, b) = choose|a: int, b: int| in_rows(rows, a, b) && #[trigger] rows[a][b] == e;
        assert(in_rows(rows, a, b) && (a < rows.len() || (a == rows.len() && b < 0)) && rows[a][b]
            == e);
    }
    assert(all =~= all_of(rows));
}

/// Where nothing stands twice, what has been read is as much as the places
/// read.
pub proof fn lemma_read_count<E>(rows: Seq<Seq<E>>, i: int, j: int)
    requires
        all_distinct(rows),
        0 <= i <= rows.len(),
        i < rows.len() ==> 0 <= j <= rows[i].len(),
        i == rows.len() ==> j == 0,
    ensures
        read_before(rows, i, j).finite(),
        read_before(rows, i, j).len() == places(rows, i) + j,
    decreases i, j,
{
    if j > 0 {
        lemma_read_count(rows, i, j - 1);
        lemma_read_step(rows, i, j - 1);
        let earlier = read_before(rows, i, j - 1);
        if earlier.contains(rows[i][j - 1]) {
            let (a, b) = choose|a: int, b: int|
                in_rows(rows, a, b) && (a < i || (a == i && b < j - 1)) && #[trigger] rows[a][b]
                    == rows[i][j - 1];
            assert(in_rows(rows, i, j - 1));
            assert(a == i && b == j - 1);
        }
    } else if i > 0 {
        lemma_read_count(rows, i - 1, rows[i - 1].len() as int);
        lemma_read_next_row(rows, i - 1);
    } else {
        lemma_read_ends(rows);
    }
}

} // verus!
