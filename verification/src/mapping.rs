//! The aggregate mapping: from a key (an author or a package name) to the set
//! of identities on the other side.

use crate::order::{
    ascending, compare_text, is_place, lemma_ascending_distinct, lemma_ascending_unique,
    lemma_insert_at_place, lemma_place_decides, lemma_text_trichotomy, text_before, Precedence,
};
use crate::relation::{
    all_distinct, all_of, edges_of, flipped, in_rows, inverted, lemma_edges_of_inverted,
    lemma_edges_of_mapping, lemma_flipped_insert, lemma_inversion_keeps_edge_count,
    lemma_inversion_round_trip, lemma_mapping_has_no_empty_values, lemma_mapping_with_edge,
    lemma_read_count, lemma_read_ends, lemma_read_next_row, lemma_read_step, mapping_of,
    no_empty_values, places, read_before, with_edge,
};
use crate::text_set::TextSet;
use vstd::prelude::*;

verus! {

/// An edge between a key and a value, as texts.
pub type Edge = (Seq<char>, Seq<char>);

/// A mapping written out: each key with its values, in the order held.
pub type Listing = Seq<(Seq<char>, Seq<Seq<char>>)>;

/// The keys of a listing, in its order.
pub open spec fn keys_of(l: Listing) -> Seq<Seq<char>> {
    Seq::new(l.len(), |i: int| l[i].0)
}

/// The form in which a mapping is held and handed out: keys ascending, and
/// under each key at least one value, values ascending.
pub open spec fn canonical(l: Listing) -> bool {
    &&& ascending(keys_of(l))
    &&& forall|i: int| 0 <= i < l.len() ==> (#[trigger] l[i]).1.len() > 0 && ascending(l[i].1)
}

/// The edges of a listing, row by row: under each key one edge for each of
/// its values.
pub open spec fn edge_rows(l: Listing) -> Seq<Seq<Edge>> {
    Seq::new(l.len(), |i: int| Seq::new(l[i].1.len(), |j: int| (l[i].0, l[i].1[j])))
}

/// The edges that a listing holds.
pub open spec fn listing_edges(l: Listing) -> Set<Edge> {
    all_of(edge_rows(l))
}

/// `j` is a place among the values of the `i`-th key.
pub open spec fn listed(l: Listing, i: int, j: int) -> bool {
    0 <= i < l.len() && 0 <= j < l[i].1.len()
}

/// An edge of the listing stands at some place among the values of some key.
pub proof fn lemma_listed(l: Listing)
    ensures
        forall|i: int, j: int| listed(l, i, j) <==> in_rows(edge_rows(l), i, j),
        forall|i: int, j: int|
            listed(l, i, j) ==> #[trigger] edge_rows(l)[i][j] == (l[i].0, l[i].1[j]),
        forall|e: Edge|
            listing_edges(l).contains(e) <==> exists|i: int, j: int|
                listed(l, i, j) && #[trigger] edge_rows(l)[i][j] == e,
{
    assert forall|i: int, j: int| listed(l, i, j) <==> in_rows(edge_rows(l), i, j) by {}
    assert forall|e: Edge|
        listing_edges(l).contains(e) <==> exists|i: int, j: int|
            listed(l, i, j) && #[trigger] edge_rows(l)[i][j] == e by {
        if listing_edges(l).contains(e) {
            let (i, j) = choose|i: int, j: int|
                in_rows(edge_rows(l), i, j) && #[trigger] edge_rows(l)[i][j] == e;
            assert(listed(l, i, j) && edge_rows(l)[i][j] == e);
        }
        if exists|i: int, j: int| listed(l, i, j) && #[trigger] edge_rows(l)[i][j] == e {
            let (i, j) = choose|i: int, j: int|
                listed(l, i, j) && #[trigger] edge_rows(l)[i][j] == e;
            assert(in_rows(edge_rows(l), i, j));
        }
    }
}

/// The number of values under the first `n` keys, all keys taken together.
pub open spec fn value_total(l: Listing, n: int) -> nat
    decreases n,
{
    if n <= 0 {
        0
    } else {
        value_total(l, n - 1) + l[n - 1].1.len()
    }
}

/// The listing that a vector of entries stands for.
pub open spec fn listing_of(entries: Seq<(String, TextSet)>) -> Listing {
    Seq::new(entries.len(), |i: int| (entries[i].0@, entries[i].1.listing()))
}

/// Giving the key at `p` one more value adds one edge.
pub proof fn lemma_edges_after_update(l: Listing, p: int, values: Seq<Seq<char>>, v: Seq<char>)
    requires
        0 <= p < l.len(),
        values.to_set() == l[p].1.to_set().insert(v),
    ensures
        listing_edges(l.update(p, (l[p].0, values))) == listing_edges(l).insert((l[p].0, v)),
{
    let k = l[p].0;
    let after = l.update(p, (k, values));
    let want = listing_edges(l).insert((k, v));
    lemma_listed(l);
    lemma_listed(after);
    assert forall|e: Edge| listing_edges(after).contains(e) implies want.contains(e) by {
        let (i, j) = choose|i: int, j: int|
            listed(after, i, j) && #[trigger] edge_rows(after)[i][j] == e;
        if i == p {
            assert(values.to_set().contains(values[j]));
            if e.1 != v {
                assert(l[p].1.to_set().contains(e.1));
                let b = choose|b: int| 0 <= b < l[p].1.len() && l[p].1[b] == e.1;
                assert(listed(l, p, b) && edge_rows(l)[p][b] == e);
            }
        } else {
            assert(listed(l, i, j) && edge_rows(l)[i][j] == e);
        }
    }
    assert forall|e: Edge| want.contains(e) implies listing_edges(after).contains(e) by {
        if e == (k, v) {
            assert(values.to_set().contains(v));
            let b = choose|b: int| 0 <= b < values.len() && values[b] == v;
            assert(listed(after, p, b) && edge_rows(after)[p][b] == e);
        } else {
            let (i, j) = choose|i: int, j: int|
                listed(l, i, j) && #[trigger] edge_rows(l)[i][j] == e;
            if i == p {
                assert(l[p].1.to_set().contains(l[p].1[j]));
                assert(values.to_set().contains(e.1));
                let b = choose|b: int| 0 <= b < values.len() && values[b] == e.1;
                assert(listed(after, p, b) && edge_rows(after)[p][b] == e);
            } else {
                assert(listed(after, i, j) && edge_rows(after)[i][j] == e);
            }
        }
    }
    assert(listing_edges(after) =~= want);
}

/// Putting a new key with one value into a listing adds one edge.
pub proof fn lemma_edges_after_insert(l: Listing, p: int, k: Seq<char>, v: Seq<char>)
    requires
        0 <= p <= l.len(),
    ensures
        listing_edges(l.insert(p, (k, seq![v]))) == listing_edges(l).insert((k, v)),
{
    let after = l.insert(p, (k, seq![v]));
    let want = listing_edges(l).insert((k, v));
    lemma_listed(l);
    lemma_listed(after);
    assert forall|e: Edge| listing_edges(after).contains(e) implies want.contains(e) by {
        let (i, j) = choose|i: int, j: int|
            listed(after, i, j) && #[trigger] edge_rows(after)[i][j] == e;
        if i < p {
            assert(listed(l, i, j) && edge_rows(l)[i][j] == e);
        } else if i > p {
            assert(listed(l, i - 1, j) && edge_rows(l)[i - 1][j] == e);
        }
    }
    assert forall|e: Edge| want.contains(e) implies listing_edges(after).contains(e) by {
        if e == (k, v) {
            assert(listed(after, p, 0) && edge_rows(after)[p][0] == e);
        } else {
            let (i, j) = choose|i: int, j: int|
                listed(l, i, j) && #[trigger] edge_rows(l)[i][j] == e;
            if i < p {
                assert(listed(after, i, j) && edge_rows(after)[i][j] == e);
            } else {
                assert(listed(after, i + 1, j) && edge_rows(after)[i + 1][j] == e);
            }
        }
    }
    assert(listing_edges(after) =~= want);
}

/// In canonical form no edge is listed twice.
pub proof fn lemma_canonical_distinct(l: Listing)
    requires
        canonical(l),
    ensures
        all_distinct(edge_rows(l)),
        forall|n: int|
            0 <= n <= l.len() ==> #[trigger] places(edge_rows(l), n) == value_total(l, n),
{
    let rows = edge_rows(l);
    lemma_listed(l);
    lemma_ascending_distinct(keys_of(l));
    assert forall|a: int, b: int, c: int, d: int|
        in_rows(rows, a, b) && in_rows(rows, c, d) && #[trigger] rows[a][b] == #[trigger] rows[c][d]
        implies a == c && b == d by {
        assert(keys_of(l)[a] == keys_of(l)[c]);
        lemma_ascending_distinct(l[a].1);
    }
    assert forall|n: int| 0 <= n <= l.len() implies #[trigger] places(rows, n) == value_total(
        l,
        n,
    ) by {
        lemma_places(l, n);
    }
}

proof fn lemma_places(l: Listing, n: int)
    requires
        0 <= n <= l.len(),
    ensures
        places(edge_rows(l), n) == value_total(l, n),
    decreases n,
{
    if n > 0 {
        lemma_places(l, n - 1);
    }
}

/// In canonical form the set under a key is the set of its listed values,
/// and the keys of the mapping are the listed keys.
pub proof fn lemma_lookup(l: Listing, p: int)
    requires
        canonical(l),
        0 <= p < l.len(),
    ensures
        mapping_of(listing_edges(l)).dom().contains(l[p].0),
        mapping_of(listing_edges(l))[l[p].0] == l[p].1.to_set(),
{
    let edges = listing_edges(l);
    let k = l[p].0;
    lemma_listed(l);
    assert(listed(l, p, 0) && edge_rows(l)[p][0] == (k, l[p].1[0]));
    assert(edges.contains((k, l[p].1[0])));
    let found = mapping_of(edges)[k];
    assert forall|v: Seq<char>| found.contains(v) implies l[p].1.to_set().contains(v) by {
        let (a, b) = choose|a: int, b: int|
            listed(l, a, b) && #[trigger] edge_rows(l)[a][b] == (k, v);
        lemma_ascending_distinct(keys_of(l));
        assert(keys_of(l)[a] == keys_of(l)[p]);
        assert(l[p].1[b] == v);
    }
    assert forall|v: Seq<char>| l[p].1.to_set().contains(v) implies found.contains(v) by {
        let b = choose|b: int| 0 <= b < l[p].1.len() && l[p].1[b] == v;
        assert(listed(l, p, b) && edge_rows(l)[p][b] == (k, v));
    }
    assert(found =~= l[p].1.to_set());
}

/// A text that is no listed key is no key of the mapping.
pub proof fn lemma_lookup_absent(l: Listing, k: Seq<char>)
    requires
        !keys_of(l).contains(k),
    ensures
        !mapping_of(listing_edges(l)).dom().contains(k),
{
    let edges = listing_edges(l);
    lemma_listed(l);
    if mapping_of(edges).dom().contains(k) {
        let v = choose|v: Seq<char>| edges.contains((k, v));
        let (a, b) = choose|a: int, b: int|
            listed(l, a, b) && #[trigger] edge_rows(l)[a][b] == (k, v);
        assert(keys_of(l)[a] == k);
    }
}

/// The keys of a canonical listing are the keys of its mapping.
pub proof fn lemma_listed_keys(l: Listing)
    requires
        canonical(l),
    ensures
        keys_of(l).to_set() == mapping_of(listing_edges(l)).dom(),
{
    let keys = keys_of(l).to_set();
    let dom = mapping_of(listing_edges(l)).dom();
    assert forall|k: Seq<char>| keys.contains(k) <==> dom.contains(k) by {
        if keys.contains(k) {
            let p = choose|p: int| 0 <= p < keys_of(l).len() && keys_of(l)[p] == k;
            lemma_lookup(l, p);
        }
        if !keys_of(l).contains(k) {
            lemma_lookup_absent(l, k);
        }
    }
    assert(keys =~= dom);
}

/// A mapping has one canonical listing: canonical listings with the same
/// edges are the same.
pub proof fn lemma_canonical_unique(l: Listing, m: Listing)
    requires
        canonical(l),
        canonical(m),
        listing_edges(l) == listing_edges(m),
    ensures
        l == m,
{
    lemma_listed_keys(l);
    lemma_listed_keys(m);
    lemma_ascending_unique(keys_of(l), keys_of(m));
    assert(l.len() == keys_of(l).len() && m.len() == keys_of(m).len());
    assert forall|i: int| 0 <= i < l.len() implies l[i] == m[i] by {
        assert(keys_of(l)[i] == keys_of(m)[i]);
        lemma_lookup(l, i);
        lemma_lookup(m, i);
        lemma_ascending_unique(l[i].1, m[i].1);
    }
    assert(l =~= m);
}

/// A mapping from key to a set of values. Keys are held in ascending order,
/// each once and each with at least one value.
pub struct AggregateMapping {
    entries: Vec<(String, TextSet)>,
}

impl View for AggregateMapping {
    type V = Map<Seq<char>, Set<Seq<char>>>;

    open spec fn view(&self) -> Map<Seq<char>, Set<Seq<char>>> {
        mapping_of(self.edges())
    }
}

impl AggregateMapping {
    /// The mapping written out in the order in which it is held.
    pub closed spec fn listing(&self) -> Listing {
        listing_of(self.entries@)
    }

    /// The mapping is held in canonical form.
    pub open spec fn wf(&self) -> bool {
        canonical(self.listing())
    }

    /// The edges of the mapping.
    pub open spec fn edges(&self) -> Set<Edge> {
        listing_edges(self.listing())
    }

    /// The mapping without any key.
    pub fn new() -> (m: Self)
        ensures
            m.wf(),
            m.listing() == Seq::<(Seq<char>, Seq<Seq<char>>)>::empty(),
            m.edges() == Set::<Edge>::empty(),
            m@ == Map::<Seq<char>, Set<Seq<char>>>::empty(),
    {
        let m = AggregateMapping { entries: Vec::new() };
        proof {
            assert(m.listing() =~= Seq::<(Seq<char>, Seq<Seq<char>>)>::empty());
            assert(m.edges() =~= Set::<Edge>::empty());
            assert(m@ =~= Map::<Seq<char>, Set<Seq<char>>>::empty());
        }
        m
    }

    /// The place of `key` among the keys, and whether it is there.
    fn place(&self, key: &str) -> (r: (usize, bool))
        requires
            self.wf(),
        ensures
            is_place(keys_of(self.listing()), key@, r.0 as int),
            r.1 == keys_of(self.listing()).contains(key@),
            r.1 ==> r.0 < self.listing().len() && self.listing()[r.0 as int].0 == key@,
    {
        let ghost keys = keys_of(self.listing());
        let mut i: usize = 0;
        while i < self.entries.len()
            invariant
                self.wf(),
                keys == keys_of(self.listing()),
                i <= self.entries@.len(),
                forall|q: int| 0 <= q < i ==> text_before(#[trigger] keys[q], key@),
            decreases self.entries@.len() - i,
        {
            match compare_text(self.entries[i].0.as_str(), key) {
                Precedence::Before => {
                    i += 1;
                },
                Precedence::Same => {
                    proof {
                        lemma_text_trichotomy(keys[i as int], key@);
                        lemma_place_decides(keys, key@, i as int);
                    }
                    return (i, true);
                },
                Precedence::After => {
                    proof {
                        lemma_text_trichotomy(keys[i as int], key@);
                        lemma_place_decides(keys, key@, i as int);
                    }
                    return (i, false);
                },
            }
        }
        proof {
            lemma_place_decides(keys, key@, i as int);
        }
        (i, false)
    }

    /// Adds the edge from `key` to `value`. Adding an edge that is there
    /// changes nothing.
    pub fn insert(&mut self, key: String, value: String)
        requires
            old(self).wf(),
        ensures
            final(self).wf(),
            final(self).edges() == old(self).edges().insert((key@, value@)),
            final(self)@ == with_edge(old(self)@, key@, value@),
    {
        let ghost before = self.listing();
        let (p, found) = self.place(key.as_str());
        if found {
            self.entries[p].1.insert(value);
            proof {
                let after = self.listing();
                let grown = self.entries@[p as int].1.listing();
                assert(grown.to_set().contains(value@));
                assert(after =~= before.update(p as int, (key@, grown)));
                assert(keys_of(after) =~= keys_of(before));
                lemma_edges_after_update(before, p as int, grown, value@);
            }
        } else {
            let mut values = TextSet::new();
            values.insert(value);
            self.entries.insert(p, (key, values));
            proof {
                let after = self.listing();
                let only = self.entries@[p as int].1.listing();
                assert(only.to_set() =~= Set::<Seq<char>>::empty().insert(value@));
                assert(only.to_set().contains(value@));
                lemma_ascending_distinct(only);
                only.unique_seq_to_set();
                assert(only =~= seq![value@]);
                assert(after =~= before.insert(p as int, (key@, only)));
                assert(keys_of(after) =~= keys_of(before).insert(p as int, key@));
                lemma_insert_at_place(keys_of(before), key@, p as int);
                lemma_edges_after_insert(before, p as int, key@, value@);
            }
        }
        proof {
            lemma_mapping_with_edge(old(self).edges(), key@, value@);
        }
    }

    /// What a well-formed mapping is as a relation: its view has the edges
    /// that it lists and no empty set, and the edges are finite in number.
    pub proof fn lemma_view(&self)
        requires
            self.wf(),
        ensures
            edges_of(self@) == self.edges(),
            no_empty_values(self@),
            self.edges().finite(),
            self.edges().len() == value_total(self.listing(), self.listing().len() as int),
    {
        let rows = edge_rows(self.listing());
        lemma_edges_of_mapping(self.edges());
        lemma_mapping_has_no_empty_values(self.edges());
        lemma_canonical_distinct(self.listing());
        lemma_read_count(rows, rows.len() as int, 0);
        lemma_read_ends(rows);
    }

    /// Well-formed mappings with the same view are written out alike.
    pub proof fn lemma_same_view_same_listing(&self, other: &Self)
        requires
            self.wf(),
            other.wf(),
            self@ == other@,
        ensures
            self.listing() == other.listing(),
    {
        self.lemma_view();
        other.lemma_view();
        lemma_canonical_unique(self.listing(), other.listing());
    }

    /// The number of keys.
    pub fn len(&self) -> (n: usize)
        requires
            self.wf(),
        ensures
            n == self.listing().len(),
            self@.dom().finite(),
            n == self@.dom().len(),
    {
        proof {
            let keys = keys_of(self.listing());
            lemma_listed_keys(self.listing());
            lemma_ascending_distinct(keys);
            keys.unique_seq_to_set();
            vstd::seq_lib::seq_to_set_is_finite(keys);
        }
        self.entries.len()
    }

    /// Whether the mapping has no key.
    pub fn is_empty(&self) -> (b: bool)
        requires
            self.wf(),
        ensures
            b == (self.listing().len() == 0),
            b == (self@ == Map::<Seq<char>, Set<Seq<char>>>::empty()),
    {
        proof {
            if self.listing().len() == 0 {
                lemma_listed(self.listing());
                assert(self.edges() =~= Set::<Edge>::empty());
                assert(self@ =~= Map::<Seq<char>, Set<Seq<char>>>::empty());
            } else {
                lemma_lookup(self.listing(), 0);
            }
        }
        self.entries.len() == 0
    }

    /// The keys with their sets, in ascending order of the keys.
    pub fn entries(&self) -> (entries: &Vec<(String, TextSet)>)
        ensures
            listing_of(entries@) == self.listing(),
    {
        &self.entries
    }

    /// The set under `key`, if `key` is a key of the mapping.
    pub fn get(&self, key: &str) -> (found: Option<&TextSet>)
        requires
            self.wf(),
        ensures
            found is Some <==> self@.dom().contains(key@),
            found matches Some(set) ==> set.wf() && set@ == self@[key@],
    {
        let (p, present) = self.place(key);
        if present {
            proof {
                lemma_lookup(self.listing(), p as int);
            }
            Some(&self.entries[p].1)
        } else {
            proof {
                lemma_lookup_absent(self.listing(), key@);
            }
            None
        }
    }

    /// Whether the mapping holds the edge from `key` to `value`.
    pub fn contains_edge(&self, key: &str, value: &str) -> (b: bool)
        requires
            self.wf(),
        ensures
            b == self.edges().contains((key@, value@)),
            b == (self@.dom().contains(key@) && self@[key@].contains(value@)),
    {
        proof {
            self.lemma_view();
        }
        match self.get(key) {
            Some(set) => set.contains(value),
            None => false,
        }
    }

    /// The number of edges, or the largest `usize` where they are more than
    /// that.
    pub fn edge_count(&self) -> (n: usize)
        requires
            self.wf(),
        ensures
            n as int == if self.edges().len() <= usize::MAX {
                self.edges().len() as int
            } else {
                usize::MAX as int
            },
    {
        let mut n: usize = 0;
        let mut i: usize = 0;
        while i < self.entries.len()
            invariant
                self.wf(),
                i <= self.entries@.len(),
                n as int == if value_total(self.listing(), i as int) <= usize::MAX {
                    value_total(self.listing(), i as int) as int
                } else {
                    usize::MAX as int
                },
            decreases self.entries@.len() - i,
        {
            assert(self.listing()[i as int].1.len() == self.entries@[i as int].1.listing().len());
            n = n.saturating_add(self.entries[i].1.len());
            i += 1;
        }
        proof {
            self.lemma_view();
        }
        n
    }

    /// The mapping grouped by the other side: from each value to the keys
    /// under which it stood.
    pub fn invert(&self) -> (out: Self)
        requires
            self.wf(),
        ensures
            out.wf(),
            out.edges() == flipped(self.edges()),
            out@ == inverted(self@),
            inverted(out@) == self@,
            out.edges().len() == self.edges().len(),
    {
        let ghost l = self.listing();
        let ghost rows = edge_rows(l);
        let mut out = AggregateMapping::new();
        proof {
            lemma_read_ends(rows);
            assert(flipped(read_before(rows, 0, 0)) =~= Set::<Edge>::empty());
        }
        let mut i: usize = 0;
        while i < self.entries.len()
            invariant
                self.wf(),
                l == self.listing(),
                rows == edge_rows(l),
                out.wf(),
                i <= self.entries@.len(),
                out.edges() == flipped(read_before(rows, i as int, 0)),
            decreases self.entries@.len() - i,
        {
            let key = &self.entries[i].0;
            let values = self.entries[i].1.items();
            let mut j: usize = 0;
            while j < values.len()
                invariant
                    l == self.listing(),
                    rows == edge_rows(l),
                    out.wf(),
                    i < self.entries@.len(),
                    key@ == l[i as int].0,
                    values.deep_view() == l[i as int].1,
                    j <= values@.len(),
                    out.edges() == flipped(read_before(rows, i as int, j as int)),
                decreases values@.len() - j,
            {
                assert(values.deep_view()[j as int] == values@[j as int]@);
                out.insert(values[j].clone(), key.clone());
                proof {
                    lemma_read_step(rows, i as int, j as int);
                    lemma_flipped_insert(
                        read_before(rows, i as int, j as int),
                        l[i as int].0,
                        l[i as int].1[j as int],
                    );
                }
                j += 1;
            }
            proof {
                lemma_read_next_row(rows, i as int);
            }
            i += 1;
        }
        proof {
            lemma_read_ends(rows);
            self.lemma_view();
            lemma_inversion_round_trip(self@);
            lemma_inversion_keeps_edge_count(self@);
            lemma_edges_of_inverted(self@);
        }
        out
    }
}

} // verus!
