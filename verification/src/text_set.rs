//! A set of texts, kept as a vector in ascending order.

use crate::order::{
    ascending, compare_text, is_place, lemma_ascending_distinct, lemma_insert_at_place,
    lemma_place_decides, lemma_text_trichotomy, text_before, Precedence,
};
use vstd::prelude::*;
use vstd::seq_lib::*;

verus! {

/// A finite set of texts. Its members are held in ascending order, each once.
pub struct TextSet {
    items: Vec<String>,
}

impl View for TextSet {
    type V = Set<Seq<char>>;

    open spec fn view(&self) -> Set<Seq<char>> {
        self.listing().to_set()
    }
}

impl TextSet {
    /// The members in the order in which they are held.
    pub closed spec fn listing(&self) -> Seq<Seq<char>> {
        self.items.deep_view()
    }

    /// The members are in ascending order, so none occurs twice.
    pub open spec fn wf(&self) -> bool {
        ascending(self.listing())
    }

    /// A well-formed set has as many members as its listing has places.
    pub proof fn lemma_len(&self)
        requires
            self.wf(),
        ensures
            self@.finite(),
            self@.len() == self.listing().len(),
            self.listing().no_duplicates(),
    {
        lemma_ascending_distinct(self.listing());
        self.listing().unique_seq_to_set();
        seq_to_set_is_finite(self.listing());
    }

    /// The empty set.
    pub fn new() -> (set: Self)
        ensures
            set.wf(),
            set.listing() == Seq::<Seq<char>>::empty(),
            set@ == Set::<Seq<char>>::empty(),
    {
        let set = TextSet { items: Vec::new() };
        proof {
            assert(set.listing() =~= Seq::<Seq<char>>::empty());
            assert(set@ =~= Set::<Seq<char>>::empty());
        }
        set
    }

    /// The number of members.
    pub fn len(&self) -> (n: usize)
        requires
            self.wf(),
        ensures
            n == self.listing().len(),
            n == self@.len(),
    {
        proof {
            self.lemma_len();
        }
        self.items.len()
    }

    /// Whether the set has no member.
    pub fn is_empty(&self) -> (b: bool)
        ensures
            b == (self.listing().len() == 0),
            b == (self@ == Set::<Seq<char>>::empty()),
    {
        proof {
            if self.listing().len() == 0 {
                assert(self@ =~= Set::<Seq<char>>::empty());
            } else {
                assert(self.listing().contains(self.listing()[0]));
                assert(self@.contains(self.listing()[0]));
            }
        }
        self.items.len() == 0
    }

    /// The members in ascending order.
    pub fn items(&self) -> (items: &Vec<String>)
        ensures
            items.deep_view() == self.listing(),
    {
        &self.items
    }

    /// The place of `value` among the members, and whether it is there.
    fn place(&self, value: &str) -> (r: (usize, bool))
        requires
            self.wf(),
        ensures
            is_place(self.listing(), value@, r.0 as int),
            r.1 == self@.contains(value@),
            r.1 ==> r.0 < self.listing().len() && self.listing()[r.0 as int] == value@,
    {
        let mut i: usize = 0;
        while i < self.items.len()
            invariant
                self.wf(),
                i <= self.items@.len(),
                forall|q: int| 0 <= q < i ==> text_before(#[trigger] self.listing()[q], value@),
            decreases self.items@.len() - i,
        {
            match compare_text(self.items[i].as_str(), value) {
                Precedence::Before => {
                    i += 1;
                },
                Precedence::Same => {
                    proof {
                        lemma_text_trichotomy(self.listing()[i as int], value@);
                        lemma_place_decides(self.listing(), value@, i as int);
                    }
                    return (i, true);
                },
                Precedence::After => {
                    proof {
                        lemma_text_trichotomy(self.listing()[i as int], value@);
                        lemma_place_decides(self.listing(), value@, i as int);
                    }
                    return (i, false);
                },
            }
        }
        proof {
            lemma_place_decides(self.listing(), value@, i as int);
        }
        (i, false)
    }

    /// Whether `value` is a member.
    pub fn contains(&self, value: &str) -> (b: bool)
        requires
            self.wf(),
        ensures
            b == self@.contains(value@),
    {
        self.place(value).1
    }

    /// Adds `value` to the set. Returns whether it was new.
    pub fn insert(&mut self, value: String) -> (added: bool)
        requires
            old(self).wf(),
        ensures
            final(self).wf(),
            final(self)@ == old(self)@.insert(value@),
            added == !old(self)@.contains(value@),
    {
        let (p, found) = self.place(value.as_str());
        if found {
            proof {
                assert(self@.insert(value@) =~= self@);
            }
            return false;
        }
        let ghost before = self.listing();
        self.items.insert(p, value);
        proof {
            let after = self.listing();
            assert(after =~= before.insert(p as int, value@));
            lemma_insert_at_place(before, value@, p as int);
            assert forall|t: Seq<char>| after.contains(t) <==> (t == value@ || before.contains(
                t,
            )) by {
                if after.contains(t) {
                    let i = choose|i: int| 0 <= i < after.len() && after[i] == t;
                    if i < p {
                        assert(before[i] == t);
                    } else if i > p {
                        assert(before[i - 1] == t);
                    }
                }
                if before.contains(t) {
                    let i = choose|i: int| 0 <= i < before.len() && before[i] == t;
                    if i < p {
                        assert(after[i] == t);
                    } else {
                        assert(after[i + 1] == t);
                    }
                }
                assert(after[p as int] == value@);
            }
            assert(self@ =~= before.to_set().insert(value@));
        }
        true
    }
}

} // verus!
