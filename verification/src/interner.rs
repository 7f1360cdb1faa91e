//! Texts numbered in the order in which they are first seen, with an index
//! that finds the number of a text without going through all of them.

use std::collections::HashMap;
use vstd::prelude::*;

verus! {

broadcast use vstd::std_specs::hash::group_hash_axioms;

/// The number under which the index files `text`. Texts that differ may
/// share one.
pub open spec fn text_hash(text: Seq<char>) -> u64
    decreases text.len(),
{
    if text.len() == 0 {
        14695981039346656037u64
    } else {
        text_hash(text.drop_last()).wrapping_add(text.last() as u64).wrapping_mul(
            1099511628211u64,
        )
    }
}

/// Whether following `links` from `from` leads to `to`. A link always
/// points to a smaller number.
pub open spec fn reaches(links: Seq<Option<usize>>, from: int, to: int) -> bool
    decreases from,
{
    from == to || (0 <= from < links.len() && match links[from] {
        Some(before) => before < from && reaches(links, before as int, to),
        None => false,
    })
}

/// A link behind `links` does not change where the links before it lead.
proof fn lemma_reaches_longer(links: Seq<Option<usize>>, link: Option<usize>, from: int, to: int)
    requires
        reaches(links, from, to),
    ensures
        reaches(links.push(link), from, to),
    decreases from,
{
    if from != to {
        lemma_reaches_longer(links, link, links[from].unwrap() as int, to);
    }
}

/// Computes the number under which the index files `text`.
fn hash_of(text: &str) -> (h: u64)
    ensures
        h == text_hash(text@),
{
    let mut h: u64 = 14695981039346656037;
    for c in it: text.chars()
        invariant
            it.seq() == text@,
            h == text_hash(it.seq().take(it.index() as int)),
    {
        proof {
            assert(text@.take(it.index() + 1).drop_last() =~= text@.take(it.index() as int));
        }
        h = h.wrapping_add(c as u64).wrapping_mul(1099511628211);
    }
    assert(text@.take(text@.len() as int) =~= text@);
    h
}

/// Texts without repetition, each with its number: the first text that
/// was added has number 0, the next new one number 1, and so on.
pub struct Interner {
    texts: Vec<String>,
    /// For each hash, the text that was added last among those filed under it.
    heads: HashMap<u64, usize>,
    /// For each text, the text added before it among those filed under
    /// the same hash.
    links: Vec<Option<usize>>,
}

impl View for Interner {
    type V = Seq<Seq<char>>;

    closed spec fn view(&self) -> Seq<Seq<char>> {
        self.texts.deep_view()
    }
}

impl Interner {
    /// Whether the index leads to every text, and no text stands twice.
    pub closed spec fn wf(&self) -> bool {
        &&& self.links.len() == self.texts.len()
        &&& self@.no_duplicates()
        &&& forall|j: int|
            0 <= j < self.links.len() && (#[trigger] self.links[j]) is Some ==> self.links[j].unwrap()
                < j
        &&& forall|h: u64| #[trigger]
            self.heads@.contains_key(h) ==> self.heads@[h] < self.texts.len()
        &&& forall|j: int|
            0 <= j < self.texts.len() ==> self.heads@.contains_key(text_hash(#[trigger] self@[j]))
                && reaches(self.links@, self.heads@[text_hash(self@[j])] as int, j)
    }

    /// No texts.
    pub fn new() -> (r: Self)
        ensures
            r.wf(),
            r@ == Seq::<Seq<char>>::empty(),
    {
        let r = Interner { texts: Vec::new(), heads: HashMap::new(), links: Vec::new() };
        r
    }

    /// The number of `text`. A text that is new is added behind the others.
    pub fn intern(&mut self, text: &String) -> (id: usize)
        requires
            old(self).wf(),
        ensures
            final(self).wf(),
            old(self)@.contains(text@) ==> final(self)@ == old(self)@,
            !old(self)@.contains(text@) ==> final(self)@ == old(self)@.push(text@),
            id < final(self)@.len(),
            final(self)@[id as int] == text@,
    {
        let ghost texts = self@;
        let h = hash_of(text.as_str());
        let head: Option<usize> = match self.heads.get(&h) {
            Some(j) => Some(*j),
            None => None,
        };
        let mut at = head;
        while at.is_some()
            invariant
                self.wf(),
                self@ == texts,
                forall|h: u64| #[trigger]
                    self.heads@.contains_key(h) ==> self.heads@[h] < self.texts.len(),
                self.links.len() == self.texts.len(),
                forall|j: int|
                    0 <= j < self.links.len() && (#[trigger] self.links[j]) is Some
                        ==> self.links[j].unwrap() < j,
                at matches Some(j) ==> j < self.texts.len(),
                forall|j: int|
                    0 <= j < texts.len() && texts[j] == text@ ==> at is Some && reaches(
                        self.links@,
                        at.unwrap() as int,
                        j,
                    ),
            decreases
                    match at {
                        Some(j) => j + 1,
                        None => 0,
                    },
        {
            let j = at.unwrap();
            if self.texts[j] == *text {
                assert(texts[j as int] == text@);
                return j;
            }
            at = self.links[j];
        }
        let id = self.texts.len();
        self.texts.push(text.clone());
        self.links.push(head);
        self.heads.insert(h, id);
        proof {
            let longer = self@;
            let links = old(self).links@;
            assert(longer =~= texts.push(text@));
            assert forall|j: int| 0 <= j < longer.len() implies self.heads@.contains_key(
                text_hash(#[trigger] longer[j]),
            ) && reaches(self.links@, self.heads@[text_hash(longer[j])] as int, j) by {
                if j < id {
                    let under = text_hash(texts[j]);
                    lemma_reaches_longer(links, head, old(self).heads@[under] as int, j);
                }
            }
        }
        id
    }

    /// The texts in the order of their numbers.
    pub fn into_texts(self) -> (texts: Vec<String>)
        ensures
            texts.deep_view() == self@,
    {
        self.texts
    }
}

} // verus!
