//! Tables of named values, where a later definition of a name wins.
use crate::style::{assoc_map, lemma_assoc_map_dom, lemma_assoc_map_latest, lemma_assoc_map_push};
use vstd::prelude::*;

verus! {

/// Named values, in order of definition.
pub struct NameTable<V> {
    pub entries: Vec<(String, V)>,
}

impl<V: Copy> NameTable<V> {
    pub open spec fn view(&self) -> Map<Seq<char>, V> {
        assoc_map(self.entries@.map_values(|e: (String, V)| (e.0@, e.1)))
    }

    pub fn new() -> (r: NameTable<V>)
        ensures
            r@ == Map::<Seq<char>, V>::empty(),
    {
        NameTable { entries: Vec::new() }
    }

    /// Defines (or redefines) a name.
    pub fn define(&mut self, name: String, value: V)
        ensures
            final(self)@ == old(self)@.insert(name@, value),
    {
        let ghost prev = self.entries@;
        let ghost key = name@;
        self.entries.push((name, value));
        proof {
            let f = |e: (String, V)| (e.0@, e.1);
            assert(self.entries@.map_values(f) =~= prev.map_values(f).push((key, value)));
            lemma_assoc_map_push(prev.map_values(f), (key, value));
        }
    }

    /// The value of a name.
    pub fn lookup(&self, name: &String) -> (r: Option<V>)
        ensures
            r.is_some() == self@.contains_key(name@),
            r.is_some() ==> r.unwrap() == self@[name@],
    {
        let ghost s = self.entries@.map_values(|e: (String, V)| (e.0@, e.1));
        let mut i: usize = self.entries.len();
        while i > 0
            invariant
                i <= self.entries@.len(),
                s == self.entries@.map_values(|e: (String, V)| (e.0@, e.1)),
                forall|k: int| i <= k < s.len() ==> #[trigger] s[k].0 != name@,
            decreases i,
        {
            i = i - 1;
            if self.entries[i].0 == *name {
                proof {
                    lemma_assoc_map_latest(s, i as int);
                }
                return Some(self.entries[i].1);
            }
        }
        proof {
            lemma_assoc_map_dom(s, name@);
        }
        None
    }
}

} // verus!
