//! One layer of the graph.

use vstd::prelude::*;
use vstd::std_specs::hash::*;
use vstd::string::StringSliceAdditionalSpecFns;
use std::collections::HashMap;
use std::collections::hash_map::DefaultHasher;
use std::hash::Hasher;
use crate::metric::{dice, text_distance};
use crate::model::{content_hash, entries_of, LayerModel};

verus! {

broadcast use group_hash_axioms;

/// One level of the graph: texts in the order in which they were stored,
/// the neighbors of each, and an index from the hash of a text to its
/// position.
pub struct Layer {
    items: Vec<String>,
    links: Vec<Vec<usize>>,
    index: HashMap<u64, usize>,
}

impl View for Layer {
    type V = LayerModel;

    closed spec fn view(&self) -> LayerModel {
        LayerModel {
            items: Seq::new(self.items@.len(), |p: int| self.items@[p]@),
            links: Seq::new(self.links@.len(), |p: int| self.links@[p]@),
            index: self.index@,
        }
    }
}

impl Layer {
    /// A layer without texts.
    pub fn new() -> (layer: Layer)
        ensures
            layer@ == LayerModel::empty(),
            layer@.wf(),
    {
        let layer = Layer { items: Vec::new(), links: Vec::new(), index: HashMap::new() };
        assert(layer@.items =~= Seq::empty());
        assert(layer@.links =~= Seq::empty());
        assert(layer@.index =~= Map::empty());
        layer
    }

    /// The number of stored texts.
    pub fn len(&self) -> (n: usize)
        ensures
            n == self@.items.len(),
    {
        self.items.len()
    }

    /// The text at position `p`.
    pub fn item(&self, p: usize) -> (text: &str)
        requires
            p < self@.items.len(),
        ensures
            text@ == self@.items[p as int],
    {
        self.items[p].as_str()
    }

    /// The neighbors of position `p`, in the order in which the edges were
    /// laid.
    pub fn neighbors(&self, p: usize) -> (list: &Vec<usize>)
        requires
            self@.wf(),
            p < self@.items.len(),
        ensures
            list@ == self@.links[p as int],
    {
        &self.links[p]
    }

    /// The hash under which the index files `s`.
    pub fn hash(&self, s: &str) -> (h: u64)
        ensures
            h == content_hash(s@),
    {
        let mut hasher = DefaultHasher::new();
        hasher.write(s.as_bytes());
        assert(hasher@ =~= seq![s.spec_bytes()]);
        hasher.finish()
    }

    /// The position that the index holds for `s`, if it holds one.
    pub fn index_of(&self, s: &str) -> (found: Option<usize>)
        ensures
            found == self@.lookup(s@),
    {
        let h = self.hash(s);
        match self.index.get(&h) {
            Some(p) => Some(*p),
            None => None,
        }
    }

    /// Appends `s`: the text gets the next position and no neighbors, and
    /// the index points to it from now on.
    pub fn push(&mut self, s: &str) -> (p: usize)
        requires
            old(self)@.wf(),
        ensures
            final(self)@ == old(self)@.push(s@),
            final(self)@.wf(),
            p == old(self)@.items.len(),
    {
        let p = self.items.len();
        let h = self.hash(s);
        self.items.push(s.to_owned());
        self.links.push(Vec::new());
        self.index.insert(h, p);
        proof {
            let before = old(self)@;
            let after = self@;
            assert(after.items =~= before.items.push(s@));
            assert(after.links =~= before.links.push(Seq::empty()));
            assert(after.index =~= before.index.insert(content_hash(s@), p));
            assert(before.items.len() + 1 == self.items.len());
            LayerModel::lemma_push_wf(before, s@);
        }
        p
    }

    /// Lays an edge between two positions: each lists the other from now on.
    pub fn link(&mut self, a: usize, b: usize)
        requires
            old(self)@.wf(),
            a < old(self)@.items.len(),
            b < old(self)@.items.len(),
        ensures
            final(self)@ == old(self)@.link(a, b),
            final(self)@.wf(),
    {
        self.links[a].push(b);
        self.links[b].push(a);
        proof {
            let before = old(self)@;
            let after = self@;
            assert(after.items =~= before.items);
            assert(after.links =~= before.link(a, b).links);
            LayerModel::lemma_link_wf(before, a, b);
        }
    }

    /// The distance from `query` to every stored text, by position.
    pub fn all<'a>(&'a self, query: &str) -> (list: Vec<(&'a str, usize)>)
        ensures
            entries_of(list@) == self@.score_all(query@),
    {
        let mut list: Vec<(&'a str, usize)> = Vec::new();
        let mut p: usize = 0;
        while p < self.items.len()
            invariant
                p <= self.items.len(),
                list.len() == p,
                forall|i: int|
                    0 <= i < p ==> (#[trigger] list@[i]).0@ == self@.items[i] && list@[i].1
                        == text_distance(query@, self@.items[i]),
            decreases self.items.len() - p,
        {
            let text = self.items[p].as_str();
            list.push((text, dice(query, text)));
            p = p + 1;
        }
        assert(entries_of(list@) =~= self@.score_all(query@));
        list
    }
}

} // verus!
