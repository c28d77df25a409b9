//! The mathematical model of one layer of the graph, and of a walk over it.

use vstd::prelude::*;
use vstd::std_specs::hash::DefaultHasherAdditionalSpecFns;
use vstd::utf8::encode_utf8;
use std::collections::hash_map::DefaultHasher;
use crate::metric::text_distance;

verus! {

/// The hash under which the content index files a text: that of the
/// standard hasher, fed the text's UTF-8 bytes in one piece.
pub open spec fn content_hash(text: Seq<char>) -> u64 {
    DefaultHasher::spec_finish(seq![encode_utf8(text)])
}

/// A stored text met during a walk: its position in the layer and its
/// distance to the query.
#[derive(Clone, Copy, Debug)]
pub struct Hit {
    pub pos: usize,
    pub dist: usize,
}

/// The order of hits: by distance, and by position among equal distances.
pub open spec fn before(a: Hit, b: Hit) -> bool {
    a.dist < b.dist || (a.dist == b.dist && a.pos < b.pos)
}

/// Index of the least of the first `n` hits of `s` (zero where there are
/// none).
pub open spec fn least_upto(s: Seq<Hit>, n: nat) -> int
    decreases n,
{
    if n <= 1 {
        0
    } else {
        let j = least_upto(s, (n - 1) as nat);
        if before(s[n - 1], s[j]) {
            n - 1
        } else {
            j
        }
    }
}

/// Index of the least hit of `s`.
pub open spec fn least_index(s: Seq<Hit>) -> int {
    least_upto(s, s.len())
}

/// The `k` least hits of `s` in ascending order, or all of them where `s`
/// has fewer.
pub open spec fn least(s: Seq<Hit>, k: nat) -> Seq<Hit>
    decreases k,
{
    if k == 0 || s.len() == 0 {
        Seq::empty()
    } else {
        let i = least_index(s);
        seq![s[i]] + least(s.remove(i), (k - 1) as nat)
    }
}

/// The least hit of the first `n` is one of them, and none of them comes
/// before it.
pub proof fn lemma_least_upto(s: Seq<Hit>, n: nat)
    requires
        1 <= n <= s.len(),
    ensures
        0 <= least_upto(s, n) < n,
        forall|j: int| 0 <= j < n ==> !before(#[trigger] s[j], s[least_upto(s, n)]),
    decreases n,
{
    if n > 1 {
        lemma_least_upto(s, (n - 1) as nat);
    }
}

/// The `k` least hits of `s` are `k` hits of `s`, or all of them, and they
/// ascend: no hit comes before one that stands earlier.
pub proof fn lemma_least(s: Seq<Hit>, k: nat)
    ensures
        least(s, k).len() == if k <= s.len() { k } else { s.len() },
        forall|i: int| 0 <= i < least(s, k).len() ==> s.contains(#[trigger] least(s, k)[i]),
        forall|i: int, j: int|
            0 <= i <= j < least(s, k).len() ==> !before(
                #[trigger] least(s, k)[j],
                #[trigger] least(s, k)[i],
            ),
    decreases k,
{
    if k == 0 || s.len() == 0 {
    } else {
        let m = least_index(s);
        lemma_least_upto(s, s.len());
        let rest = s.remove(m);
        let tail = least(rest, (k - 1) as nat);
        lemma_least(rest, (k - 1) as nat);
        let all = least(s, k);
        assert(all =~= seq![s[m]] + tail);
        assert forall|i: int| 0 <= i < all.len() implies s.contains(#[trigger] all[i]) by {
            if i > 0 {
                assert(all[i] == tail[i - 1]);
                assert(rest.contains(tail[i - 1]));
                let r = choose|r: int| 0 <= r < rest.len() && rest[r] == tail[i - 1];
                if r < m {
                    assert(s[r] == all[i]);
                } else {
                    assert(s[r + 1] == all[i]);
                }
            } else {
                assert(s[m] == all[0]);
            }
        }
        assert forall|i: int, j: int| 0 <= i <= j < all.len() implies !before(
            #[trigger] all[j],
            #[trigger] all[i],
        ) by {
            if i == 0 {
                assert(s.contains(all[j]));
                let r = choose|r: int| 0 <= r < s.len() && s[r] == all[j];
                assert(!before(s[r], s[m]));
            } else {
                assert(all[i] == tail[i - 1] && all[j] == tail[j - 1]);
            }
        }
    }
}

/// Whether a walk has measured the text at position `p`.
pub open spec fn knows(seen: Seq<Hit>, p: usize) -> bool {
    exists|i: int| 0 <= i < seen.len() && #[trigger] seen[i].pos == p
}

/// The state of a walk: every text measured so far, in the order of
/// measuring, and those among them that still wait to be expanded.
pub struct Walk {
    pub seen: Seq<Hit>,
    pub frontier: Seq<Hit>,
}

/// One layer: the stored texts by position, the neighbors of each position,
/// and the content index from a text's hash to the position that was last
/// stored under it.
pub struct LayerModel {
    pub items: Seq<Seq<char>>,
    pub links: Seq<Seq<usize>>,
    pub index: Map<u64, usize>,
}

impl LayerModel {
    /// The layer without texts.
    pub open spec fn empty() -> LayerModel {
        LayerModel { items: Seq::empty(), links: Seq::empty(), index: Map::empty() }
    }

    /// Every position has a list of neighbors, every neighbor is a position
    /// and lists the position in turn, and the index files each stored text
    /// under its hash, at the last position that holds a text of that hash.
    pub open spec fn wf(self) -> bool {
        &&& self.links.len() == self.items.len()
        &&& forall|p: int, j: int|
            0 <= p < self.links.len() && 0 <= j < self.links[p].len() ==> {
                &&& (#[trigger] self.links[p][j]) < self.items.len()
                &&& self.links[self.links[p][j] as int].contains(p as usize)
            }
        &&& forall|p: int|
            0 <= p < self.items.len() ==> {
                &&& self.index.contains_key(#[trigger] content_hash(self.items[p]))
                &&& p <= self.index[content_hash(self.items[p])]
            }
        &&& forall|h: u64| #[trigger]
            self.index.contains_key(h) ==> {
                &&& self.index[h] < self.items.len()
                &&& content_hash(self.items[self.index[h] as int]) == h
            }
    }

    /// The position that the index gives for a text.
    pub open spec fn lookup(self, text: Seq<char>) -> Option<usize> {
        if self.index.contains_key(content_hash(text)) {
            Some(self.index[content_hash(text)])
        } else {
            None
        }
    }

    /// The position that stands for position `p`: the last one that holds a
    /// text of the same hash.
    pub open spec fn canon(self, p: usize) -> usize {
        self.index[content_hash(self.items[p as int])]
    }

    /// The layer after `text` was appended: the text has the next position,
    /// no neighbors, and the index points to it.
    pub open spec fn push(self, text: Seq<char>) -> LayerModel {
        LayerModel {
            items: self.items.push(text),
            links: self.links.push(Seq::empty()),
            index: self.index.insert(content_hash(text), self.items.len() as usize),
        }
    }

    /// The layer after an edge was laid between positions `a` and `b`: each
    /// lists the other last.
    pub open spec fn link(self, a: usize, b: usize) -> LayerModel {
        let first = self.links.update(a as int, self.links[a as int].push(b));
        LayerModel {
            items: self.items,
            links: first.update(b as int, first[b as int].push(a)),
            index: self.index,
        }
    }

    /// Appending a text keeps a layer well formed.
    pub proof fn lemma_push_wf(self, text: Seq<char>)
        requires
            self.wf(),
            self.items.len() < usize::MAX,
        ensures
            self.push(text).wf(),
    {
        let after = self.push(text);
        let n = self.items.len() as int;
        assert forall|p: int, j: int|
            0 <= p < after.links.len() && 0 <= j < after.links[p].len() implies {
            &&& (#[trigger] after.links[p][j]) < after.items.len()
            &&& after.links[after.links[p][j] as int].contains(p as usize)
        } by {
            assert(p < n);
            let q = self.links[p][j];
            assert(self.links[q as int].contains(p as usize));
        }
        assert forall|p: int| 0 <= p < after.items.len() implies {
            &&& after.index.contains_key(#[trigger] content_hash(after.items[p]))
            &&& p <= after.index[content_hash(after.items[p])]
        } by {
            if p < n {
                assert(self.index.contains_key(content_hash(self.items[p])));
            }
        }
        assert forall|h: u64| #[trigger] after.index.contains_key(h) implies {
            &&& after.index[h] < after.items.len()
            &&& content_hash(after.items[after.index[h] as int]) == h
        } by {
            if h != content_hash(text) {
                assert(self.index.contains_key(h));
            }
        }
    }

    /// The walk after the text at position `p` was met. A position outside
    /// the layer, or one whose text the walk has measured already, changes
    /// nothing. Otherwise the text is measured, and it joins the frontier
    /// unless a bound is given and its distance is above the bound.
    pub open spec fn visit(self, query: Seq<char>, walk: Walk, p: usize, bound: Option<usize>) -> Walk {
        if p >= self.items.len() || knows(walk.seen, self.canon(p)) {
            walk
        } else {
            let c = self.canon(p);
            let hit = Hit { pos: c, dist: text_distance(query, self.items[c as int]) };
            Walk {
                seen: walk.seen.push(hit),
                frontier: if bound is Some && hit.dist > bound->0 {
                    walk.frontier
                } else {
                    walk.frontier.push(hit)
                },
            }
        }
    }

    /// The walk after the first `n` positions of `list` were met in turn.
    pub open spec fn visit_upto(
        self,
        query: Seq<char>,
        walk: Walk,
        list: Seq<usize>,
        n: nat,
        bound: Option<usize>,
    ) -> Walk
        decreases n,
    {
        if n == 0 {
            walk
        } else {
            self.visit(
                query,
                self.visit_upto(query, walk, list, (n - 1) as nat, bound),
                list[n - 1],
                bound,
            )
        }
    }

    /// Every position of the layer, in order.
    pub open spec fn positions(self) -> Seq<usize> {
        Seq::new(self.items.len(), |p: int| p as usize)
    }

    /// The walk at its start: the seeds were met in turn, without a bound,
    /// or every position of the layer where there is no seed.
    pub open spec fn seed(self, query: Seq<char>, seeds: Seq<usize>) -> Walk {
        let from = if seeds.len() == 0 {
            self.positions()
        } else {
            seeds
        };
        self.visit_upto(
            query,
            Walk { seen: Seq::empty(), frontier: Seq::empty() },
            from,
            from.len(),
            None,
        )
    }

    /// The walk after its least waiting hit was expanded: the hit leaves the
    /// frontier and its neighbors are met in turn, bounded by its distance.
    pub open spec fn expand(self, query: Seq<char>, walk: Walk) -> Walk {
        let i = least_index(walk.frontier);
        let hit = walk.frontier[i];
        let near = self.links[hit.pos as int];
        self.visit_upto(
            query,
            Walk { seen: walk.seen, frontier: walk.frontier.remove(i) },
            near,
            near.len(),
            Some(hit.dist),
        )
    }

    /// The walk after at most `fuel` expansions, or fewer where the frontier
    /// runs empty before.
    pub open spec fn run(self, query: Seq<char>, walk: Walk, fuel: nat) -> Walk
        decreases fuel,
    {
        if fuel == 0 || walk.frontier.len() == 0 {
            walk
        } else {
            self.run(query, self.expand(query, walk), (fuel - 1) as nat)
        }
    }

    /// The greedy search: the `k` least hits among all that a walk measures
    /// which starts at the seeds and expands until nothing waits, one
    /// expansion for each stored text at most.
    pub open spec fn search(self, query: Seq<char>, seeds: Seq<usize>, k: nat) -> Seq<Hit> {
        least(self.run(query, self.seed(query, seeds), self.items.len()).seen, k)
    }

    /// Laying an edge between two positions keeps a layer well formed.
    pub proof fn lemma_link_wf(self, a: usize, b: usize)
        requires
            self.wf(),
            a < self.items.len(),
            b < self.items.len(),
        ensures
            self.link(a, b).wf(),
    {
        let after = self.link(a, b);
        let first = self.links.update(a as int, self.links[a as int].push(b));
        assert forall|p: int, j: int|
            0 <= p < after.links.len() && 0 <= j < after.links[p].len() implies {
            &&& (#[trigger] after.links[p][j]) < after.items.len()
            &&& after.links[after.links[p][j] as int].contains(p as usize)
        } by {
            let q = after.links[p][j];
            if j < self.links[p].len() {
                assert(q == self.links[p][j]);
                let i = choose|i: int|
                    0 <= i < self.links[q as int].len() && self.links[q as int][i] == p as usize;
                assert(after.links[q as int][i] == p as usize);
            } else if p == b && j == first[b as int].len() {
                assert(q == a);
                if a == b {
                    assert(after.links[a as int][j] == b);
                } else {
                    assert(after.links[a as int][self.links[a as int].len() as int] == b);
                }
            } else {
                assert(p == a);
                assert(q == b);
                assert(after.links[b as int][first[b as int].len() as int] == a);
            }
        }
    }

    /// The positions that the index gives for the first `n` texts of
    /// `entries`, in their order; a text that the index does not hold is
    /// passed over.
    pub open spec fn locate_upto(self, entries: Seq<(Seq<char>, usize)>, n: nat) -> Seq<usize>
        decreases n,
    {
        if n == 0 {
            Seq::empty()
        } else {
            let prior = self.locate_upto(entries, (n - 1) as nat);
            match self.lookup(entries[n - 1].0) {
                Some(p) => prior.push(p),
                None => prior,
            }
        }
    }

    /// The positions that the index gives for the texts of `entries`.
    pub open spec fn locate(self, entries: Seq<(Seq<char>, usize)>) -> Seq<usize> {
        self.locate_upto(entries, entries.len())
    }

    /// The text of each hit, with its distance.
    pub open spec fn describe(self, hits: Seq<Hit>) -> Seq<(Seq<char>, usize)> {
        Seq::new(hits.len(), |i: int| (self.items[hits[i].pos as int], hits[i].dist))
    }

    /// The greedy search seeded by texts: only the texts of `entries` are
    /// read, each is looked up in the index, and the hits are given as texts.
    /// Where entries are given and the index holds the text of none, nothing
    /// is found: the whole layer is searched only where no entry is given.
    pub open spec fn nearest(
        self,
        query: Seq<char>,
        entries: Seq<(Seq<char>, usize)>,
        k: nat,
    ) -> Seq<(Seq<char>, usize)> {
        let seeds = self.locate(entries);
        if entries.len() > 0 && seeds.len() == 0 {
            Seq::empty()
        } else {
            self.describe(self.search(query, seeds, k))
        }
    }

    /// The layer after edges were laid between position `p` and the first
    /// `n` of `hits`.
    pub open spec fn link_upto(self, p: usize, hits: Seq<Hit>, n: nat) -> LayerModel
        decreases n,
    {
        if n == 0 {
            self
        } else {
            self.link_upto(p, hits, (n - 1) as nat).link(p, hits[n - 1].pos)
        }
    }

    /// The layer after `text` was inserted: the `k` nearest texts are
    /// searched among those stored before, then the text is appended and an
    /// edge is laid to each of them.
    pub open spec fn insert(self, text: Seq<char>, seeds: Seq<usize>, k: nat) -> LayerModel {
        let hits = self.search(text, seeds, k);
        self.push(text).link_upto(self.items.len() as usize, hits, hits.len())
    }

    /// Every stored text with its distance to `query`, by position.
    pub open spec fn score_all(self, query: Seq<char>) -> Seq<(Seq<char>, usize)> {
        Seq::new(self.items.len(), |p: int| (self.items[p], text_distance(query, self.items[p])))
    }
}

/// Whether every hit of `s` lies at a position below `n`.
pub open spec fn within(s: Seq<Hit>, n: nat) -> bool {
    forall|i: int| 0 <= i < s.len() ==> (#[trigger] s[i]).pos < n
}

/// What a list of texts with distances holds: the characters of each text,
/// and its distance.
pub open spec fn entries_of(list: Seq<(&str, usize)>) -> Seq<(Seq<char>, usize)> {
    Seq::new(list.len(), |i: int| (list[i].0@, list[i].1))
}

} // verus!
