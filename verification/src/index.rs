//! The index: a stack of layers, and the cascades through them.

use vstd::prelude::*;
use crate::height::{layer_height, random_draw, LAYERS};
use crate::laws::{law_nearest_ascends, law_nearest_bounded, law_nearest_sound};
use crate::layer::Layer;
use crate::metric::text_distance;
use crate::model::{entries_of, knows, least, lemma_least, Hit, LayerModel};
use crate::search::take_least;

verus! {

/// Position of the top layer in the stack.
pub const TOP: usize = 9;

/// Edges that an insertion lays at the bottom layer, and hits that a search
/// hands on from there.
pub const BOTTOM_WIDTH: usize = 50;

/// Edges that an insertion lays at a layer above the bottom, and hits that a
/// search hands on from there.
pub const UPPER_WIDTH: usize = 5;

/// The width of layer `i`.
pub open spec fn width(i: nat) -> nat {
    if i == 0 {
        BOTTOM_WIDTH as nat
    } else {
        UPPER_WIDTH as nat
    }
}

/// The texts that a query has found so far: for each a hit, whose position
/// is the one that the bottom layer's index gives for the text, and the text
/// itself.
pub struct Pool {
    pub hits: Seq<Hit>,
    pub texts: Seq<Seq<char>>,
}

/// Index of the last of the first `n` hits that lies at position `key`, or
/// `-1` where there is none.
pub open spec fn rank_upto(hits: Seq<Hit>, key: usize, n: nat) -> int
    decreases n,
{
    if n == 0 {
        -1
    } else if hits[n - 1].pos == key {
        n - 1
    } else {
        rank_upto(hits, key, (n - 1) as nat)
    }
}

/// Index of the last hit that lies at position `key`, or `-1`.
pub open spec fn rank(hits: Seq<Hit>, key: usize) -> int {
    rank_upto(hits, key, hits.len())
}

/// Where no hit from `from` on lies at `key`, the rank is that among the
/// hits before `from`.
proof fn lemma_rank_upto(hits: Seq<Hit>, key: usize, from: nat, n: nat)
    requires
        from <= n <= hits.len(),
        forall|i: int| from <= i < n ==> hits[i].pos != key,
    ensures
        rank_upto(hits, key, n) == rank_upto(hits, key, from),
    decreases n,
{
    if from < n {
        lemma_rank_upto(hits, key, from, (n - 1) as nat);
    }
}

/// The index as a value: ten layers, the bottom one first.
pub struct IndexModel {
    pub layers: Seq<LayerModel>,
}

impl IndexModel {
    /// The index without texts.
    pub open spec fn empty() -> IndexModel {
        IndexModel { layers: Seq::new(LAYERS as nat, |i: int| LayerModel::empty()) }
    }

    /// There are ten layers, each is well formed, and a text stored at one
    /// layer is stored at the layer below.
    pub open spec fn wf(self) -> bool {
        &&& self.layers.len() == LAYERS
        &&& forall|i: int| 0 <= i < LAYERS ==> (#[trigger] self.layers[i]).wf()
        &&& forall|i: int, p: int|
            1 <= i < LAYERS && 0 <= p < self.layers[i].items.len() ==> self.layers[i
                - 1].items.contains(#[trigger] self.layers[i].items[p])
    }

    /// The candidates with which a cascade starts: every text of the top
    /// layer with its distance to `query`.
    pub open spec fn entry(self, query: Seq<char>) -> Seq<(Seq<char>, usize)> {
        self.layers[TOP as int].score_all(query)
    }

    /// The index after `text` was inserted into layer `count - 1` and every
    /// layer below, from the top down. Each layer is searched from `seeds`;
    /// what it finds seeds the layer below.
    pub open spec fn cascade(self, text: Seq<char>, count: nat, seeds: Seq<usize>) -> IndexModel
        decreases count,
    {
        if count == 0 {
            self
        } else {
            let i = (count - 1) as nat;
            let layer = self.layers[i as int];
            let hits = layer.search(text, seeds, width(i));
            let grown = layer.insert(text, seeds, width(i));
            let next = IndexModel { layers: self.layers.update(i as int, grown) };
            let below = if i == 0 {
                Seq::empty()
            } else {
                self.layers[i - 1].locate(grown.describe(hits))
            };
            next.cascade(text, i, below)
        }
    }

    /// The index after `text` was inserted with layer `height` as its
    /// highest: the cascade starts there, seeded by the texts of the top
    /// layer.
    pub open spec fn insert_at(self, text: Seq<char>, height: nat) -> IndexModel {
        self.cascade(text, height + 1, self.layers[height as int].locate(self.entry(text)))
    }

    /// The pool after a text was found. The text is filed under the position
    /// that the bottom layer's index gives for it; a text whose position is
    /// in the pool already, or has none, changes nothing.
    pub open spec fn absorb(self, pool: Pool, entry: (Seq<char>, usize)) -> Pool {
        match self.layers[0].lookup(entry.0) {
            Some(key) => if knows(pool.hits, key) {
                pool
            } else {
                Pool {
                    hits: pool.hits.push(Hit { pos: key, dist: entry.1 }),
                    texts: pool.texts.push(entry.0),
                }
            },
            None => pool,
        }
    }

    /// The pool after the first `n` of `entries` were found in turn.
    pub open spec fn absorb_upto(self, pool: Pool, entries: Seq<(Seq<char>, usize)>, n: nat) -> Pool
        decreases n,
    {
        if n == 0 {
            pool
        } else {
            self.absorb(self.absorb_upto(pool, entries, (n - 1) as nat), entries[n - 1])
        }
    }

    /// The pool after layer `count - 1` and every layer below were searched,
    /// from the top down. Each layer is searched from the texts that the
    /// layer above handed on, and everything that it hands on joins the pool.
    pub open spec fn descend(
        self,
        query: Seq<char>,
        count: nat,
        entries: Seq<(Seq<char>, usize)>,
        pool: Pool,
    ) -> Pool
        decreases count,
    {
        if count == 0 {
            pool
        } else {
            let i = (count - 1) as nat;
            let found = self.layers[i as int].nearest(query, entries, width(i));
            self.descend(query, i, found, self.absorb_upto(pool, found, found.len()))
        }
    }

    /// Everything that a query finds: the texts of the top layer, and what
    /// each layer hands on.
    pub open spec fn gather(self, query: Seq<char>) -> Pool {
        let entries = self.entry(query);
        let start = Pool { hits: Seq::empty(), texts: Seq::empty() };
        self.descend(
            query,
            LAYERS as nat,
            entries,
            self.absorb_upto(start, entries, entries.len()),
        )
    }

    /// The `k` nearest texts of a pool with their distances, nearest first;
    /// among equal distances the text that the bottom layer holds at the
    /// lower position comes first.
    pub open spec fn pick(pool: Pool, k: nat) -> Seq<(Seq<char>, usize)> {
        let best = least(pool.hits, k);
        Seq::new(best.len(), |i: int| (pool.texts[rank(pool.hits, best[i].pos)], best[i].dist))
    }

    /// The answer to a query: the `k` nearest among the texts that it finds.
    pub open spec fn nearest(self, query: Seq<char>, k: nat) -> Seq<(Seq<char>, usize)> {
        Self::pick(self.gather(query), k)
    }
}

/// The characters of each text of a list.
pub open spec fn texts_of(list: Seq<&str>) -> Seq<Seq<char>> {
    Seq::new(list.len(), |i: int| list[i]@)
}

/// The width of layer `i`.
fn fanout(i: usize) -> (w: usize)
    ensures
        w == width(i as nat),
{
    if i == 0 {
        BOTTOM_WIDTH
    } else {
        UPPER_WIDTH
    }
}

/// Index of the last hit at position `key`.
fn rank_of(hits: &Vec<Hit>, key: usize) -> (found: Option<usize>)
    ensures
        found is Some <==> knows(hits@, key),
        found is Some ==> found->0 == rank(hits@, key) && found->0 < hits.len(),
{
    let mut j: usize = hits.len();
    while j > 0
        invariant
            j <= hits.len(),
            forall|i: int| j <= i < hits.len() ==> hits@[i].pos != key,
        decreases j,
    {
        if hits[j - 1].pos == key {
            proof {
                lemma_rank_upto(hits@, key, j as nat, hits@.len());
            }
            return Some(j - 1);
        }
        j = j - 1;
    }
    None
}

/// An approximate nearest-neighbor index over strings.
pub struct Hnsw {
    layers: Vec<Layer>,
}

impl View for Hnsw {
    type V = IndexModel;

    closed spec fn view(&self) -> IndexModel {
        IndexModel { layers: Seq::new(self.layers@.len(), |i: int| self.layers@[i]@) }
    }
}

impl Default for Hnsw {
    /// An index without texts.
    fn default() -> (index: Hnsw)
        ensures
            index@ == IndexModel::empty(),
            index@.wf(),
    {
        let mut layers: Vec<Layer> = Vec::new();
        while layers.len() < LAYERS
            invariant
                layers.len() <= LAYERS,
                forall|i: int| 0 <= i < layers.len() ==> (#[trigger] layers@[i])@ == LayerModel::empty(),
            decreases LAYERS - layers.len(),
        {
            layers.push(Layer::new());
        }
        let index = Hnsw { layers };
        assert(index@.layers =~= IndexModel::empty().layers);
        index
    }
}

impl Hnsw {
    /// An index without texts.
    pub fn new() -> (index: Hnsw)
        ensures
            index@ == IndexModel::empty(),
            index@.wf(),
    {
        Hnsw::default()
    }

    /// Layer `i` of the stack, the bottom layer being layer zero.
    pub fn layer(&self, i: usize) -> (layer: &Layer)
        requires
            self@.wf(),
            i < LAYERS,
        ensures
            layer@ == self@.layers[i as int],
    {
        &self.layers[i]
    }

    /// The candidates with which a cascade starts: every text of the top
    /// layer with its distance to `query`.
    pub fn entry<'a>(&'a self, query: &str) -> (list: Vec<(&'a str, usize)>)
        requires
            self@.wf(),
        ensures
            entries_of(list@) == self@.entry(query@),
    {
        self.layers[TOP].all(query)
    }

    /// Inserts `s` with layer `height` as its highest. From there down to
    /// the bottom, each layer searches its nearest texts, stores `s` and lays
    /// an edge to each of them; what a layer finds seeds the layer below.
    pub fn insert_at(&mut self, s: &str, height: usize)
        requires
            old(self)@.wf(),
            height < LAYERS,
        ensures
            final(self)@ == old(self)@.insert_at(s@, height as nat),
            final(self)@.wf(),
            final(self)@.layers[0].items == old(self)@.layers[0].items.push(s@),
    {
        let entries = self.entry(s);
        let mut seeds = self.layers[height].locate(&entries);
        let mut count: usize = height + 1;
        while count > 0
            invariant
                count <= height + 1 <= LAYERS,
                self.layers@.len() == LAYERS,
                forall|i: int| 0 <= i < LAYERS ==> (#[trigger] self@.layers[i]).wf(),
                forall|i: int|
                    0 <= i < LAYERS ==> (#[trigger] self@.layers[i]).items == if count <= i
                        <= height {
                        old(self)@.layers[i].items.push(s@)
                    } else {
                        old(self)@.layers[i].items
                    },
                self@.cascade(s@, count as nat, seeds@) == old(self)@.insert_at(s@, height as nat),
            decreases count,
        {
            let i: usize = count - 1;
            let ghost prior = self@;
            let hits = self.layers[i].insert(s, &seeds, fanout(i));
            assert(self@.layers =~= prior.layers.update(i as int, self@.layers[i as int]));
            if i > 0 {
                let found = self.layers[i].describe(&hits);
                seeds = self.layers[i - 1].locate(&found);
            } else {
                seeds = Vec::new();
            }
            assert(self@.layers[i as int].items =~= prior.layers[i as int].items.push(s@));
            count = i;
        }
        proof {
            let before = old(self)@;
            let after = self@;
            assert forall|i: int, p: int|
                1 <= i < LAYERS && 0 <= p < after.layers[i].items.len() implies after.layers[i
                - 1].items.contains(#[trigger] after.layers[i].items[p]) by {
                let below = before.layers[i - 1].items;
                if i <= height {
                    if p < before.layers[i].items.len() {
                        let text = before.layers[i].items[p];
                        assert(below.contains(text));
                        let q = choose|q: int| 0 <= q < below.len() && below[q] == text;
                        assert(below.push(s@)[q] == text);
                    } else {
                        assert(below.push(s@)[below.len() as int] == s@);
                    }
                } else {
                    let text = before.layers[i].items[p];
                    assert(below.contains(text));
                    let q = choose|q: int| 0 <= q < below.len() && below[q] == text;
                    assert(after.layers[i - 1].items[q] == text);
                }
            }
        }
    }

    /// Inserts `s`. The layer at which the insertion starts is drawn at
    /// random; the text is stored there and at every layer below.
    pub fn insert(&mut self, s: &str)
        requires
            old(self)@.wf(),
        ensures
            exists|height: nat|
                height < LAYERS && final(self)@ == old(self)@.insert_at(s@, height),
            final(self)@.wf(),
            final(self)@.layers[0].items == old(self)@.layers[0].items.push(s@),
    {
        let height = layer_height(random_draw());
        self.insert_at(s, height);
    }

    /// Files the texts of `entries` into a pool, each under the position that
    /// the bottom layer's index holds for it.
    fn absorb<'a>(
        &'a self,
        hits: &mut Vec<Hit>,
        texts: &mut Vec<&'a str>,
        entries: &Vec<(&'a str, usize)>,
    )
        requires
            self@.wf(),
            old(hits).len() == old(texts).len(),
        ensures
            final(hits).len() == final(texts).len(),
            (Pool { hits: final(hits)@, texts: texts_of(final(texts)@) }) == self@.absorb_upto(
                (Pool { hits: old(hits)@, texts: texts_of(old(texts)@) }),
                entries_of(entries@),
                entries@.len(),
            ),
    {
        let ghost start = Pool { hits: hits@, texts: texts_of(texts@) };
        let mut j: usize = 0;
        while j < entries.len()
            invariant
                j <= entries.len(),
                self@.wf(),
                hits.len() == texts.len(),
                (Pool { hits: hits@, texts: texts_of(texts@) }) == self@.absorb_upto(
                    start,
                    entries_of(entries@),
                    j as nat,
                ),
            decreases entries.len() - j,
        {
            let text: &'a str = entries[j].0;
            let dist: usize = entries[j].1;
            match self.layers[0].index_of(text) {
                Some(key) => {
                    if rank_of(hits, key).is_none() {
                        let ghost held = texts@;
                        hits.push(Hit { pos: key, dist });
                        texts.push(text);
                        assert(texts_of(texts@) =~= texts_of(held).push(text@));
                    }
                },
                None => {},
            }
            j = j + 1;
        }
    }

    /// The `k` stored texts nearest to `s` that the index finds, each with
    /// its distance, nearest first.
    ///
    /// The search starts with every text of the top layer and walks each
    /// layer greedily, from the top down; what a layer hands on seeds the
    /// layer below. The answer is taken from everything handed on.
    pub fn nearest<'a>(&'a self, s: &str, k: usize) -> (list: Vec<(&'a str, usize)>)
        requires
            self@.wf(),
        ensures
            entries_of(list@) == self@.nearest(s@, k as nat),
            list.len() <= k,
            list.len() <= self@.layers[0].items.len(),
            forall|i: int, j: int|
                0 <= i <= j < list.len() ==> (#[trigger] list@[i]).1 <= (#[trigger] list@[j]).1,
            forall|i: int|
                0 <= i < list.len() ==> (#[trigger] list@[i]).1 == text_distance(s@, list@[i].0@),
    {
        let mut entries = self.entry(s);
        let mut hits: Vec<Hit> = Vec::new();
        let mut texts: Vec<&'a str> = Vec::new();
        assert(texts_of(texts@) =~= Seq::empty());
        self.absorb(&mut hits, &mut texts, &entries);
        let mut count: usize = LAYERS;
        while count > 0
            invariant
                count <= LAYERS,
                self@.wf(),
                hits.len() == texts.len(),
                self@.descend(
                    s@,
                    count as nat,
                    entries_of(entries@),
                    (Pool { hits: hits@, texts: texts_of(texts@) }),
                ) == self@.gather(s@),
            decreases count,
        {
            let i: usize = count - 1;
            entries = self.layers[i].nearest(s, &entries, fanout(i));
            self.absorb(&mut hits, &mut texts, &entries);
            count = i;
        }
        let mut work: Vec<Hit> = Vec::new();
        let mut j: usize = 0;
        while j < hits.len()
            invariant
                j <= hits.len(),
                work@ == hits@.subrange(0, j as int),
            decreases hits.len() - j,
        {
            work.push(hits[j]);
            assert(hits@.subrange(0, j + 1) =~= hits@.subrange(0, j as int).push(hits@[j as int]));
            j = j + 1;
        }
        assert(work@ =~= hits@);
        let best = take_least(work, k);
        proof {
            lemma_least(hits@, k as nat);
        }
        let mut list: Vec<(&'a str, usize)> = Vec::new();
        let mut j: usize = 0;
        while j < best.len()
            invariant
                j <= best.len(),
                hits.len() == texts.len(),
                best@ == least(hits@, k as nat),
                forall|i: int| 0 <= i < best.len() ==> hits@.contains(#[trigger] best@[i]),
                list.len() == j,
                forall|i: int|
                    0 <= i < j ==> 0 <= rank(hits@, (#[trigger] best@[i]).pos) < texts.len(),
                forall|i: int|
                    0 <= i < j ==> (#[trigger] list@[i]).0@ == texts@[rank(hits@, best@[i].pos)]@,
                forall|i: int| 0 <= i < j ==> (#[trigger] list@[i]).1 == best@[i].dist,
            decreases best.len() - j,
        {
            let hit = best[j];
            proof {
                let r = choose|r: int| 0 <= r < hits@.len() && hits@[r] == hit;
                assert(hits@[r].pos == hit.pos);
            }
            let found = rank_of(&hits, hit.pos);
            assert(found is Some);
            let r: usize = found.unwrap();
            list.push((texts[r], hit.dist));
            j = j + 1;
        }
        proof {
            let pool = Pool { hits: hits@, texts: texts_of(texts@) };
            assert(self@.gather(s@) == pool);
            assert(entries_of(list@) =~= IndexModel::pick(pool, k as nat));
            let answer = self@.nearest(s@, k as nat);
            law_nearest_ascends(self@, s@, k as nat);
            law_nearest_bounded(self@, s@, k as nat);
            law_nearest_sound(self@, s@, k as nat);
            assert forall|i: int, j: int| 0 <= i <= j < list.len() implies (#[trigger] list@[i]).1
                <= (#[trigger] list@[j]).1 by {
                assert(answer[i].1 == list@[i].1 && answer[j].1 == list@[j].1);
            }
            assert forall|i: int| 0 <= i < list.len() implies (#[trigger] list@[i]).1
                == text_distance(s@, list@[i].0@) by {
                assert(answer[i] == (list@[i].0@, list@[i].1));
            }
        }
        list
    }
}

} // verus!
