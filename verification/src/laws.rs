//! What holds of the answers of an index.

use vstd::prelude::*;
use crate::growth::{
    lemma_cascade, lemma_cascade_complete, lemma_insert_at, lemma_locate, lemma_locate_holds, stacked,
};
use crate::height::LAYERS;
use crate::index::{rank, rank_upto, width, IndexModel, Pool, BOTTOM_WIDTH, TOP};
use crate::metric::text_distance;
use crate::model::{
    before, content_hash, knows, least, least_index, lemma_least, lemma_least_upto, Hit, LayerModel,
    Walk,
};
use crate::walk::{
    complete, covers, distinct, extends, lemma_count, lemma_fill, lemma_knows_extends,
    lemma_least_first, lemma_search, lemma_search_complete, lemma_search_finds, lemma_visit_upto,
    plain,
};

verus! {

/// A text stored at any layer is stored at the bottom layer.
pub proof fn lemma_bottom_holds_all(index: IndexModel, i: nat, p: int)
    requires
        index.wf(),
        i < LAYERS,
        0 <= p < index.layers[i as int].items.len(),
    ensures
        index.layers[0].items.contains(index.layers[i as int].items[p]),
    decreases i,
{
    if i > 0 {
        let text = index.layers[i as int].items[p];
        let below = index.layers[i - 1].items;
        assert(below.contains(text));
        let q = choose|q: int| 0 <= q < below.len() && below[q] == text;
        lemma_bottom_holds_all(index, (i - 1) as nat, q);
    } else {
        assert(index.layers[0].items[p] == index.layers[0].items[p]);
    }
}

/// Whether each entry names a text of the bottom layer and carries its
/// distance to the query.
pub open spec fn genuine(base: LayerModel, query: Seq<char>, entries: Seq<(Seq<char>, usize)>) -> bool {
    forall|j: int|
        0 <= j < entries.len() ==> base.items.contains((#[trigger] entries[j]).0) && entries[j].1
            == text_distance(query, entries[j].0)
}

/// Whether a pool is in order: each text is stored at the bottom layer, the
/// hit beside it carries its distance to the query and lies at the position
/// that the index gives for it, and no two hits lie at one position.
pub open spec fn pool_sound(base: LayerModel, query: Seq<char>, pool: Pool) -> bool {
    &&& pool.hits.len() == pool.texts.len()
    &&& distinct(pool.hits)
    &&& forall|j: int|
        0 <= j < pool.hits.len() ==> {
            &&& (#[trigger] pool.hits[j]).pos < base.items.len()
            &&& base.items.contains(pool.texts[j])
            &&& base.lookup(pool.texts[j]) == Some(pool.hits[j].pos)
            &&& pool.hits[j].dist == text_distance(query, pool.texts[j])
        }
}

/// Finding genuine entries keeps a pool in order and loses nothing; the
/// position of every entry is in the pool afterwards.
pub proof fn lemma_absorb_upto(
    index: IndexModel,
    query: Seq<char>,
    pool: Pool,
    entries: Seq<(Seq<char>, usize)>,
    n: nat,
)
    requires
        index.layers.len() > 0,
        index.layers[0].wf(),
        pool_sound(index.layers[0], query, pool),
        genuine(index.layers[0], query, entries),
        n <= entries.len(),
    ensures
        pool_sound(index.layers[0], query, index.absorb_upto(pool, entries, n)),
        extends(pool.hits, index.absorb_upto(pool, entries, n).hits),
        forall|j: int|
            0 <= j < n ==> index.layers[0].lookup((#[trigger] entries[j]).0) is Some && knows(
                index.absorb_upto(pool, entries, n).hits,
                index.layers[0].lookup(entries[j].0)->0,
            ),
    decreases n,
{
    if n > 0 {
        let base = index.layers[0];
        let prior = index.absorb_upto(pool, entries, (n - 1) as nat);
        let after = index.absorb_upto(pool, entries, n);
        let entry = entries[n - 1];
        lemma_absorb_upto(index, query, pool, entries, (n - 1) as nat);
        assert(base.items.contains(entry.0));
        let p = choose|p: int| 0 <= p < base.items.len() && base.items[p] == entry.0;
        assert(base.index.contains_key(content_hash(base.items[p])));
        let key = base.lookup(entry.0)->0;
        if knows(prior.hits, key) {
        } else {
            let hit = Hit { pos: key, dist: entry.1 };
            assert(after.hits == prior.hits.push(hit));
            assert(after.texts == prior.texts.push(entry.0));
            assert(after.hits[prior.hits.len() as int].pos == key);
            assert forall|a: int, b: int| 0 <= a < b < after.hits.len() implies (
            #[trigger] after.hits[a]).pos != (#[trigger] after.hits[b]).pos by {
                if b == prior.hits.len() {
                    assert(prior.hits[a].pos != key);
                }
            }
        }
        assert forall|j: int| 0 <= j < n implies index.layers[0].lookup(
            (#[trigger] entries[j]).0,
        ) is Some && knows(after.hits, index.layers[0].lookup(entries[j].0)->0) by {
            if j < n - 1 {
                lemma_knows_extends(prior.hits, after.hits, base.lookup(entries[j].0)->0);
            }
        }
    }
}

/// What a layer of a well-formed index hands on is genuine.
pub proof fn lemma_nearest_genuine(
    index: IndexModel,
    i: nat,
    query: Seq<char>,
    entries: Seq<(Seq<char>, usize)>,
    k: nat,
)
    requires
        index.wf(),
        i < LAYERS,
    ensures
        genuine(index.layers[0], query, index.layers[i as int].nearest(query, entries, k)),
{
    let layer = index.layers[i as int];
    let hits = layer.search(query, layer.locate(entries), k);
    let found = layer.nearest(query, entries, k);
    lemma_search(layer, query, layer.locate(entries), k);
    assert forall|j: int| 0 <= j < found.len() implies index.layers[0].items.contains(
        (#[trigger] found[j]).0,
    ) && found[j].1 == text_distance(query, found[j].0) by {
        assert(hits[j].pos < layer.items.len());
        lemma_bottom_holds_all(index, i, hits[j].pos as int);
    }
}

/// Searching the layers keeps a pool in order and loses nothing.
pub proof fn lemma_descend(
    index: IndexModel,
    query: Seq<char>,
    count: nat,
    entries: Seq<(Seq<char>, usize)>,
    pool: Pool,
)
    requires
        index.wf(),
        count <= LAYERS,
        pool_sound(index.layers[0], query, pool),
    ensures
        pool_sound(index.layers[0], query, index.descend(query, count, entries, pool)),
        extends(pool.hits, index.descend(query, count, entries, pool).hits),
    decreases count,
{
    if count > 0 {
        let i = (count - 1) as nat;
        let found = index.layers[i as int].nearest(query, entries, width(i));
        lemma_nearest_genuine(index, i, query, entries, width(i));
        lemma_absorb_upto(index, query, pool, found, found.len());
        lemma_descend(index, query, i, found, index.absorb_upto(pool, found, found.len()));
    }
}

/// Everything that a query finds on a well-formed index is in order.
pub proof fn lemma_gather(index: IndexModel, query: Seq<char>)
    requires
        index.wf(),
    ensures
        pool_sound(index.layers[0], query, index.gather(query)),
{
    let entries = index.entry(query);
    let start = Pool { hits: Seq::empty(), texts: Seq::empty() };
    assert forall|j: int| 0 <= j < entries.len() implies index.layers[0].items.contains(
        (#[trigger] entries[j]).0,
    ) && entries[j].1 == text_distance(query, entries[j].0) by {
        lemma_bottom_holds_all(index, TOP as nat, j);
    }
    lemma_absorb_upto(index, query, start, entries, entries.len());
    lemma_descend(
        index,
        query,
        LAYERS as nat,
        entries,
        index.absorb_upto(start, entries, entries.len()),
    );
}

/// In a list of hits at pairwise different positions, the rank of a hit's
/// position is the hit's own index.
pub proof fn lemma_rank(hits: Seq<Hit>, j: int, n: nat)
    requires
        distinct(hits),
        0 <= j < n <= hits.len(),
    ensures
        rank_upto(hits, hits[j].pos, n) == j,
    decreases n,
{
    if n - 1 > j {
        assert(hits[j].pos != hits[n - 1].pos);
        lemma_rank(hits, j, (n - 1) as nat);
    }
}

/// The answer picked from a pool in order: for each of the `k` least hits
/// the text beside it, with its distance.
pub proof fn lemma_pick(base: LayerModel, query: Seq<char>, pool: Pool, k: nat)
    requires
        pool_sound(base, query, pool),
    ensures
        IndexModel::pick(pool, k).len() == least(pool.hits, k).len(),
        forall|i: int|
            0 <= i < least(pool.hits, k).len() ==> {
                let hit = #[trigger] least(pool.hits, k)[i];
                &&& IndexModel::pick(pool, k)[i].1 == hit.dist
                &&& base.lookup(IndexModel::pick(pool, k)[i].0) == Some(hit.pos)
                &&& base.items.contains(IndexModel::pick(pool, k)[i].0)
                &&& hit.dist == text_distance(query, IndexModel::pick(pool, k)[i].0)
            },
{
    let best = least(pool.hits, k);
    lemma_least(pool.hits, k);
    assert forall|i: int| 0 <= i < best.len() implies {
        let hit = #[trigger] best[i];
        &&& IndexModel::pick(pool, k)[i].1 == hit.dist
        &&& base.lookup(IndexModel::pick(pool, k)[i].0) == Some(hit.pos)
        &&& base.items.contains(IndexModel::pick(pool, k)[i].0)
        &&& hit.dist == text_distance(query, IndexModel::pick(pool, k)[i].0)
    } by {
        assert(pool.hits.contains(best[i]));
        let j = choose|j: int| 0 <= j < pool.hits.len() && pool.hits[j] == best[i];
        lemma_rank(pool.hits, j, pool.hits.len());
        assert(rank(pool.hits, best[i].pos) == j);
    }
}

/// Every answer is sound: each text that it names is stored in the index,
/// and the distance beside it is the distance between the query and that
/// text.
pub proof fn law_nearest_sound(index: IndexModel, query: Seq<char>, k: nat)
    requires
        index.wf(),
    ensures
        forall|i: int|
            0 <= i < index.nearest(query, k).len() ==> {
                &&& index.layers[0].items.contains((#[trigger] index.nearest(query, k)[i]).0)
                &&& index.nearest(query, k)[i].1 == text_distance(
                    query,
                    index.nearest(query, k)[i].0,
                )
            },
{
    let pool = index.gather(query);
    lemma_gather(index, query);
    lemma_pick(index.layers[0], query, pool, k);
    assert forall|i: int| 0 <= i < index.nearest(query, k).len() implies {
        &&& index.layers[0].items.contains((#[trigger] index.nearest(query, k)[i]).0)
        &&& index.nearest(query, k)[i].1 == text_distance(query, index.nearest(query, k)[i].0)
    } by {
        let hit = least(pool.hits, k)[i];
    }
}

/// The distances of an answer never descend.
pub proof fn law_nearest_ascends(index: IndexModel, query: Seq<char>, k: nat)
    ensures
        forall|i: int, j: int|
            0 <= i <= j < index.nearest(query, k).len() ==> (#[trigger] index.nearest(
                query,
                k,
            )[i]).1 <= (#[trigger] index.nearest(query, k)[j]).1,
{
    let pool = index.gather(query);
    let best = least(pool.hits, k);
    lemma_least(pool.hits, k);
    assert forall|i: int, j: int| 0 <= i <= j < index.nearest(query, k).len() implies (
    #[trigger] index.nearest(query, k)[i]).1 <= (#[trigger] index.nearest(query, k)[j]).1 by {
        assert(!before(best[j], best[i]));
    }
}

/// An answer has as many entries as were asked for, or as the query has
/// gathered texts where those are fewer: never more than the bottom layer has
/// texts, and none on an index without texts.
pub proof fn law_nearest_bounded(index: IndexModel, query: Seq<char>, k: nat)
    requires
        index.wf(),
    ensures
        index.nearest(query, k).len() == if k <= index.gather(query).hits.len() {
            k
        } else {
            index.gather(query).hits.len()
        },
        index.nearest(query, k).len() <= k,
        index.nearest(query, k).len() <= index.layers[0].items.len(),
        index.layers[0].items.len() == 0 ==> index.nearest(query, k).len() == 0,
{
    let pool = index.gather(query);
    lemma_gather(index, query);
    lemma_least(pool.hits, k);
    lemma_count(pool.hits, index.layers[0].items.len());
}

/// Whether the bottom layer is searched through and through: no two of its
/// texts share a hash, every two are neighbors, and it has no more texts
/// than a search hands on from there.
pub open spec fn exhaustive(index: IndexModel) -> bool {
    &&& index.wf()
    &&& plain(index.layers[0])
    &&& complete(index.layers[0])
    &&& index.layers[0].items.len() <= BOTTOM_WIDTH
    &&& forall|i: int|
        0 <= i < LAYERS ==> (#[trigger] index.layers[i]).items.len()
            <= index.layers[0].items.len()
}

/// Where no two texts of a layer share a hash, the index gives for each
/// stored text its own position.
pub proof fn lemma_plain_lookup(base: LayerModel, text: Seq<char>)
    requires
        base.wf(),
        plain(base),
        base.items.contains(text),
        base.items.len() <= usize::MAX,
    ensures
        base.lookup(text) is Some,
        base.lookup(text)->0 < base.items.len(),
        base.items[base.lookup(text)->0 as int] == text,
{
    let p = choose|p: int| 0 <= p < base.items.len() && base.items[p] == text;
    assert(base.index.contains_key(content_hash(base.items[p])));
    assert(base.canon(p as usize) == p as usize);
}

/// On an exhaustive index, searching down to the bottom brings every text
/// of the bottom layer into the pool.
pub proof fn lemma_descend_complete(
    index: IndexModel,
    query: Seq<char>,
    count: nat,
    entries: Seq<(Seq<char>, usize)>,
    pool: Pool,
)
    requires
        exhaustive(index),
        1 <= count <= LAYERS,
        pool_sound(index.layers[0], query, pool),
        genuine(index.layers[0], query, entries),
    ensures
        covers(index.descend(query, count, entries, pool).hits, index.layers[0].items.len()),
    decreases count,
{
    let base = index.layers[0];
    let i = (count - 1) as nat;
    let found = index.layers[i as int].nearest(query, entries, width(i));
    let grown = index.absorb_upto(pool, found, found.len());
    lemma_nearest_genuine(index, i, query, entries, width(i));
    lemma_absorb_upto(index, query, pool, found, found.len());
    if i == 0 {
        let seeds = base.locate(entries);
        let hits = base.search(query, seeds, width(0));
        lemma_locate(base, entries, entries.len());
        lemma_search(base, query, seeds, width(0));
        lemma_search_complete(base, query, seeds, width(0));
        if entries.len() > 0 {
            lemma_plain_lookup(base, entries[0].0);
            lemma_locate_holds(base, entries, entries.len(), 0);
        }
        assert(found == base.describe(hits));
        assert(index.descend(query, 0, found, grown) == grown);
        assert forall|p: usize| p < base.items.len() implies knows(grown.hits, p) by {
            assert(knows(hits, p));
            let j = choose|j: int| 0 <= j < hits.len() && #[trigger] hits[j].pos == p;
            assert(found[j].0 == base.items[p as int]);
            assert(base.index.contains_key(content_hash(base.items[p as int])));
            assert(base.canon(p) == p);
            assert(base.lookup(found[j].0) == Some(p));
        }
    } else {
        lemma_descend_complete(index, query, i, found, grown);
    }
}

/// On an exhaustive index a query finds every text of the bottom layer,
/// each once.
pub proof fn lemma_gather_complete(index: IndexModel, query: Seq<char>)
    requires
        exhaustive(index),
    ensures
        pool_sound(index.layers[0], query, index.gather(query)),
        covers(index.gather(query).hits, index.layers[0].items.len()),
        index.gather(query).hits.len() == index.layers[0].items.len(),
{
    let entries = index.entry(query);
    let start = Pool { hits: Seq::empty(), texts: Seq::empty() };
    let pool = index.gather(query);
    lemma_gather(index, query);
    assert forall|j: int| 0 <= j < entries.len() implies index.layers[0].items.contains(
        (#[trigger] entries[j]).0,
    ) && entries[j].1 == text_distance(query, entries[j].0) by {
        lemma_bottom_holds_all(index, TOP as nat, j);
    }
    lemma_absorb_upto(index, query, start, entries, entries.len());
    lemma_descend_complete(
        index,
        query,
        LAYERS as nat,
        entries,
        index.absorb_upto(start, entries, entries.len()),
    );
    lemma_count(pool.hits, index.layers[0].items.len());
    lemma_fill(pool.hits, index.layers[0].items.len());
}

/// On an exhaustive index an answer has exactly as many entries as were
/// asked for, or as the index has texts where it has fewer.
pub proof fn law_nearest_count(index: IndexModel, query: Seq<char>, k: nat)
    requires
        exhaustive(index),
    ensures
        index.nearest(query, k).len() == if k <= index.layers[0].items.len() {
            k
        } else {
            index.layers[0].items.len()
        },
{
    lemma_gather_complete(index, query);
    lemma_least(index.gather(query).hits, k);
}

/// On an exhaustive index an answer is exact: a stored text that it leaves
/// out is no nearer to the query than any text that it names.
pub proof fn law_nearest_exact(index: IndexModel, query: Seq<char>, k: nat, q: int)
    requires
        exhaustive(index),
        0 <= q < index.layers[0].items.len(),
        forall|i: int|
            0 <= i < index.nearest(query, k).len() ==> (#[trigger] index.nearest(query, k)[i]).0
                != index.layers[0].items[q],
    ensures
        forall|i: int|
            0 <= i < index.nearest(query, k).len() ==> (#[trigger] index.nearest(query, k)[i]).1
                <= text_distance(query, index.layers[0].items[q]),
{
    let base = index.layers[0];
    let pool = index.gather(query);
    let best = least(pool.hits, k);
    let answer = index.nearest(query, k);
    lemma_gather_complete(index, query);
    lemma_least(pool.hits, k);
    lemma_pick(base, query, pool, k);
    assert(knows(pool.hits, q as usize));
    let j = choose|j: int| 0 <= j < pool.hits.len() && #[trigger] pool.hits[j].pos == q as usize;
    lemma_plain_lookup(base, pool.texts[j]);
    if best.contains(pool.hits[j]) {
        let i = choose|i: int| 0 <= i < best.len() && best[i] == pool.hits[j];
        lemma_plain_lookup(base, answer[i].0);
        assert(answer[i].0 == base.items[q]);
    }
    lemma_least_first(pool.hits, k, j);
    assert forall|i: int| 0 <= i < answer.len() implies (#[trigger] answer[i]).1 <= text_distance(
        query,
        base.items[q],
    ) by {
        assert(!before(pool.hits[j], best[i]));
    }
}

/// On an exhaustive index the nearest text to a stored text is that text
/// itself, at distance zero, if no other stored text is at distance zero
/// from it.
pub proof fn law_nearest_finds(index: IndexModel, p: int)
    requires
        exhaustive(index),
        0 <= p < index.layers[0].items.len(),
        forall|q: int|
            0 <= q < index.layers[0].items.len() ==> (#[trigger] text_distance(
                index.layers[0].items[p],
                index.layers[0].items[q],
            ) == 0) == (q == p),
    ensures
        index.nearest(index.layers[0].items[p], 1) == seq![(index.layers[0].items[p], 0usize)],
{
    let base = index.layers[0];
    let text = base.items[p];
    let pool = index.gather(text);
    let best = least(pool.hits, 1);
    let answer = index.nearest(text, 1);
    lemma_gather_complete(index, text);
    lemma_least(pool.hits, 1);
    lemma_pick(base, text, pool, 1);
    assert(knows(pool.hits, p as usize));
    let j = choose|j: int| 0 <= j < pool.hits.len() && #[trigger] pool.hits[j].pos == p as usize;
    lemma_plain_lookup(base, pool.texts[j]);
    assert(pool.texts[j] == text);
    let hit = best[0];
    assert(pool.hits.contains(hit));
    let m = choose|m: int| 0 <= m < pool.hits.len() && pool.hits[m] == hit;
    lemma_plain_lookup(base, pool.texts[m]);
    assert(!before(pool.hits[j], hit)) by {
        lemma_least_upto(pool.hits, pool.hits.len());
        assert(best =~= seq![pool.hits[least_index(pool.hits)]] + least(
            pool.hits.remove(least_index(pool.hits)),
            0,
        ));
    }
    assert(hit.dist == 0);
    assert(text_distance(text, base.items[hit.pos as int]) == 0);
    assert(hit.pos == p);
    lemma_plain_lookup(base, answer[0].0);
    assert(answer =~= seq![(text, 0usize)]);
}

/// Whether a text is told apart from every other text of a layer: a stored
/// text with the same hash, or at distance zero from it, is the text itself.
pub open spec fn stands_out(base: LayerModel, text: Seq<char>) -> bool {
    forall|r: int|
        0 <= r < base.items.len() && (content_hash(#[trigger] base.items[r]) == content_hash(text)
            || text_distance(text, base.items[r]) == 0) ==> base.items[r] == text
}

/// Whether a text is among the entries.
pub open spec fn names(entries: Seq<(Seq<char>, usize)>, text: Seq<char>) -> bool {
    exists|j: int| 0 <= j < entries.len() && (#[trigger] entries[j]).0 == text
}

/// A text stored at a layer is stored at every layer below.
pub proof fn lemma_holds_below(index: IndexModel, level: nat, i: nat, text: Seq<char>)
    requires
        index.wf(),
        i <= level < LAYERS,
        index.layers[level as int].items.contains(text),
    ensures
        index.layers[i as int].items.contains(text),
    decreases level,
{
    if i < level {
        let upper = index.layers[level as int].items;
        let p = choose|p: int| 0 <= p < upper.len() && upper[p] == text;
        assert(index.layers[level - 1].items.contains(upper[p]));
        lemma_holds_below(index, (level - 1) as nat, i, text);
    }
}

/// A layer that holds a text which is told apart from every other text
/// hands it on first when it is searched for that text, at distance zero,
/// if the search starts everywhere or at the text.
pub proof fn lemma_layer_finds(
    index: IndexModel,
    i: nat,
    text: Seq<char>,
    entries: Seq<(Seq<char>, usize)>,
    k: nat,
)
    requires
        index.wf(),
        i < LAYERS,
        k >= 1,
        stands_out(index.layers[0], text),
        text_distance(text, text) == 0,
        index.layers[i as int].items.contains(text),
        entries.len() == 0 || names(entries, text),
    ensures
        index.layers[i as int].nearest(text, entries, k).len() >= 1,
        index.layers[i as int].nearest(text, entries, k)[0] == (text, 0usize),
{
    let m = index.layers[i as int];
    let base = index.layers[0];
    let p = choose|p: int| 0 <= p < m.items.len() && m.items[p] == text;
    assert(m.index.contains_key(content_hash(m.items[p])));
    let c = m.canon(p as usize);
    assert(m.items[c as int] == text) by {
        lemma_bottom_holds_all(index, i, c as int);
        let r = choose|r: int| 0 <= r < base.items.len() && base.items[r] == m.items[c as int];
    }
    assert forall|r: usize|
        r < m.items.len() && text_distance(text, m.items[r as int]) == 0 implies #[trigger] m.canon(
        r,
    ) == c by {
        lemma_bottom_holds_all(index, i, r as int);
        let r0 = choose|r0: int| 0 <= r0 < base.items.len() && base.items[r0] == m.items[r as int];
    }
    let seeds = m.locate(entries);
    let start = Walk { seen: Seq::empty(), frontier: Seq::empty() };
    if entries.len() == 0 {
        assert(seeds.len() == 0);
        let from = m.positions();
        lemma_visit_upto(m, text, start, from, from.len(), None);
        assert(from[p] == p as usize);
        assert(knows(m.seed(text, seeds).seen, m.canon(from[p])));
    } else {
        let j = choose|j: int| 0 <= j < entries.len() && (#[trigger] entries[j]).0 == text;
        lemma_locate_holds(m, entries, entries.len(), j);
        lemma_locate(m, entries, entries.len());
        let t = choose|t: int| 0 <= t < seeds.len() && seeds[t] == c;
        lemma_visit_upto(m, text, start, seeds, seeds.len(), None);
        assert(knows(m.seed(text, seeds).seen, m.canon(seeds[t])));
    }
    lemma_search_finds(m, text, seeds, k, c);
}

/// Searching down from above the highest layer that holds any text, for a
/// text which that layer holds and which is told apart from every other
/// text, brings the text into the pool.
pub proof fn lemma_descend_finds(
    index: IndexModel,
    text: Seq<char>,
    level: nat,
    count: nat,
    entries: Seq<(Seq<char>, usize)>,
    pool: Pool,
)
    requires
        index.wf(),
        stands_out(index.layers[0], text),
        text_distance(text, text) == 0,
        level < LAYERS,
        index.layers[level as int].items.contains(text),
        forall|i: int| level < i < LAYERS ==> (#[trigger] index.layers[i]).items.len() == 0,
        1 <= count <= LAYERS,
        pool_sound(index.layers[0], text, pool),
        count == level + 1 ==> entries.len() == 0 || names(entries, text),
        count <= level ==> names(entries, text),
    ensures
        index.layers[0].lookup(text) is Some,
        knows(
            index.descend(text, count, entries, pool).hits,
            index.layers[0].lookup(text)->0,
        ),
    decreases count,
{
    let i = (count - 1) as nat;
    let layer = index.layers[i as int];
    let found = layer.nearest(text, entries, width(i));
    let grown = index.absorb_upto(pool, found, found.len());
    lemma_nearest_genuine(index, i, text, entries, width(i));
    lemma_absorb_upto(index, text, pool, found, found.len());
    if i > level {
        lemma_search(layer, text, layer.locate(entries), width(i));
        assert(found.len() == 0);
        lemma_descend_finds(index, text, level, i, found, grown);
    } else {
        lemma_holds_below(index, level, i, text);
        lemma_layer_finds(index, i, text, entries, width(i));
        assert(found[0].0 == text);
        if i == 0 {
            assert(index.descend(text, 0, found, grown) == grown);
        } else {
            lemma_descend_finds(index, text, level, i, found, grown);
        }
    }
}

/// Self-match, exactly. The nearest text to a stored text that is told
/// apart from every other stored text is that text itself, at distance zero,
/// if and only if the search for it reaches it: its position at the bottom
/// layer is among those that the query gathers.
pub proof fn law_match_iff_reached(index: IndexModel, text: Seq<char>)
    requires
        index.wf(),
        index.layers[0].items.contains(text),
        stands_out(index.layers[0], text),
        text_distance(text, text) == 0,
    ensures
        index.layers[0].lookup(text) is Some,
        index.nearest(text, 1) == seq![(text, 0usize)] <==> knows(
            index.gather(text).hits,
            index.layers[0].lookup(text)->0,
        ),
{
    let base = index.layers[0];
    let pool = index.gather(text);
    let answer = index.nearest(text, 1);
    let best = least(pool.hits, 1);
    let p = choose|p: int| 0 <= p < base.items.len() && base.items[p] == text;
    assert(base.index.contains_key(content_hash(base.items[p])));
    let key = base.lookup(text)->0;
    lemma_gather(index, text);
    lemma_least(pool.hits, 1);
    lemma_pick(base, text, pool, 1);
    if knows(pool.hits, key) {
        let j = choose|j: int| 0 <= j < pool.hits.len() && #[trigger] pool.hits[j].pos == key;
        assert(pool.texts[j] == text) by {
            let t = pool.texts[j];
            assert(base.index.contains_key(content_hash(t)));
            assert(content_hash(base.items[key as int]) == content_hash(t));
            assert(content_hash(base.items[key as int]) == content_hash(text));
            let r = choose|r: int| 0 <= r < base.items.len() && base.items[r] == t;
        }
        lemma_least_upto(pool.hits, pool.hits.len());
        assert(best =~= seq![pool.hits[least_index(pool.hits)]] + least(
            pool.hits.remove(least_index(pool.hits)),
            0,
        ));
        assert(!before(pool.hits[j], best[0]));
        assert(best[0].dist == 0);
        let r = choose|r: int| 0 <= r < base.items.len() && base.items[r] == answer[0].0;
        assert(answer =~= seq![(text, 0usize)]);
    }
    if answer == seq![(text, 0usize)] {
        assert(answer.len() == 1);
        assert(answer[0].0 == text);
        assert(pool.hits.contains(best[0]));
        let j = choose|j: int| 0 <= j < pool.hits.len() && pool.hits[j] == best[0];
        assert(pool.hits[j].pos == key);
    }
}

/// Exact self-match at the top. On an index of any size, the nearest text
/// to a text that is stored in the highest layer which holds any text is
/// that text itself, at distance zero, if it is told apart from every other
/// stored text. An index whose texts all stand in the bottom layer alone is
/// such an index for each of them.
pub proof fn law_top_match(index: IndexModel, level: nat, text: Seq<char>)
    requires
        index.wf(),
        level < LAYERS,
        index.layers[level as int].items.contains(text),
        forall|i: int| level < i < LAYERS ==> (#[trigger] index.layers[i]).items.len() == 0,
        stands_out(index.layers[0], text),
        text_distance(text, text) == 0,
    ensures
        index.nearest(text, 1) == seq![(text, 0usize)],
{
    let base = index.layers[0];
    let entries = index.entry(text);
    let start = Pool { hits: Seq::empty(), texts: Seq::empty() };
    let seeded = index.absorb_upto(start, entries, entries.len());
    assert forall|j: int| 0 <= j < entries.len() implies base.items.contains(
        (#[trigger] entries[j]).0,
    ) && entries[j].1 == text_distance(text, entries[j].0) by {
        lemma_bottom_holds_all(index, TOP as nat, j);
    }
    lemma_absorb_upto(index, text, start, entries, entries.len());
    if level == TOP {
        let top = index.layers[TOP as int].items;
        let p = choose|p: int| 0 <= p < top.len() && top[p] == text;
        assert(entries[p].0 == text);
    }
    lemma_descend_finds(index, text, level, LAYERS as nat, entries, seeded);
    lemma_holds_below(index, level, 0, text);
    law_match_iff_reached(index, text);
}

/// The index that holds `texts`, inserted in their order, the insertion of
/// each started at the layer that `heights` names for it.
pub open spec fn built(texts: Seq<Seq<char>>, heights: Seq<nat>) -> IndexModel
    decreases texts.len(),
{
    if texts.len() == 0 {
        IndexModel::empty()
    } else {
        built(texts.drop_last(), heights.drop_last()).insert_at(texts.last(), heights.last())
    }
}

/// Whether texts can be inserted one after the other so that the index
/// stays exhaustive: they are no more than the bottom layer's width, each has
/// a layer to start at, and no two share a hash.
pub open spec fn modest(texts: Seq<Seq<char>>, heights: Seq<nat>) -> bool {
    &&& texts.len() == heights.len()
    &&& texts.len() <= BOTTOM_WIDTH
    &&& forall|i: int| 0 <= i < heights.len() ==> #[trigger] heights[i] < LAYERS
    &&& forall|i: int, j: int|
        0 <= i < j < texts.len() ==> content_hash(#[trigger] texts[i]) != content_hash(
            #[trigger] texts[j],
        )
}

/// An index built from modest texts is exhaustive, and its bottom layer
/// holds the texts in the order of their insertion.
pub proof fn lemma_built(texts: Seq<Seq<char>>, heights: Seq<nat>)
    requires
        modest(texts, heights),
    ensures
        exhaustive(built(texts, heights)),
        built(texts, heights).layers[0].items == texts,
    decreases texts.len(),
{
    let index = built(texts, heights);
    if texts.len() == 0 {
        assert(index.layers[0].items =~= texts);
    } else {
        let text = texts.last();
        let height = heights.last();
        let prior = built(texts.drop_last(), heights.drop_last());
        assert(modest(texts.drop_last(), heights.drop_last()));
        lemma_built(texts.drop_last(), heights.drop_last());
        let base = prior.layers[0];
        let seeds = prior.layers[height as int].locate(prior.entry(text));
        assert(stacked(prior, height + 1));
        lemma_insert_at(prior, text, height);
        lemma_cascade(prior, text, height + 1, seeds);
        assert(!base.index.contains_key(content_hash(text))) by {
            if base.index.contains_key(content_hash(text)) {
                let q = base.index[content_hash(text)] as int;
                assert(texts[q] == base.items[q]);
            }
        }
        lemma_locate(prior.layers[height as int], prior.entry(text), prior.entry(text).len());
        lemma_cascade_complete(prior, text, height + 1, seeds);
        assert(index.layers[0].items =~= texts);
        assert forall|i: int| 0 <= i < LAYERS implies (#[trigger] index.layers[i]).items.len()
            <= index.layers[0].items.len() by {
            if i > height {
                assert(index.layers[i] == prior.layers[i]);
            }
        }
    }
}

/// Exact self-match. Let no more texts than the bottom layer's width be
/// inserted, in any order and each starting at any layer, no two of them with
/// the same hash and no two at distance zero from each other. Then the
/// nearest text to each of them is that text itself, at distance zero.
pub proof fn law_self_match(texts: Seq<Seq<char>>, heights: Seq<nat>, i: int)
    requires
        modest(texts, heights),
        0 <= i < texts.len(),
        forall|a: int, b: int|
            0 <= a < texts.len() && 0 <= b < texts.len() ==> (#[trigger] text_distance(
                texts[a],
                texts[b],
            ) == 0) == (a == b),
    ensures
        built(texts, heights).nearest(texts[i], 1) == seq![(texts[i], 0usize)],
{
    lemma_built(texts, heights);
    law_nearest_finds(built(texts, heights), i);
}

/// Order-independence of exact matches. Two indexes that hold the same
/// texts, inserted in different orders and starting at different layers, give
/// the same answer when asked for the nearest text to one of them: that text,
/// at distance zero.
pub proof fn law_order_independent(
    texts: Seq<Seq<char>>,
    heights: Seq<nat>,
    others: Seq<Seq<char>>,
    other_heights: Seq<nat>,
    i: int,
)
    requires
        modest(texts, heights),
        modest(others, other_heights),
        forall|a: int| 0 <= a < others.len() ==> texts.contains(#[trigger] others[a]),
        forall|a: int| 0 <= a < texts.len() ==> others.contains(#[trigger] texts[a]),
        0 <= i < texts.len(),
        forall|a: int, b: int|
            0 <= a < texts.len() && 0 <= b < texts.len() ==> (#[trigger] text_distance(
                texts[a],
                texts[b],
            ) == 0) == (a == b),
    ensures
        built(texts, heights).nearest(texts[i], 1) == seq![(texts[i], 0usize)],
        built(others, other_heights).nearest(texts[i], 1) == seq![(texts[i], 0usize)],
{
    law_self_match(texts, heights, i);
    assert(others.contains(texts[i]));
    let j = choose|j: int| 0 <= j < others.len() && others[j] == texts[i];
    assert forall|a: int, b: int| 0 <= a < others.len() && 0 <= b < others.len() implies (
    #[trigger] text_distance(others[a], others[b]) == 0) == (a == b) by {
        assert(texts.contains(others[a]));
        assert(texts.contains(others[b]));
        let a0 = choose|a0: int| 0 <= a0 < texts.len() && texts[a0] == others[a];
        let b0 = choose|b0: int| 0 <= b0 < texts.len() && texts[b0] == others[b];
        assert((text_distance(texts[a0], texts[b0]) == 0) == (a0 == b0));
        if a0 == b0 && a != b {
            if a < b {
                assert(content_hash(others[a]) != content_hash(others[b]));
            } else {
                assert(content_hash(others[b]) != content_hash(others[a]));
            }
        }
    }
    law_self_match(others, other_heights, j);
}

/// Bottom-layer completeness. Whatever the layer at which an insertion
/// starts, the bottom layer receives the text: it stands there last, and the
/// bottom layer's index points to it.
pub proof fn law_bottom_receives(index: IndexModel, text: Seq<char>, height: nat)
    requires
        index.wf(),
        height < LAYERS,
        forall|i: int| 0 <= i < LAYERS ==> (#[trigger] index.layers[i]).items.len() < usize::MAX,
    ensures
        index.insert_at(text, height).wf(),
        index.insert_at(text, height).layers[0].items == index.layers[0].items.push(text),
        index.insert_at(text, height).layers[0].lookup(text) == Some(
            index.layers[0].items.len() as usize,
        ),
{
    assert(stacked(index, height + 1));
    lemma_insert_at(index, text, height);
}

/// A text is found right after its insertion: on an index built from modest
/// texts of which none is at distance zero from another, the nearest text to
/// the one inserted last is that text, whatever the layer at which its
/// insertion started.
pub proof fn law_found_after_insertion(
    texts: Seq<Seq<char>>,
    heights: Seq<nat>,
    text: Seq<char>,
    height: nat,
)
    requires
        modest(texts.push(text), heights.push(height)),
        forall|a: int, b: int|
            0 <= a <= texts.len() && 0 <= b <= texts.len() ==> (#[trigger] text_distance(
                texts.push(text)[a],
                texts.push(text)[b],
            ) == 0) == (a == b),
    ensures
        built(texts, heights).insert_at(text, height).nearest(text, 1) == seq![(text, 0usize)],
{
    let all = texts.push(text);
    let levels = heights.push(height);
    assert(all.drop_last() =~= texts);
    assert(levels.drop_last() =~= heights);
    law_self_match(all, levels, texts.len() as int);
}

/// First insertion. Inserting into an index without texts leaves the text
/// alone and without neighbors at the layer at which the insertion starts and
/// at every layer below, and leaves the layers above empty.
pub proof fn law_first_insertion(text: Seq<char>, height: nat)
    requires
        height < LAYERS,
    ensures
        IndexModel::empty().insert_at(text, height).wf(),
        forall|i: int|
            0 <= i < LAYERS ==> #[trigger] IndexModel::empty().insert_at(text, height).layers[i]
                == if i <= height {
                LayerModel {
                    items: seq![text],
                    links: seq![Seq::empty()],
                    index: Map::empty().insert(content_hash(text), 0usize),
                }
            } else {
                LayerModel::empty()
            },
{
    let index = IndexModel::empty();
    let seeds = index.layers[height as int].locate(index.entry(text));
    assert(stacked(index, height + 1));
    lemma_insert_at(index, text, height);
    lemma_cascade(index, text, height + 1, seeds);
    let single = LayerModel::empty().push(text);
    assert(single.items =~= seq![text]);
    assert(single.links =~= seq![Seq::empty()]);
}

} // verus!
