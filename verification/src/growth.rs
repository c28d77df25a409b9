//! What an insertion keeps and what it adds.

use vstd::prelude::*;
use crate::height::LAYERS;
use crate::index::{width, IndexModel, BOTTOM_WIDTH};
use crate::model::{content_hash, knows, Hit, LayerModel};
use crate::walk::{complete, lemma_search, lemma_search_complete, plain};

verus! {

/// Laying edges from one position to a list of hits keeps the layer well
/// formed, its texts and its index; no edge is lost, and the position and
/// each of the hits become neighbors.
pub proof fn lemma_link_upto(m: LayerModel, p: usize, hits: Seq<Hit>, n: nat)
    requires
        m.wf(),
        p < m.items.len(),
        n <= hits.len(),
        forall|i: int| 0 <= i < hits.len() ==> (#[trigger] hits[i]).pos < m.items.len(),
    ensures
        m.link_upto(p, hits, n).wf(),
        m.link_upto(p, hits, n).items == m.items,
        m.link_upto(p, hits, n).index == m.index,
        forall|q: int, x: usize|
            0 <= q < m.links.len() && #[trigger] m.links[q].contains(x) ==> m.link_upto(
                p,
                hits,
                n,
            ).links[q].contains(x),
        forall|q: int|
            0 <= q < m.links.len() && q != p && !(exists|j: int|
                0 <= j < n && (#[trigger] hits[j]).pos == q) ==> #[trigger] m.link_upto(
                p,
                hits,
                n,
            ).links[q] == m.links[q],
        forall|j: int|
            0 <= j < n ==> m.link_upto(p, hits, n).links[p as int].contains(
                (#[trigger] hits[j]).pos,
            ) && m.link_upto(p, hits, n).links[hits[j].pos as int].contains(p),
    decreases n,
{
    if n > 0 {
        let prior = m.link_upto(p, hits, (n - 1) as nat);
        let after = m.link_upto(p, hits, n);
        let b = hits[n - 1].pos;
        lemma_link_upto(m, p, hits, (n - 1) as nat);
        prior.lemma_link_wf(p, b);
        let first = prior.links.update(p as int, prior.links[p as int].push(b));
        assert forall|q: int, x: usize|
            0 <= q < prior.links.len() && #[trigger] prior.links[q].contains(x) implies after.links[q].contains(
            x,
        ) by {
            let i = choose|i: int| 0 <= i < prior.links[q].len() && prior.links[q][i] == x;
            assert(first[q][i] == x);
            assert(after.links[q][i] == x);
        }
        assert(first[p as int][prior.links[p as int].len() as int] == b);
        assert(after.links[p as int][prior.links[p as int].len() as int] == b);
        assert(after.links[b as int][first[b as int].len() as int] == p);
        assert forall|q: int|
            0 <= q < m.links.len() && q != p && !(exists|j: int|
                0 <= j < n && (#[trigger] hits[j]).pos == q) implies #[trigger] after.links[q]
            == m.links[q] by {
            assert(hits[n - 1].pos != q);
            assert(!(exists|j: int| 0 <= j < n - 1 && (#[trigger] hits[j]).pos == q)) by {
                if exists|j: int| 0 <= j < n - 1 && (#[trigger] hits[j]).pos == q {
                    let j = choose|j: int| 0 <= j < n - 1 && (#[trigger] hits[j]).pos == q;
                    assert(0 <= j < n && hits[j].pos == q);
                }
            }
            assert(prior.links[q] == m.links[q]);
        }
    }
}

/// Inserting a text keeps a layer well formed: the text is appended, the
/// index points to it, and every text stored before keeps its neighbors.
pub proof fn lemma_insert(m: LayerModel, text: Seq<char>, seeds: Seq<usize>, k: nat)
    requires
        m.wf(),
        m.items.len() < usize::MAX,
    ensures
        m.insert(text, seeds, k).wf(),
        m.insert(text, seeds, k).items == m.items.push(text),
        m.insert(text, seeds, k).index == m.index.insert(
            content_hash(text),
            m.items.len() as usize,
        ),
        forall|q: int, x: usize|
            0 <= q < m.links.len() && #[trigger] m.links[q].contains(x) ==> m.insert(
                text,
                seeds,
                k,
            ).links[q].contains(x),
{
    let hits = m.search(text, seeds, k);
    let grown = m.push(text);
    lemma_search(m, text, seeds, k);
    m.lemma_push_wf(text);
    lemma_link_upto(grown, m.items.len() as usize, hits, hits.len());
    assert forall|q: int, x: usize|
        0 <= q < m.links.len() && #[trigger] m.links[q].contains(x) implies m.insert(
        text,
        seeds,
        k,
    ).links[q].contains(x) by {
        assert(grown.links[q] == m.links[q]);
    }
}

/// On a layer in which every two positions are neighbors and no two texts
/// share a hash, inserting a text with a new hash keeps both, if the layer
/// has no more texts than the insertion lays edges and the search starts in
/// the layer.
pub proof fn lemma_insert_complete(m: LayerModel, text: Seq<char>, seeds: Seq<usize>, k: nat)
    requires
        m.wf(),
        plain(m),
        complete(m),
        m.items.len() <= k,
        m.items.len() < usize::MAX,
        !m.index.contains_key(content_hash(text)),
        forall|j: int| 0 <= j < seeds.len() ==> #[trigger] seeds[j] < m.items.len(),
    ensures
        plain(m.insert(text, seeds, k)),
        complete(m.insert(text, seeds, k)),
{
    let n = m.items.len();
    let hits = m.search(text, seeds, k);
    let grown = m.push(text);
    let after = m.insert(text, seeds, k);
    lemma_search(m, text, seeds, k);
    lemma_search_complete(m, text, seeds, k);
    m.lemma_push_wf(text);
    lemma_link_upto(grown, n as usize, hits, hits.len());
    lemma_insert(m, text, seeds, k);
    assert forall|p: usize| p < after.items.len() implies after.canon(p) == p by {
        if p < n {
            assert(m.canon(p) == p);
            assert(m.index.contains_key(content_hash(m.items[p as int])));
        }
    }
    assert forall|p: int, q: usize|
        0 <= p < after.items.len() && q < after.items.len() && p != q implies #[trigger] after.links[p].contains(
        q,
    ) by {
        if p < n && q < n {
            assert(m.links[p].contains(q));
        } else if p == n {
            assert(knows(hits, q));
            let j = choose|j: int| 0 <= j < hits.len() && #[trigger] hits[j].pos == q;
        } else {
            assert(knows(hits, p as usize));
            let j = choose|j: int| 0 <= j < hits.len() && #[trigger] hits[j].pos == p as usize;
        }
    }
}

/// The positions that a well-formed layer gives for texts lie in the layer.
pub proof fn lemma_locate(m: LayerModel, entries: Seq<(Seq<char>, usize)>, n: nat)
    requires
        m.wf(),
        n <= entries.len(),
    ensures
        forall|j: int|
            0 <= j < m.locate_upto(entries, n).len() ==> #[trigger] m.locate_upto(entries, n)[j]
                < m.items.len(),
    decreases n,
{
    if n > 0 {
        lemma_locate(m, entries, (n - 1) as nat);
        let prior = m.locate_upto(entries, (n - 1) as nat);
        let h = content_hash(entries[n - 1].0);
        if m.index.contains_key(h) {
            assert(m.locate_upto(entries, n) == prior.push(m.index[h]));
        }
    }
}

/// The position that a layer gives for an entry's text is among those that
/// it gives for the entries.
pub proof fn lemma_locate_holds(m: LayerModel, entries: Seq<(Seq<char>, usize)>, n: nat, j: int)
    requires
        0 <= j < n <= entries.len(),
        m.lookup(entries[j].0) is Some,
    ensures
        m.locate_upto(entries, n).contains(m.lookup(entries[j].0)->0),
    decreases n,
{
    let prior = m.locate_upto(entries, (n - 1) as nat);
    let after = m.locate_upto(entries, n);
    if j < n - 1 {
        lemma_locate_holds(m, entries, (n - 1) as nat, j);
        let v = m.lookup(entries[j].0)->0;
        let i = choose|i: int| 0 <= i < prior.len() && prior[i] == v;
        match m.lookup(entries[n - 1].0) {
            Some(p) => {
                assert(after[i] == v);
            },
            None => {},
        }
    } else {
        assert(after[prior.len() as int] == m.lookup(entries[j].0)->0);
    }
}

/// Whether an index has ten well-formed layers, the lowest `count` of them
/// with room for one text more.
pub open spec fn stacked(index: IndexModel, count: nat) -> bool {
    &&& index.layers.len() == LAYERS
    &&& forall|i: int| 0 <= i < LAYERS ==> (#[trigger] index.layers[i]).wf()
    &&& forall|i: int| 0 <= i < count ==> (#[trigger] index.layers[i]).items.len() < usize::MAX
}

/// A cascade appends the text to each layer that it passes, keeps each layer
/// well formed, and leaves the layers above untouched.
pub proof fn lemma_cascade(index: IndexModel, text: Seq<char>, count: nat, seeds: Seq<usize>)
    requires
        stacked(index, count),
        count <= LAYERS,
    ensures
        index.cascade(text, count, seeds).layers.len() == LAYERS,
        forall|i: int|
            0 <= i < LAYERS ==> (#[trigger] index.cascade(text, count, seeds).layers[i]).wf(),
        forall|i: int|
            0 <= i < count ==> (#[trigger] index.cascade(text, count, seeds).layers[i]).items
                == index.layers[i].items.push(text),
        forall|i: int|
            count <= i < LAYERS ==> #[trigger] index.cascade(text, count, seeds).layers[i]
                == index.layers[i],
        forall|i: int|
            0 <= i < count ==> (#[trigger] index.cascade(text, count, seeds).layers[i]).index
                == index.layers[i].index.insert(
                content_hash(text),
                index.layers[i].items.len() as usize,
            ),
        forall|i: int|
            0 <= i < count && index.layers[i].items.len() == 0 ==> (#[trigger] index.cascade(
                text,
                count,
                seeds,
            ).layers[i]) == LayerModel::empty().push(text),
    decreases count,
{
    if count > 0 {
        let i = (count - 1) as nat;
        let layer = index.layers[i as int];
        let hits = layer.search(text, seeds, width(i));
        let grown = layer.insert(text, seeds, width(i));
        let next = IndexModel { layers: index.layers.update(i as int, grown) };
        let below = if i == 0 {
            Seq::empty()
        } else {
            index.layers[i - 1].locate(grown.describe(hits))
        };
        lemma_insert(layer, text, seeds, width(i));
        assert forall|j: int| 0 <= j < LAYERS implies (#[trigger] next.layers[j]).wf() by {
            if j != i {
                assert(next.layers[j] == index.layers[j]);
            }
        }
        assert forall|j: int| 0 <= j < i implies (#[trigger] next.layers[j]).items.len()
            < usize::MAX by {
            assert(next.layers[j] == index.layers[j]);
        }
        lemma_cascade(next, text, i, below);
        let end = index.cascade(text, count, seeds);
        assert forall|j: int| 0 <= j < count implies (#[trigger] end.layers[j]).items
            == index.layers[j].items.push(text) by {
            if j < i {
                assert(next.layers[j] == index.layers[j]);
            }
        }
        assert forall|j: int| count <= j < LAYERS implies #[trigger] end.layers[j]
            == index.layers[j] by {
            assert(next.layers[j] == index.layers[j]);
        }
        assert forall|j: int| 0 <= j < count implies (#[trigger] end.layers[j]).index
            == index.layers[j].index.insert(
            content_hash(text),
            index.layers[j].items.len() as usize,
        ) by {
            if j < i {
                assert(next.layers[j] == index.layers[j]);
            }
        }
        assert forall|j: int|
            0 <= j < count && index.layers[j].items.len() == 0 implies (#[trigger] end.layers[j])
            == LayerModel::empty().push(text) by {
            if j < i {
                assert(next.layers[j] == index.layers[j]);
            } else {
                lemma_search(layer, text, seeds, width(i));
                assert(layer.items =~= Seq::empty());
                assert(layer.links =~= Seq::empty());
                assert(layer.index =~= Map::empty()) by {
                    assert forall|h: u64| !layer.index.contains_key(h) by {
                        if layer.index.contains_key(h) {
                            assert(layer.index[h] < layer.items.len());
                        }
                    }
                }
                assert(layer == LayerModel::empty());
            }
        }
    }
}

/// Inserting a text keeps an index well formed: the text is appended to the
/// layer at which the insertion starts and to every layer below, the bottom
/// layer among them, and no other layer changes.
pub proof fn lemma_insert_at(index: IndexModel, text: Seq<char>, height: nat)
    requires
        index.wf(),
        stacked(index, height + 1),
        height < LAYERS,
    ensures
        index.insert_at(text, height).wf(),
        forall|i: int|
            0 <= i <= height ==> (#[trigger] index.insert_at(text, height).layers[i]).items
                == index.layers[i].items.push(text),
        forall|i: int|
            height < i < LAYERS ==> #[trigger] index.insert_at(text, height).layers[i]
                == index.layers[i],
        forall|i: int|
            0 <= i <= height ==> (#[trigger] index.insert_at(text, height).layers[i]).lookup(text)
                == Some(index.layers[i].items.len() as usize),
{
    let seeds = index.layers[height as int].locate(index.entry(text));
    let after = index.insert_at(text, height);
    lemma_cascade(index, text, height + 1, seeds);
    assert forall|i: int, p: int|
        1 <= i < LAYERS && 0 <= p < after.layers[i].items.len() implies after.layers[i
        - 1].items.contains(#[trigger] after.layers[i].items[p]) by {
        let below = index.layers[i - 1].items;
        assert(after.layers[i - 1].items == if i - 1 <= height {
            below.push(text)
        } else {
            below
        });
        if i <= height {
            assert(after.layers[i].items == index.layers[i].items.push(text));
            if p < index.layers[i].items.len() {
                let t = index.layers[i].items[p];
                assert(below.contains(t));
                let q = choose|q: int| 0 <= q < below.len() && below[q] == t;
                assert(below.push(text)[q] == t);
            } else {
                assert(below.push(text)[below.len() as int] == text);
            }
        } else {
            assert(after.layers[i] == index.layers[i]);
            let t = index.layers[i].items[p];
            assert(below.contains(t));
            let q = choose|q: int| 0 <= q < below.len() && below[q] == t;
            assert(after.layers[i - 1].items[q] == t);
        }
    }
}

/// Where every two texts of the bottom layer are neighbors and no two
/// share a hash, a cascade that brings a text with a new hash keeps both, as
/// long as the bottom layer has no more texts than an insertion lays edges
/// there.
pub proof fn lemma_cascade_complete(
    index: IndexModel,
    text: Seq<char>,
    count: nat,
    seeds: Seq<usize>,
)
    requires
        stacked(index, count),
        1 <= count <= LAYERS,
        plain(index.layers[0]),
        complete(index.layers[0]),
        index.layers[0].items.len() <= BOTTOM_WIDTH,
        !index.layers[0].index.contains_key(content_hash(text)),
        count == 1 ==> forall|j: int|
            0 <= j < seeds.len() ==> #[trigger] seeds[j] < index.layers[0].items.len(),
    ensures
        plain(index.cascade(text, count, seeds).layers[0]),
        complete(index.cascade(text, count, seeds).layers[0]),
    decreases count,
{
    let i = (count - 1) as nat;
    let layer = index.layers[i as int];
    let hits = layer.search(text, seeds, width(i));
    let grown = layer.insert(text, seeds, width(i));
    let next = IndexModel { layers: index.layers.update(i as int, grown) };
    lemma_insert(layer, text, seeds, width(i));
    if i == 0 {
        lemma_insert_complete(layer, text, seeds, width(0));
        assert(next.cascade(text, 0, Seq::empty()) == next);
    } else {
        let found = grown.describe(hits);
        let below = index.layers[i - 1].locate(found);
        lemma_locate(index.layers[i - 1], found, found.len());
        assert forall|j: int| 0 <= j < LAYERS implies (#[trigger] next.layers[j]).wf() by {
            if j != i {
                assert(next.layers[j] == index.layers[j]);
            }
        }
        assert forall|j: int| 0 <= j < i implies (#[trigger] next.layers[j]).items.len()
            < usize::MAX by {
            assert(next.layers[j] == index.layers[j]);
        }
        assert(next.layers[0] == index.layers[0]);
        lemma_cascade_complete(next, text, i, below);
    }
}

} // verus!
