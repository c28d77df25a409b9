//! What holds of every greedy walk.

use vstd::prelude::*;
use crate::metric::text_distance;
use crate::model::{
    before, knows, least, least_index, lemma_least, lemma_least_upto, Hit, LayerModel, Walk,
};

verus! {

/// Every hit lies at a position of the layer and carries the distance
/// between the query and the text at that position.
pub open spec fn sound(m: LayerModel, query: Seq<char>, s: Seq<Hit>) -> bool {
    forall|i: int|
        0 <= i < s.len() ==> (#[trigger] s[i]).pos < m.items.len() && s[i].dist == text_distance(
            query,
            m.items[s[i].pos as int],
        )
}

/// No two hits lie at the same position.
pub open spec fn distinct(s: Seq<Hit>) -> bool {
    forall|i: int, j: int| 0 <= i < j < s.len() ==> (#[trigger] s[i]).pos != (#[trigger] s[j]).pos
}

/// `b` begins with `a`.
pub open spec fn extends(a: Seq<Hit>, b: Seq<Hit>) -> bool {
    a.len() <= b.len() && forall|i: int| 0 <= i < a.len() ==> #[trigger] a[i] == b[i]
}

/// The state of a walk is in order: what was measured is sound and holds
/// each position once, each position stands for itself in the index, and
/// what waits was measured.
pub open spec fn steady(m: LayerModel, query: Seq<char>, walk: Walk) -> bool {
    &&& sound(m, query, walk.seen)
    &&& forall|i: int|
        0 <= i < walk.seen.len() ==> m.canon((#[trigger] walk.seen[i]).pos) == walk.seen[i].pos
    &&& distinct(walk.seen)
    &&& sound(m, query, walk.frontier)
    &&& walk.frontier.len() <= walk.seen.len()
    &&& forall|i: int|
        0 <= i < walk.frontier.len() ==> knows(walk.seen, (#[trigger] walk.frontier[i]).pos)
}

/// How many measured texts no longer wait.
pub open spec fn settled(walk: Walk) -> int {
    walk.seen.len() - walk.frontier.len()
}

/// A position that a walk knows stays known as the walk goes on.
pub proof fn lemma_knows_extends(a: Seq<Hit>, b: Seq<Hit>, p: usize)
    requires
        extends(a, b),
        knows(a, p),
    ensures
        knows(b, p),
{
    let i = choose|i: int| 0 <= i < a.len() && #[trigger] a[i].pos == p;
    assert(a[i] == b[i]);
    assert(b[i].pos == p);
}

/// Meeting a position keeps a walk in order, forgets nothing, settles
/// nothing less, and leaves the position known if it lies in the layer.
pub proof fn lemma_visit(
    m: LayerModel,
    query: Seq<char>,
    walk: Walk,
    p: usize,
    bound: Option<usize>,
)
    requires
        m.wf(),
        steady(m, query, walk),
    ensures
        steady(m, query, m.visit(query, walk, p, bound)),
        extends(walk.seen, m.visit(query, walk, p, bound).seen),
        settled(walk) <= settled(m.visit(query, walk, p, bound)),
        extends(walk.frontier, m.visit(query, walk, p, bound).frontier),
        bound is None && walk.frontier == walk.seen ==> m.visit(query, walk, p, bound).frontier
            == m.visit(query, walk, p, bound).seen,
        p < m.items.len() ==> knows(m.visit(query, walk, p, bound).seen, m.canon(p)),
        bound is None && p < m.items.len() ==> m.visit(query, walk, p, bound).seen.len() > 0
            && settled(m.visit(query, walk, p, bound)) == settled(walk),
{
    let after = m.visit(query, walk, p, bound);
    if p < m.items.len() {
        let c = m.canon(p);
        assert(m.index.contains_key(crate::model::content_hash(m.items[p as int])));
        assert(c < m.items.len());
        if knows(walk.seen, c) {
            let i = choose|i: int| 0 <= i < walk.seen.len() && #[trigger] walk.seen[i].pos == c;
        } else {
            let hit = Hit { pos: c, dist: text_distance(query, m.items[c as int]) };
            assert(after.seen == walk.seen.push(hit));
            assert(after.seen[walk.seen.len() as int].pos == c);
            assert forall|i: int, j: int| 0 <= i < j < after.seen.len() implies (
            #[trigger] after.seen[i]).pos != (#[trigger] after.seen[j]).pos by {
                if j == walk.seen.len() {
                    assert(walk.seen[i].pos != c);
                }
            }
            assert forall|i: int| 0 <= i < after.frontier.len() implies knows(
                after.seen,
                (#[trigger] after.frontier[i]).pos,
            ) by {
                if i < walk.frontier.len() {
                    lemma_knows_extends(walk.seen, after.seen, walk.frontier[i].pos);
                }
            }
        }
    }
}

/// Meeting a list of positions keeps a walk in order, forgets nothing,
/// settles nothing less, and leaves every position of the list known that
/// lies in the layer.
pub proof fn lemma_visit_upto(
    m: LayerModel,
    query: Seq<char>,
    walk: Walk,
    list: Seq<usize>,
    n: nat,
    bound: Option<usize>,
)
    requires
        m.wf(),
        steady(m, query, walk),
        n <= list.len(),
    ensures
        steady(m, query, m.visit_upto(query, walk, list, n, bound)),
        extends(walk.seen, m.visit_upto(query, walk, list, n, bound).seen),
        settled(walk) <= settled(m.visit_upto(query, walk, list, n, bound)),
        extends(walk.frontier, m.visit_upto(query, walk, list, n, bound).frontier),
        bound is None && walk.frontier == walk.seen ==> m.visit_upto(
            query,
            walk,
            list,
            n,
            bound,
        ).frontier == m.visit_upto(query, walk, list, n, bound).seen,
        forall|j: int|
            0 <= j < n && list[j] < m.items.len() ==> knows(
                m.visit_upto(query, walk, list, n, bound).seen,
                m.canon(#[trigger] list[j]),
            ),
        bound is None ==> settled(m.visit_upto(query, walk, list, n, bound)) == settled(walk),
        bound is None && (exists|j: int| 0 <= j < n && #[trigger] list[j] < m.items.len())
            ==> m.visit_upto(query, walk, list, n, bound).seen.len() > 0,
    decreases n,
{
    if n > 0 {
        let prior = m.visit_upto(query, walk, list, (n - 1) as nat, bound);
        let after = m.visit_upto(query, walk, list, n, bound);
        lemma_visit_upto(m, query, walk, list, (n - 1) as nat, bound);
        lemma_visit(m, query, prior, list[n - 1], bound);
        assert forall|j: int| 0 <= j < n && list[j] < m.items.len() implies knows(
            after.seen,
            m.canon(#[trigger] list[j]),
        ) by {
            if j < n - 1 {
                lemma_knows_extends(prior.seen, after.seen, m.canon(list[j]));
            }
        }
        if bound is None && (exists|j: int| 0 <= j < n && #[trigger] list[j] < m.items.len()) {
            let j = choose|j: int| 0 <= j < n && #[trigger] list[j] < m.items.len();
            if j < n - 1 {
                assert(prior.seen.len() > 0);
            }
        }
    }
}

/// Expanding the least waiting hit keeps a walk in order and forgets
/// nothing; it settles one text more, and afterwards every neighbor of the
/// hit is known.
pub proof fn lemma_expand(m: LayerModel, query: Seq<char>, walk: Walk)
    requires
        m.wf(),
        steady(m, query, walk),
        walk.frontier.len() > 0,
    ensures
        steady(m, query, m.expand(query, walk)),
        extends(walk.seen, m.expand(query, walk).seen),
        settled(walk) < settled(m.expand(query, walk)),
        ({
            let hit = walk.frontier[least_index(walk.frontier)];
            &&& hit.pos < m.items.len()
            &&& knows(walk.seen, hit.pos)
            &&& forall|j: int|
                0 <= j < m.links[hit.pos as int].len() ==> knows(
                    m.expand(query, walk).seen,
                    m.canon(#[trigger] m.links[hit.pos as int][j]),
                )
        }),
{
    let i = least_index(walk.frontier);
    lemma_least_upto(walk.frontier, walk.frontier.len());
    let hit = walk.frontier[i];
    let near = m.links[hit.pos as int];
    let popped = Walk { seen: walk.seen, frontier: walk.frontier.remove(i) };
    assert forall|r: int| 0 <= r < popped.frontier.len() implies knows(
        popped.seen,
        (#[trigger] popped.frontier[r]).pos,
    ) && popped.frontier[r].pos < m.items.len() && popped.frontier[r].dist == text_distance(
        query,
        m.items[popped.frontier[r].pos as int],
    ) by {
        if r < i {
            assert(popped.frontier[r] == walk.frontier[r]);
        } else {
            assert(popped.frontier[r] == walk.frontier[r + 1]);
        }
    }
    lemma_visit_upto(m, query, popped, near, near.len(), Some(hit.dist));
}

/// Running a walk keeps it in order and forgets nothing. With fuel for each
/// text that is not settled yet, nothing waits at the end.
pub proof fn lemma_run(m: LayerModel, query: Seq<char>, walk: Walk, fuel: nat)
    requires
        m.wf(),
        steady(m, query, walk),
    ensures
        steady(m, query, m.run(query, walk, fuel)),
        extends(walk.seen, m.run(query, walk, fuel).seen),
        fuel > 0 && walk.frontier.len() > 0 ==> extends(
            m.expand(query, walk).seen,
            m.run(query, walk, fuel).seen,
        ),
        fuel + settled(walk) >= m.items.len() ==> m.run(query, walk, fuel).frontier.len() == 0,
    decreases fuel,
{
    if fuel == 0 || walk.frontier.len() == 0 {
        if walk.frontier.len() > 0 {
            lemma_count(walk.seen, m.items.len());
        }
    } else {
        let next = m.expand(query, walk);
        lemma_expand(m, query, walk);
        lemma_run(m, query, next, (fuel - 1) as nat);
    }
}

/// Hits at pairwise different positions below `n` are `n` at most.
pub proof fn lemma_count(s: Seq<Hit>, n: nat)
    requires
        distinct(s),
        forall|i: int| 0 <= i < s.len() ==> (#[trigger] s[i]).pos < n,
    ensures
        s.len() <= n,
    decreases n,
{
    if s.len() > 0 {
        if n == 0 {
            assert(s[0].pos < n);
        } else {
            let top = (n - 1) as usize;
            if knows(s, top) {
                let i = choose|i: int| 0 <= i < s.len() && #[trigger] s[i].pos == top;
                let rest = s.remove(i);
                assert forall|a: int, b: int| 0 <= a < b < rest.len() implies (
                #[trigger] rest[a]).pos != (#[trigger] rest[b]).pos by {
                    let a0 = if a < i { a } else { a + 1 };
                    let b0 = if b < i { b } else { b + 1 };
                    assert(rest[a] == s[a0] && rest[b] == s[b0]);
                }
                assert forall|a: int| 0 <= a < rest.len() implies (#[trigger] rest[a]).pos < n
                    - 1 by {
                    let a0 = if a < i { a } else { a + 1 };
                    assert(rest[a] == s[a0]);
                    if a0 < i {
                        assert(s[a0].pos != s[i].pos);
                    } else {
                        assert(s[i].pos != s[a0].pos);
                    }
                }
                lemma_count(rest, (n - 1) as nat);
            } else {
                assert forall|a: int| 0 <= a < s.len() implies (#[trigger] s[a]).pos < n - 1 by {
                    if s[a].pos == top {
                        assert(knows(s, top));
                    }
                }
                lemma_count(s, (n - 1) as nat);
            }
        }
    }
}

/// Hits that hold every position below `n` are `n` at least.
pub proof fn lemma_fill(s: Seq<Hit>, n: nat)
    requires
        covers(s, n),
        n <= usize::MAX,
    ensures
        s.len() >= n,
    decreases n,
{
    if n > 0 {
        let top = (n - 1) as usize;
        assert(knows(s, top));
        let i = choose|i: int| 0 <= i < s.len() && #[trigger] s[i].pos == top;
        let rest = s.remove(i);
        assert forall|p: usize| p < n - 1 implies knows(rest, p) by {
            assert(knows(s, p));
            let j = choose|j: int| 0 <= j < s.len() && #[trigger] s[j].pos == p;
            if j < i {
                assert(rest[j].pos == p);
            } else {
                assert(rest[j - 1].pos == p);
            }
        }
        lemma_fill(rest, (n - 1) as nat);
    }
}

/// Whether the hits hold every position below `n`.
pub open spec fn covers(s: Seq<Hit>, n: nat) -> bool {
    forall|p: usize| p < n ==> knows(s, p)
}

/// The least hits of a list without repeated positions repeat none; and
/// where as many are asked as the list has, none is left out.
pub proof fn lemma_least_keeps(s: Seq<Hit>, k: nat)
    requires
        distinct(s),
    ensures
        distinct(least(s, k)),
        k >= s.len() ==> forall|i: int| 0 <= i < s.len() ==> least(s, k).contains(#[trigger] s[i]),
    decreases k,
{
    if k == 0 || s.len() == 0 {
    } else {
        let m = least_index(s);
        lemma_least_upto(s, s.len());
        let rest = s.remove(m);
        let tail = least(rest, (k - 1) as nat);
        let all = least(s, k);
        assert forall|a: int, b: int| 0 <= a < b < rest.len() implies (#[trigger] rest[a]).pos != (
        #[trigger] rest[b]).pos by {
            let a0 = if a < m { a } else { a + 1 };
            let b0 = if b < m { b } else { b + 1 };
            assert(rest[a] == s[a0] && rest[b] == s[b0]);
        }
        lemma_least_keeps(rest, (k - 1) as nat);
        lemma_least(rest, (k - 1) as nat);
        assert(all =~= seq![s[m]] + tail);
        assert forall|a: int, b: int| 0 <= a < b < all.len() implies (#[trigger] all[a]).pos != (
        #[trigger] all[b]).pos by {
            assert(all[b] == tail[b - 1]);
            if a == 0 {
                assert(rest.contains(tail[b - 1]));
                let r = choose|r: int| 0 <= r < rest.len() && rest[r] == tail[b - 1];
                let r0 = if r < m { r } else { r + 1 };
                assert(rest[r] == s[r0]);
                if r0 < m {
                    assert(s[r0].pos != s[m].pos);
                } else {
                    assert(s[m].pos != s[r0].pos);
                }
            } else {
                assert(all[a] == tail[a - 1]);
            }
        }
        if k >= s.len() {
            assert forall|i: int| 0 <= i < s.len() implies all.contains(#[trigger] s[i]) by {
                if i == m {
                    assert(all[0] == s[i]);
                } else {
                    let r = if i < m { i } else { i - 1 };
                    assert(rest[r] == s[i]);
                    assert(tail.contains(rest[r]));
                    let t = choose|t: int| 0 <= t < tail.len() && tail[t] == rest[r];
                    assert(all[t + 1] == s[i]);
                }
            }
        }
    }
}

/// A hit that is not among the least hits of its list comes before none of
/// them.
pub proof fn lemma_least_first(s: Seq<Hit>, k: nat, x: int)
    requires
        distinct(s),
        0 <= x < s.len(),
        !least(s, k).contains(s[x]),
    ensures
        forall|i: int| 0 <= i < least(s, k).len() ==> !before(s[x], #[trigger] least(s, k)[i]),
    decreases k,
{
    if k == 0 || s.len() == 0 {
    } else {
        let m = least_index(s);
        lemma_least_upto(s, s.len());
        let rest = s.remove(m);
        let tail = least(rest, (k - 1) as nat);
        let all = least(s, k);
        assert(all =~= seq![s[m]] + tail);
        assert(all[0] == s[m]);
        assert(x != m);
        let y = if x < m { x } else { x - 1 };
        assert(rest[y] == s[x]);
        assert forall|a: int, b: int| 0 <= a < b < rest.len() implies (#[trigger] rest[a]).pos != (
        #[trigger] rest[b]).pos by {
            let a0 = if a < m { a } else { a + 1 };
            let b0 = if b < m { b } else { b + 1 };
            assert(rest[a] == s[a0] && rest[b] == s[b0]);
        }
        if tail.contains(rest[y]) {
            let t = choose|t: int| 0 <= t < tail.len() && tail[t] == rest[y];
            assert(all[t + 1] == s[x]);
        }
        lemma_least_first(rest, (k - 1) as nat, y);
        assert forall|i: int| 0 <= i < all.len() implies !before(s[x], #[trigger] all[i]) by {
            if i > 0 {
                assert(all[i] == tail[i - 1]);
            }
        }
    }
}

/// A walk at its start is in order and has settled nothing. It has
/// measured a text if the layer holds one and either no seed is given or a
/// seed lies in the layer.
pub proof fn lemma_seed(m: LayerModel, query: Seq<char>, seeds: Seq<usize>)
    requires
        m.wf(),
    ensures
        steady(m, query, m.seed(query, seeds)),
        settled(m.seed(query, seeds)) == 0,
        m.items.len() > 0 && (seeds.len() == 0 || exists|j: int|
            0 <= j < seeds.len() && #[trigger] seeds[j] < m.items.len()) ==> m.seed(
            query,
            seeds,
        ).frontier.len() > 0,
{
    let start = Walk { seen: Seq::empty(), frontier: Seq::empty() };
    let from = if seeds.len() == 0 {
        m.positions()
    } else {
        seeds
    };
    lemma_visit_upto(m, query, start, from, from.len(), None);
    if m.items.len() > 0 && seeds.len() == 0 {
        assert(from[0] < m.items.len());
    }
}

/// What a greedy search hands back is sound, holds no position twice,
/// ascends, and has `k` hits at most. The walk behind it ends with nothing
/// waiting: the bound of one expansion for each stored text never cuts it
/// short.
pub proof fn lemma_search(m: LayerModel, query: Seq<char>, seeds: Seq<usize>, k: nat)
    requires
        m.wf(),
    ensures
        sound(m, query, m.search(query, seeds, k)),
        distinct(m.search(query, seeds, k)),
        m.search(query, seeds, k).len() <= k,
        m.search(query, seeds, k).len() <= m.items.len(),
        forall|i: int, j: int|
            0 <= i <= j < m.search(query, seeds, k).len() ==> (#[trigger] m.search(
                query,
                seeds,
                k,
            )[i]).dist <= (#[trigger] m.search(query, seeds, k)[j]).dist,
        m.run(query, m.seed(query, seeds), m.items.len()).frontier.len() == 0,
{
    let start = m.seed(query, seeds);
    lemma_seed(m, query, seeds);
    let end = m.run(query, start, m.items.len());
    lemma_run(m, query, start, m.items.len());
    let found = least(end.seen, k);
    lemma_least(end.seen, k);
    lemma_least_keeps(end.seen, k);
    assert forall|i: int| 0 <= i < found.len() implies (#[trigger] found[i]).pos < m.items.len()
        && found[i].dist == text_distance(query, m.items[found[i].pos as int]) by {
        assert(end.seen.contains(found[i]));
    }
    lemma_count(found, m.items.len());
    assert forall|i: int, j: int| 0 <= i <= j < found.len() implies (#[trigger] found[i]).dist <= (
    #[trigger] found[j]).dist by {
        assert(!before(found[j], found[i]));
    }
}

/// A search hands back first the one text at distance zero from the query,
/// if the walk has measured it at its start: a position that stands for every
/// position whose text is at distance zero.
pub proof fn lemma_search_finds(
    m: LayerModel,
    query: Seq<char>,
    seeds: Seq<usize>,
    k: nat,
    c: usize,
)
    requires
        m.wf(),
        k >= 1,
        c < m.items.len(),
        text_distance(query, m.items[c as int]) == 0,
        forall|r: usize|
            r < m.items.len() && text_distance(query, m.items[r as int]) == 0 ==> #[trigger] m.canon(
                r,
            ) == c,
        knows(m.seed(query, seeds).seen, c),
    ensures
        m.search(query, seeds, k).len() >= 1,
        m.search(query, seeds, k)[0] == (Hit { pos: c, dist: 0 }),
{
    let start = m.seed(query, seeds);
    let end = m.run(query, start, m.items.len());
    lemma_seed(m, query, seeds);
    lemma_run(m, query, start, m.items.len());
    lemma_knows_extends(start.seen, end.seen, c);
    let j = choose|j: int| 0 <= j < end.seen.len() && #[trigger] end.seen[j].pos == c;
    let least_one = least_index(end.seen);
    lemma_least_upto(end.seen, end.seen.len());
    let first = end.seen[least_one];
    assert(!before(end.seen[j], first));
    assert(first.dist == 0);
    assert(m.canon(first.pos) == c);
    assert(m.search(query, seeds, k) =~= seq![first] + least(
        end.seen.remove(least_one),
        (k - 1) as nat,
    ));
}

/// Whether position `c` has been served or still waits: it is in the
/// frontier, or each of its neighbors has been measured.
pub open spec fn served(m: LayerModel, walk: Walk, c: usize) -> bool {
    knows(walk.frontier, c) || forall|j: int|
        0 <= j < m.links[c as int].len() ==> knows(
            walk.seen,
            m.canon(#[trigger] m.links[c as int][j]),
        )
}

/// A walk with fuel for each text that is not settled serves every position
/// that waits: at its end each neighbor of such a position has been measured.
pub proof fn lemma_run_serves(m: LayerModel, query: Seq<char>, walk: Walk, fuel: nat, c: usize)
    requires
        m.wf(),
        steady(m, query, walk),
        c < m.items.len(),
        served(m, walk, c),
        fuel + settled(walk) >= m.items.len(),
    ensures
        forall|j: int|
            0 <= j < m.links[c as int].len() ==> knows(
                m.run(query, walk, fuel).seen,
                m.canon(#[trigger] m.links[c as int][j]),
            ),
    decreases fuel,
{
    if walk.frontier.len() == 0 {
        if knows(walk.frontier, c) {
            let i = choose|i: int| 0 <= i < walk.frontier.len() && #[trigger] walk.frontier[i].pos == c;
        }
    } else if fuel == 0 {
        lemma_count(walk.seen, m.items.len());
    } else {
        let next = m.expand(query, walk);
        let i = least_index(walk.frontier);
        lemma_least_upto(walk.frontier, walk.frontier.len());
        let hit = walk.frontier[i];
        let near = m.links[hit.pos as int];
        let popped = Walk { seen: walk.seen, frontier: walk.frontier.remove(i) };
        lemma_expand(m, query, walk);
        if hit.pos != c {
            if knows(walk.frontier, c) {
                let at = choose|at: int|
                    0 <= at < walk.frontier.len() && #[trigger] walk.frontier[at].pos == c;
                let moved = if at < i { at } else { at - 1 };
                assert(popped.frontier[moved] == walk.frontier[at]);
                assert forall|r: int| 0 <= r < popped.frontier.len() implies knows(
                    popped.seen,
                    (#[trigger] popped.frontier[r]).pos,
                ) && popped.frontier[r].pos < m.items.len() && popped.frontier[r].dist
                    == text_distance(query, m.items[popped.frontier[r].pos as int]) by {
                    if r < i {
                        assert(popped.frontier[r] == walk.frontier[r]);
                    } else {
                        assert(popped.frontier[r] == walk.frontier[r + 1]);
                    }
                }
                lemma_visit_upto(m, query, popped, near, near.len(), Some(hit.dist));
                assert(next.frontier[moved].pos == c);
            } else {
                assert forall|j: int| 0 <= j < m.links[c as int].len() implies knows(
                    next.seen,
                    m.canon(#[trigger] m.links[c as int][j]),
                ) by {
                    lemma_knows_extends(walk.seen, next.seen, m.canon(m.links[c as int][j]));
                }
            }
        }
        lemma_run_serves(m, query, next, (fuel - 1) as nat, c);
    }
}

/// A search measures every seed that lies in the layer and every neighbor
/// of such a seed; where it may hand back as many hits as the layer has
/// texts, it hands them back.
pub proof fn lemma_search_measures(
    m: LayerModel,
    query: Seq<char>,
    seeds: Seq<usize>,
    k: nat,
    s: int,
)
    requires
        m.wf(),
        0 <= s < seeds.len(),
        seeds[s] < m.items.len(),
    ensures
        knows(m.run(query, m.seed(query, seeds), m.items.len()).seen, m.canon(seeds[s])),
        forall|j: int|
            0 <= j < m.links[m.canon(seeds[s]) as int].len() ==> knows(
                m.run(query, m.seed(query, seeds), m.items.len()).seen,
                m.canon(#[trigger] m.links[m.canon(seeds[s]) as int][j]),
            ),
        m.items.len() <= k ==> knows(m.search(query, seeds, k), m.canon(seeds[s])),
        m.items.len() <= k ==> forall|j: int|
            0 <= j < m.links[m.canon(seeds[s]) as int].len() ==> knows(
                m.search(query, seeds, k),
                m.canon(#[trigger] m.links[m.canon(seeds[s]) as int][j]),
            ),
{
    let none = Walk { seen: Seq::empty(), frontier: Seq::empty() };
    let start = m.seed(query, seeds);
    let end = m.run(query, start, m.items.len());
    let found = m.search(query, seeds, k);
    let c = m.canon(seeds[s]);
    assert(none.frontier == none.seen);
    lemma_visit_upto(m, query, none, seeds, seeds.len(), None);
    lemma_seed(m, query, seeds);
    assert(m.index.contains_key(crate::model::content_hash(m.items[seeds[s] as int])));
    assert(knows(start.frontier, c));
    lemma_run(m, query, start, m.items.len());
    lemma_knows_extends(start.seen, end.seen, c);
    lemma_run_serves(m, query, start, m.items.len(), c);
    if m.items.len() <= k {
        lemma_count(end.seen, m.items.len());
        lemma_least_keeps(end.seen, k);
        assert forall|p: usize| knows(end.seen, p) implies knows(found, p) by {
            let i = choose|i: int| 0 <= i < end.seen.len() && #[trigger] end.seen[i].pos == p;
            assert(found.contains(end.seen[i]));
            let t = choose|t: int| 0 <= t < found.len() && found[t] == end.seen[i];
            assert(found[t].pos == p);
        }
    }
}

/// Whether position `p` stands for a seed that lies in the layer.
pub open spec fn seeded(m: LayerModel, seeds: Seq<usize>, p: usize) -> bool {
    exists|j: int|
        0 <= j < seeds.len() && #[trigger] seeds[j] < m.items.len() && m.canon(seeds[j]) == p
}

/// Whether position `p` is joined to a seed by `steps` edges at most: it
/// stands for a seed, or for a neighbor of a position that is joined to a
/// seed by fewer edges.
pub open spec fn reach(m: LayerModel, seeds: Seq<usize>, p: usize, steps: nat) -> bool
    decreases steps,
{
    if steps == 0 {
        seeded(m, seeds, p)
    } else {
        seeded(m, seeds, p) || exists|q: usize, j: int|
            q < m.items.len() && 0 <= j < m.links[q as int].len() && reach(
                m,
                seeds,
                q,
                (steps - 1) as nat,
            ) && m.canon(#[trigger] m.links[q as int][j]) == p
    }
}

/// Whether position `p` is a seed or joined to a seed by edges.
pub open spec fn joined(m: LayerModel, seeds: Seq<usize>, p: usize) -> bool {
    exists|steps: nat| reach(m, seeds, p, steps)
}

/// Whether every hit lies at a position that is a seed or joined to one.
pub open spec fn all_joined(m: LayerModel, seeds: Seq<usize>, s: Seq<Hit>) -> bool {
    forall|i: int| 0 <= i < s.len() ==> joined(m, seeds, (#[trigger] s[i]).pos)
}

/// Meeting positions that are joined to a seed keeps every measured
/// position joined to a seed.
pub proof fn lemma_visit_upto_joined(
    m: LayerModel,
    query: Seq<char>,
    walk: Walk,
    list: Seq<usize>,
    n: nat,
    bound: Option<usize>,
    seeds: Seq<usize>,
)
    requires
        n <= list.len(),
        all_joined(m, seeds, walk.seen),
        forall|j: int|
            0 <= j < n && list[j] < m.items.len() ==> joined(m, seeds, m.canon(#[trigger] list[j])),
    ensures
        all_joined(m, seeds, m.visit_upto(query, walk, list, n, bound).seen),
    decreases n,
{
    if n > 0 {
        let prior = m.visit_upto(query, walk, list, (n - 1) as nat, bound);
        let after = m.visit(query, prior, list[n - 1], bound);
        lemma_visit_upto_joined(m, query, walk, list, (n - 1) as nat, bound, seeds);
        assert forall|i: int| 0 <= i < after.seen.len() implies joined(
            m,
            seeds,
            (#[trigger] after.seen[i]).pos,
        ) by {
            if i < prior.seen.len() {
                assert(after.seen[i] == prior.seen[i]);
            } else {
                assert(after.seen[i].pos == m.canon(list[n - 1]));
            }
        }
    }
}

/// Running a walk whose measured positions are joined to a seed keeps them
/// so.
pub proof fn lemma_run_joined(
    m: LayerModel,
    query: Seq<char>,
    walk: Walk,
    fuel: nat,
    seeds: Seq<usize>,
)
    requires
        m.wf(),
        steady(m, query, walk),
        all_joined(m, seeds, walk.seen),
    ensures
        all_joined(m, seeds, m.run(query, walk, fuel).seen),
    decreases fuel,
{
    if fuel > 0 && walk.frontier.len() > 0 {
        let i = least_index(walk.frontier);
        lemma_least_upto(walk.frontier, walk.frontier.len());
        let hit = walk.frontier[i];
        let near = m.links[hit.pos as int];
        let popped = Walk { seen: walk.seen, frontier: walk.frontier.remove(i) };
        assert(knows(walk.seen, hit.pos));
        let at = choose|at: int| 0 <= at < walk.seen.len() && #[trigger] walk.seen[at].pos == hit.pos;
        assert(joined(m, seeds, walk.seen[at].pos));
        let steps = choose|steps: nat| reach(m, seeds, hit.pos, steps);
        assert forall|j: int| 0 <= j < near.len() && near[j] < m.items.len() implies joined(
            m,
            seeds,
            m.canon(#[trigger] near[j]),
        ) by {
            assert(m.canon(m.links[hit.pos as int][j]) == m.canon(near[j]));
            assert(reach(m, seeds, m.canon(near[j]), steps + 1));
        }
        lemma_visit_upto_joined(m, query, popped, near, near.len(), Some(hit.dist), seeds);
        lemma_expand(m, query, walk);
        lemma_run_joined(m, query, m.expand(query, walk), (fuel - 1) as nat, seeds);
    }
}

/// A search that starts at seeds stays with them: every hit that it hands
/// back is a seed, or joined to a seed by edges of the layer.
pub proof fn lemma_search_joined(m: LayerModel, query: Seq<char>, seeds: Seq<usize>, k: nat)
    requires
        m.wf(),
        seeds.len() > 0,
    ensures
        all_joined(m, seeds, m.search(query, seeds, k)),
{
    let none = Walk { seen: Seq::empty(), frontier: Seq::empty() };
    let start = m.seed(query, seeds);
    let end = m.run(query, start, m.items.len());
    let found = m.search(query, seeds, k);
    assert forall|j: int| 0 <= j < seeds.len() && seeds[j] < m.items.len() implies joined(
        m,
        seeds,
        m.canon(#[trigger] seeds[j]),
    ) by {
        assert(reach(m, seeds, m.canon(seeds[j]), 0));
    }
    lemma_visit_upto_joined(m, query, none, seeds, seeds.len(), None, seeds);
    lemma_seed(m, query, seeds);
    lemma_run_joined(m, query, start, m.items.len(), seeds);
    lemma_least(end.seen, k);
    assert forall|i: int| 0 <= i < found.len() implies joined(m, seeds, (#[trigger] found[i]).pos) by {
        assert(end.seen.contains(found[i]));
        let at = choose|at: int| 0 <= at < end.seen.len() && end.seen[at] == found[i];
        assert(joined(m, seeds, end.seen[at].pos));
    }
}

/// Whether the layer holds `text` at a position that is a seed or joined to
/// one.
pub open spec fn holds_joined(m: LayerModel, seeds: Seq<usize>, text: Seq<char>) -> bool {
    exists|p: usize| p < m.items.len() && joined(m, seeds, p) && #[trigger] m.items[p as int] == text
}

/// Where entries are given, a layer hands back only texts that it holds at
/// a position which the index gives for an entry, or which is joined to such a
/// position by edges of the layer; where the index holds the text of no
/// entry, it hands back nothing.
pub proof fn law_nearest_joined(
    m: LayerModel,
    query: Seq<char>,
    entries: Seq<(Seq<char>, usize)>,
    k: nat,
)
    requires
        m.wf(),
        entries.len() > 0,
    ensures
        m.locate(entries).len() == 0 ==> m.nearest(query, entries, k).len() == 0,
        forall|i: int|
            0 <= i < m.nearest(query, entries, k).len() ==> holds_joined(
                m,
                m.locate(entries),
                (#[trigger] m.nearest(query, entries, k)[i]).0,
            ),
{
    let seeds = m.locate(entries);
    if seeds.len() > 0 {
        let hits = m.search(query, seeds, k);
        let found = m.nearest(query, entries, k);
        lemma_search(m, query, seeds, k);
        lemma_search_joined(m, query, seeds, k);
        assert forall|i: int| 0 <= i < found.len() implies holds_joined(
            m,
            seeds,
            (#[trigger] found[i]).0,
        ) by {
            let p = hits[i].pos;
            assert(p < m.items.len() && joined(m, seeds, p) && m.items[p as int] == found[i].0);
        }
    }
}

/// Whether every position of the layer stands for itself: no two stored
/// texts share a hash.
pub open spec fn plain(m: LayerModel) -> bool {
    forall|p: usize| p < m.items.len() ==> m.canon(p) == p
}

/// Whether every two positions of the layer are neighbors.
pub open spec fn complete(m: LayerModel) -> bool {
    forall|p: int, q: usize|
        0 <= p < m.items.len() && q < m.items.len() && p != q ==> #[trigger] m.links[p].contains(q)
}

/// On a layer in which every two positions are neighbors and no two texts
/// share a hash, a search that may hand back as many hits as the layer has
/// texts hands back every text, if it starts in the layer at all.
pub proof fn lemma_search_complete(m: LayerModel, query: Seq<char>, seeds: Seq<usize>, k: nat)
    requires
        m.wf(),
        plain(m),
        complete(m),
        m.items.len() <= k,
        m.items.len() <= usize::MAX,
        forall|j: int| 0 <= j < seeds.len() ==> #[trigger] seeds[j] < m.items.len(),
    ensures
        covers(m.search(query, seeds, k), m.items.len()),
        m.search(query, seeds, k).len() == m.items.len(),
{
    let n = m.items.len();
    let start = m.seed(query, seeds);
    let end = m.run(query, start, n);
    let found = m.search(query, seeds, k);
    lemma_seed(m, query, seeds);
    lemma_run(m, query, start, n);
    lemma_search(m, query, seeds, k);
    if n > 0 {
        if seeds.len() > 0 {
            assert(seeds[0] < n);
        }
        let hit = start.frontier[least_index(start.frontier)];
        let grown = m.expand(query, start);
        lemma_expand(m, query, start);
        assert forall|p: usize| p < n implies knows(end.seen, p) by {
            if p == hit.pos {
                lemma_knows_extends(start.seen, end.seen, p);
            } else {
                let near = m.links[hit.pos as int];
                assert(near.contains(p));
                let j = choose|j: int| 0 <= j < near.len() && near[j] == p;
                assert(knows(grown.seen, m.canon(near[j])));
                lemma_knows_extends(grown.seen, end.seen, p);
            }
        }
        lemma_count(end.seen, n);
        lemma_least_keeps(end.seen, k);
        assert forall|p: usize| p < n implies knows(found, p) by {
            assert(knows(end.seen, p));
            let i = choose|i: int| 0 <= i < end.seen.len() && #[trigger] end.seen[i].pos == p;
            assert(found.contains(end.seen[i]));
            let t = choose|t: int| 0 <= t < found.len() && found[t] == end.seen[i];
            assert(found[t].pos == p);
        }
        lemma_fill(found, n);
    }
}

} // verus!
