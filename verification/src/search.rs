//! The greedy walk over one layer.

use vstd::prelude::*;
use vstd::std_specs::hash::*;
use std::collections::HashSet;
use crate::layer::Layer;
use crate::metric::dice;
use crate::walk::{lemma_search, sound};
use crate::model::{
    before, entries_of, knows, least, least_index, least_upto, lemma_least, within, Hit, Walk,
};

verus! {

broadcast use group_hash_axioms;

/// Whether `a` comes before `b`: by distance, and by position among equal
/// distances.
pub fn precedes(a: Hit, b: Hit) -> (r: bool)
    ensures
        r == before(a, b),
{
    a.dist < b.dist || (a.dist == b.dist && a.pos < b.pos)
}

/// Index of the least hit of a list that is not empty.
pub fn least_position(list: &Vec<Hit>) -> (i: usize)
    requires
        list.len() > 0,
    ensures
        i == least_index(list@),
        i < list.len(),
{
    let mut best: usize = 0;
    let mut j: usize = 1;
    while j < list.len()
        invariant
            1 <= j <= list.len(),
            best < j,
            best == least_upto(list@, j as nat),
        decreases list.len() - j,
    {
        if precedes(list[j], list[best]) {
            best = j;
        }
        j = j + 1;
    }
    best
}

/// Takes the `k` least hits out of `list`, in ascending order.
pub fn take_least(list: Vec<Hit>, k: usize) -> (out: Vec<Hit>)
    ensures
        out@ == least(list@, k as nat),
{
    let mut rest = list;
    let mut out: Vec<Hit> = Vec::new();
    while out.len() < k && rest.len() > 0
        invariant
            out.len() <= k,
            out@ + least(rest@, (k - out.len()) as nat) == least(list@, k as nat),
        decreases rest.len(),
    {
        let i = least_position(&rest);
        let ghost prior = rest@;
        let ghost taken = out@;
        let hit = rest.remove(i);
        out.push(hit);
        assert(taken.push(hit) + least(prior.remove(i as int), (k - out.len()) as nat) =~= taken
            + (seq![hit] + least(prior.remove(i as int), (k - out.len()) as nat)));
    }
    assert(out@ + Seq::<Hit>::empty() =~= out@);
    out
}

/// Whether a set of positions holds exactly those that a walk has measured.
pub open spec fn marks_agree(marks: Set<usize>, seen: Seq<Hit>) -> bool {
    forall|p: usize| marks.contains(p) <==> knows(seen, p)
}

impl Layer {
    /// Meets the text at position `p` during a walk for `query`.
    fn visit(
        &self,
        query: &str,
        seen: &mut Vec<Hit>,
        frontier: &mut Vec<Hit>,
        marks: &mut HashSet<usize>,
        p: usize,
        bound: Option<usize>,
    )
        requires
            self@.wf(),
            marks_agree(old(marks)@, old(seen)@),
            within(old(seen)@, self@.items.len()),
            within(old(frontier)@, self@.items.len()),
        ensures
            (Walk { seen: final(seen)@, frontier: final(frontier)@ }) == self@.visit(
                query@,
                (Walk { seen: old(seen)@, frontier: old(frontier)@ }),
                p,
                bound,
            ),
            marks_agree(final(marks)@, final(seen)@),
            within(final(seen)@, self@.items.len()),
            within(final(frontier)@, self@.items.len()),
    {
        if p >= self.len() {
            return ;
        }
        let c: usize = match self.index_of(self.item(p)) {
            Some(c) => c,
            None => unreached(),
        };
        if marks.contains(&c) {
            return ;
        }
        let hit = Hit { pos: c, dist: dice(query, self.item(c)) };
        let ghost prior = seen@;
        seen.push(hit);
        marks.insert(c);
        assert forall|q: usize| marks@.contains(q) <==> knows(seen@, q) by {
            if knows(prior, q) {
                let i = choose|i: int| 0 <= i < prior.len() && prior[i].pos == q;
                assert(seen@[i].pos == q);
            }
            if q == c {
                assert(seen@[prior.len() as int].pos == q);
            }
        }
        let admitted = match bound {
            Some(limit) => hit.dist <= limit,
            None => true,
        };
        if admitted {
            frontier.push(hit);
        }
    }

    /// Meets the positions of `list` in turn.
    fn visit_each(
        &self,
        query: &str,
        seen: &mut Vec<Hit>,
        frontier: &mut Vec<Hit>,
        marks: &mut HashSet<usize>,
        list: &Vec<usize>,
        bound: Option<usize>,
    )
        requires
            self@.wf(),
            marks_agree(old(marks)@, old(seen)@),
            within(old(seen)@, self@.items.len()),
            within(old(frontier)@, self@.items.len()),
        ensures
            (Walk { seen: final(seen)@, frontier: final(frontier)@ }) == self@.visit_upto(
                query@,
                (Walk { seen: old(seen)@, frontier: old(frontier)@ }),
                list@,
                list@.len(),
                bound,
            ),
            marks_agree(final(marks)@, final(seen)@),
            within(final(seen)@, self@.items.len()),
            within(final(frontier)@, self@.items.len()),
    {
        let ghost start = Walk { seen: seen@, frontier: frontier@ };
        let mut j: usize = 0;
        while j < list.len()
            invariant
                j <= list.len(),
                self@.wf(),
                marks_agree(marks@, seen@),
                within(seen@, self@.items.len()),
                within(frontier@, self@.items.len()),
                (Walk { seen: seen@, frontier: frontier@ }) == self@.visit_upto(
                    query@,
                    start,
                    list@,
                    j as nat,
                    bound,
                ),
            decreases list.len() - j,
        {
            self.visit(query, seen, frontier, marks, list[j], bound);
            j = j + 1;
        }
    }

    /// The greedy search for the `k` stored texts nearest to `query`.
    ///
    /// The walk starts at the seeds, or at every stored text where no seed is
    /// given. It expands the nearest waiting text first: each neighbor that
    /// it has not measured yet is measured, and waits in turn if it is no
    /// farther from the query than the text just expanded. The result is the
    /// `k` nearest among all texts measured, nearest first.
    pub fn search(&self, query: &str, seeds: &Vec<usize>, k: usize) -> (hits: Vec<Hit>)
        requires
            self@.wf(),
        ensures
            hits@ == self@.search(query@, seeds@, k as nat),
            within(hits@, self@.items.len()),
            hits.len() <= k,
            sound(self@, query@, hits@),
            forall|i: int, j: int|
                0 <= i <= j < hits.len() ==> (#[trigger] hits@[i]).dist <= (
                #[trigger] hits@[j]).dist,
    {
        let mut seen: Vec<Hit> = Vec::new();
        let mut frontier: Vec<Hit> = Vec::new();
        let mut marks: HashSet<usize> = HashSet::new();
        assert(marks_agree(marks@, seen@));
        if seeds.len() == 0 {
            let mut p: usize = 0;
            let ghost start = Walk { seen: seen@, frontier: frontier@ };
            while p < self.len()
                invariant
                    p <= self@.items.len(),
                    self@.wf(),
                    marks_agree(marks@, seen@),
                    within(seen@, self@.items.len()),
                    within(frontier@, self@.items.len()),
                    (Walk { seen: seen@, frontier: frontier@ }) == self@.visit_upto(
                        query@,
                        start,
                        self@.positions(),
                        p as nat,
                        None,
                    ),
                decreases self@.items.len() - p,
            {
                self.visit(query, &mut seen, &mut frontier, &mut marks, p, None);
                p = p + 1;
            }
        } else {
            self.visit_each(query, &mut seen, &mut frontier, &mut marks, seeds, None);
        }
        let ghost start = Walk { seen: seen@, frontier: frontier@ };
        assert(start == self@.seed(query@, seeds@));
        let mut fuel: usize = self.len();
        while fuel > 0 && frontier.len() > 0
            invariant
                self@.wf(),
                marks_agree(marks@, seen@),
                within(seen@, self@.items.len()),
                within(frontier@, self@.items.len()),
                self@.run(query@, (Walk { seen: seen@, frontier: frontier@ }), fuel as nat)
                    == self@.run(query@, start, self@.items.len()),
            decreases fuel,
        {
            let i = least_position(&frontier);
            let hit = frontier.remove(i);
            self.visit_each(
                query,
                &mut seen,
                &mut frontier,
                &mut marks,
                self.neighbors(hit.pos),
                Some(hit.dist),
            );
            fuel = fuel - 1;
        }
        proof {
            lemma_least(seen@, k as nat);
            lemma_search(self@, query@, seeds@, k as nat);
        }
        take_least(seen, k)
    }

    /// The positions that the index holds for the texts of `entries`, in
    /// their order. A text that the index does not hold is passed over.
    pub fn locate(&self, entries: &Vec<(&str, usize)>) -> (seeds: Vec<usize>)
        ensures
            seeds@ == self@.locate(entries_of(entries@)),
    {
        let mut seeds: Vec<usize> = Vec::new();
        let mut j: usize = 0;
        while j < entries.len()
            invariant
                j <= entries.len(),
                seeds@ == self@.locate_upto(entries_of(entries@), j as nat),
            decreases entries.len() - j,
        {
            match self.index_of(entries[j].0) {
                Some(p) => {
                    seeds.push(p);
                },
                None => {},
            }
            j = j + 1;
        }
        seeds
    }

    /// The text of each hit, with its distance.
    pub fn describe<'a>(&'a self, hits: &Vec<Hit>) -> (list: Vec<(&'a str, usize)>)
        requires
            within(hits@, self@.items.len()),
        ensures
            entries_of(list@) == self@.describe(hits@),
    {
        let mut list: Vec<(&'a str, usize)> = Vec::new();
        let mut j: usize = 0;
        while j < hits.len()
            invariant
                j <= hits.len(),
                within(hits@, self@.items.len()),
                list.len() == j,
                forall|i: int|
                    0 <= i < j ==> (#[trigger] list@[i]).0@ == self@.items[hits@[i].pos as int]
                        && list@[i].1 == hits@[i].dist,
            decreases hits.len() - j,
        {
            list.push((self.item(hits[j].pos), hits[j].dist));
            j = j + 1;
        }
        assert(entries_of(list@) =~= self@.describe(hits@));
        list
    }

    /// The `k` stored texts nearest to `query` that a greedy search finds
    /// which starts at the texts of `entries`, nearest first. The distances
    /// in `entries` are not read: each seed is measured afresh.
    ///
    /// An entry whose text the index does not hold is passed over. Where no
    /// entry is given, the search starts at every stored text; where entries
    /// are given and the index holds the text of none of them, the result is
    /// empty.
    pub fn nearest<'a>(&'a self, query: &str, entries: &Vec<(&str, usize)>, k: usize) -> (list: Vec<
        (&'a str, usize),
    >)
        requires
            self@.wf(),
        ensures
            entries_of(list@) == self@.nearest(query@, entries_of(entries@), k as nat),
            list.len() <= k,
            entries.len() > 0 && self@.locate(entries_of(entries@)).len() == 0 ==> list.len() == 0,
    {
        let seeds = self.locate(entries);
        if entries.len() > 0 && seeds.len() == 0 {
            let list: Vec<(&'a str, usize)> = Vec::new();
            assert(entries_of(list@) =~= Seq::empty());
            return list;
        }
        let hits = self.search(query, &seeds, k);
        let list = self.describe(&hits);
        assert(list.len() == entries_of(list@).len());
        list
    }

    /// Inserts `s`: searches the `k` nearest texts among those stored, appends
    /// `s`, and lays an edge between it and each of them. Hands back the
    /// texts found, by their positions.
    pub fn insert(&mut self, s: &str, seeds: &Vec<usize>, k: usize) -> (hits: Vec<Hit>)
        requires
            old(self)@.wf(),
        ensures
            final(self)@ == old(self)@.insert(s@, seeds@, k as nat),
            final(self)@.wf(),
            final(self)@.items == old(self)@.items.push(s@),
            hits@ == old(self)@.search(s@, seeds@, k as nat),
            within(hits@, old(self)@.items.len()),
    {
        let hits = self.search(s, seeds, k);
        let p = self.push(s);
        let ghost pushed = self@;
        let mut j: usize = 0;
        while j < hits.len()
            invariant
                j <= hits.len(),
                within(hits@, p as nat),
                pushed.items.len() == p + 1,
                self@.wf(),
                self@.items == pushed.items,
                self@ == pushed.link_upto(p, hits@, j as nat),
            decreases hits.len() - j,
        {
            self.link(p, hits[j].pos);
            j = j + 1;
        }
        hits
    }
}

} // verus!
