//! The graph index: insertion of links, and the two structural queries.

use crate::error::GraphError;
use crate::model::{
    acceptable, backlinks_of, lemma_neighborhood_depth_zero, lemma_neighborhood_of_sink,
    lemma_reachable_monotonic, lemma_reachable_saturated, linked, mirror, neighborhood_of,
    reachable_within, successors, Link,
};
use crate::names::{ascending, lists, NameSet};
use crate::store::AdjacencyStore;
use crate::table::{rows_ascending, rows_of, triple_lt, Entry, Triple};
use crate::text::{
    compare_text, lemma_text_lt_irreflexive, lemma_text_lt_transitive, text_lt, Rank, Text,
};
use vstd::prelude::*;

verus! {

/// Graph index for managing entity relationships and backlinks.
pub struct GraphIndex {
    store: AdjacencyStore,
}

impl View for GraphIndex {
    type V = Set<Link>;

    /// The links that the index holds, each as `(source, target, link type)`.
    closed spec fn view(&self) -> Set<Link> {
        self.store.forward()
    }
}

impl GraphIndex {
    /// The reverse entries that the index holds, each as
    /// `(target, source, link type)`.
    pub closed spec fn reverse_links(&self) -> Set<Link> {
        self.store.reverse()
    }

    /// The store is in order and its reverse entries mirror the forward ones.
    pub closed spec fn wf(&self) -> bool {
        &&& self.store.wf()
        &&& self.store.reverse() == mirror(self.store.forward())
    }

    /// In a well-formed index there is a reverse entry for every forward
    /// entry, and a forward entry for every reverse one.
    pub proof fn lemma_symmetry(&self, source: Text, target: Text, link_type: Text)
        requires
            self.wf(),
        ensures
            self@.contains((source, target, link_type)) <==> self.reverse_links().contains(
                (target, source, link_type),
            ),
    {
    }

    /// Creates a new graph index, without links.
    pub fn new() -> (index: Self)
        ensures
            index.wf(),
            index@ == Set::<Link>::empty(),
            index.reverse_links() == mirror(index@),
    {
        let index = GraphIndex { store: AdjacencyStore::new() };
        assert(index.store.reverse() =~= mirror(index.store.forward()));
        index
    }

    /// The adjacency store behind the index, for reading.
    pub fn store(&self) -> (store: &AdjacencyStore)
        requires
            self.wf(),
        ensures
            store.wf(),
            store.forward() == self@,
            store.reverse() == self.reverse_links(),
    {
        &self.store
    }

    /// Adds a link of type `link_type` from `source_id` to `target_id`. A
    /// link that is there already is not added again; an empty argument is
    /// refused, and the index stays as it was.
    pub fn add_link(&mut self, source_id: &str, target_id: &str, link_type: &str) -> (r: Result<
        (),
        GraphError,
    >)
        requires
            old(self).wf(),
        ensures
            final(self).wf(),
            final(self)@ == linked(old(self)@, source_id@, target_id@, link_type@),
            final(self).reverse_links() == mirror(final(self)@),
            acceptable(source_id@, target_id@, link_type@) ==> r == Ok::<(), GraphError>(()),
            !acceptable(source_id@, target_id@, link_type@) ==> r == Err::<(), GraphError>(
                GraphError::InvalidArgument,
            ),
            r is Err || old(self)@.contains((source_id@, target_id@, link_type@)) ==> *final(self)
                == *old(self),
    {
        if source_id.is_empty() || target_id.is_empty() || link_type.is_empty() {
            return Err(GraphError::InvalidArgument);
        }
        if self.store.insert_forward(source_id, target_id, link_type) {
            self.store.insert_reverse(target_id, source_id, link_type);
            assert(self.store.reverse() =~= mirror(self.store.forward()));
        } else {
            assert(self@ =~= old(self)@.insert((source_id@, target_id@, link_type@)));
        }
        Ok(())
    }

    /// Gets the backlinks of an entity: the distinct sources of the links
    /// that point at it, whatever their type, in ascending order. An entity
    /// without incoming links has none.
    pub fn get_backlinks(&self, entity_id: &str) -> (sources: Vec<String>)
        requires
            self.wf(),
        ensures
            lists(sources.deep_view(), backlinks_of(self@, entity_id@)),
    {
        let run = self.store.reverse_of(entity_id);
        let ghost rows = rows_of(run@);
        let mut sources: Vec<String> = Vec::new();
        let mut i: usize = 0;
        proof {
            assert forall|j: int| 0 <= j < rows.len() implies (#[trigger] rows[j]).0
                == entity_id@ by {
                assert(rows.to_set().contains(rows[j]));
            }
        }
        while i < run.len()
            invariant
                i <= run@.len(),
                i == 0 ==> sources.len() == 0,
                rows == rows_of(run@),
                rows_ascending(rows),
                forall|j: int| 0 <= j < rows.len() ==> (#[trigger] rows[j]).0 == entity_id@,
                ascending(sources.deep_view()),
                forall|y: Text|
                    sources.deep_view().contains(y) <==> exists|j: int|
                        0 <= j < i && (#[trigger] rows[j]).1 == y,
                i > 0 ==> sources.len() > 0 && sources.deep_view().last() == rows[i - 1].1,
            decreases run@.len() - i,
        {
            let peer = run[i].peer();
            let ghost listed = sources.deep_view();
            let repeated = if sources.len() == 0 {
                false
            } else {
                match compare_text(sources[sources.len() - 1].as_str(), peer) {
                    Rank::Same => true,
                    _ => false,
                }
            };
            proof {
                assert(rows[i as int].1 == peer@);
            }
            if !repeated {
                sources.push(peer.to_owned());
                proof {
                    let grown = sources.deep_view();
                    assert(grown =~= listed.push(peer@));
                    if i > 0 {
                        // The rows of one key ascend by peer, then by kind.
                        assert(triple_lt(rows[i - 1], rows[i as int]));
                        lemma_text_lt_irreflexive(entity_id@);
                        assert(text_lt(listed.last(), peer@));
                        assert forall|a: int| 0 <= a < listed.len() implies text_lt(
                            listed[a],
                            peer@,
                        ) by {
                            if a < listed.len() - 1 {
                                lemma_text_lt_transitive(listed[a], listed.last(), peer@);
                            }
                        }
                    }
                    assert forall|a: int, b: int| 0 <= a < b < grown.len() implies text_lt(
                        #[trigger] grown[a],
                        #[trigger] grown[b],
                    ) by {
                        if b < listed.len() {
                            assert(text_lt(listed[a], listed[b]));
                        }
                    }
                    assert forall|y: Text|
                        grown.contains(y) <==> exists|j: int|
                            0 <= j < i + 1 && (#[trigger] rows[j]).1 == y by {
                        if grown.contains(y) {
                            let a = choose|a: int| 0 <= a < grown.len() && grown[a] == y;
                            if a < listed.len() {
                                assert(listed.contains(y));
                            } else {
                                assert(rows[i as int].1 == y);
                            }
                        }
                        if exists|j: int| 0 <= j < i + 1 && (#[trigger] rows[j]).1 == y {
                            let j = choose|j: int| 0 <= j < i + 1 && (#[trigger] rows[j]).1 == y;
                            if j < i {
                                assert(listed.contains(y));
                                let a = choose|a: int| 0 <= a < listed.len() && listed[a] == y;
                                assert(grown[a] == y);
                            } else {
                                assert(grown[listed.len() as int] == y);
                            }
                        }
                    }
                }
            } else {
                proof {
                    assert forall|y: Text|
                        listed.contains(y) <==> exists|j: int|
                            0 <= j < i + 1 && (#[trigger] rows[j]).1 == y by {
                        if exists|j: int| 0 <= j < i + 1 && (#[trigger] rows[j]).1 == y {
                            let j = choose|j: int| 0 <= j < i + 1 && (#[trigger] rows[j]).1 == y;
                            if j == i {
                                assert(listed[listed.len() - 1] == y);
                            }
                        }
                    }
                }
            }
            i += 1;
        }
        proof {
            let listed = sources.deep_view();
            let wanted = backlinks_of(self@, entity_id@);
            let held = self.store.reverse().filter(|e: Triple| e.0 == entity_id@);
            assert(rows.to_set() == held);
            assert forall|y: Text| listed.contains(y) <==> wanted.contains(y) by {
                if listed.contains(y) {
                    let j = choose|j: int| 0 <= j < rows.len() && (#[trigger] rows[j]).1 == y;
                    assert(rows.to_set().contains(rows[j]));
                    assert(self@.contains((y, entity_id@, rows[j].2)));
                }
                if wanted.contains(y) {
                    let k = choose|k: Text| self@.contains((y, entity_id@, k));
                    assert(held.contains((entity_id@, y, k)));
                    assert(rows.contains((entity_id@, y, k)));
                    let j = choose|j: int| 0 <= j < rows.len() && rows[j] == (entity_id@, y, k);
                    assert(rows[j].1 == y);
                }
            }
        }
        sources
    }

    /// Marks the peers of `run` as visited and appends those that were not
    /// visited before to `found`.
    fn visit_peers(run: &[Entry], visited: &mut NameSet, found: &mut Vec<String>)
        requires
            old(visited).wf(),
        ensures
            final(visited).wf(),
            forall|y: Text| #[trigger]
                final(visited)@.contains(y) <==> old(visited)@.contains(y) || exists|j: int|
                    0 <= j < run@.len() && (#[trigger] rows_of(run@)[j]).1 == y,
            forall|y: Text| #[trigger]
                final(found).deep_view().contains(y) <==> old(found).deep_view().contains(y) || (
                final(visited)@.contains(y) && !old(visited)@.contains(y)),
    {
        let ghost rows = rows_of(run@);
        let ghost visited0 = visited@;
        let ghost found0 = found.deep_view();
        let mut i: usize = 0;
        while i < run.len()
            invariant
                i <= run@.len(),
                rows == rows_of(run@),
                visited.wf(),
                forall|y: Text| #[trigger]
                    visited@.contains(y) <==> visited0.contains(y) || exists|j: int|
                        0 <= j < i && (#[trigger] rows[j]).1 == y,
                forall|y: Text| #[trigger]
                    found.deep_view().contains(y) <==> found0.contains(y) || (visited@.contains(y)
                        && !visited0.contains(y)),
            decreases run@.len() - i,
        {
            let peer = run[i].peer();
            let ghost seen = visited@;
            let ghost listed = found.deep_view();
            proof {
                assert(rows[i as int].1 == peer@);
            }
            let fresh = visited.insert(peer);
            if fresh {
                found.push(peer.to_owned());
            }
            proof {
                let grown = found.deep_view();
                if fresh {
                    assert(grown =~= listed.push(peer@));
                    assert(grown[listed.len() as int] == peer@);
                }
                assert forall|y: Text| #[trigger]
                    visited@.contains(y) <==> visited0.contains(y) || exists|j: int|
                        0 <= j < i + 1 && (#[trigger] rows[j]).1 == y by {
                    if seen.contains(y) && !visited0.contains(y) {
                        let j = choose|j: int| 0 <= j < i && (#[trigger] rows[j]).1 == y;
                        assert(0 <= j < i + 1 && rows[j].1 == y);
                    }
                    if exists|j: int| 0 <= j < i + 1 && (#[trigger] rows[j]).1 == y {
                        let j = choose|j: int| 0 <= j < i + 1 && (#[trigger] rows[j]).1 == y;
                        if j < i {
                            assert(seen.contains(y));
                        }
                    }
                }
                assert forall|y: Text| #[trigger]
                    grown.contains(y) <==> found0.contains(y) || (visited@.contains(y)
                        && !visited0.contains(y)) by {
                    if grown.contains(y) {
                        let a = choose|a: int| 0 <= a < grown.len() && grown[a] == y;
                        if a < listed.len() {
                            assert(listed[a] == y);
                            assert(listed.contains(y));
                        }
                    }
                    if listed.contains(y) {
                        let a = choose|a: int| 0 <= a < listed.len() && listed[a] == y;
                        assert(grown[a] == y);
                    }
                }
            }
            i += 1;
        }
    }

    /// One round of the search: marks every target of a link out of
    /// `frontier` as visited, and gives those that were not visited before.
    fn expand(&self, frontier: &Vec<String>, visited: &mut NameSet) -> (next: Vec<String>)
        requires
            self.wf(),
            old(visited).wf(),
        ensures
            final(visited).wf(),
            final(visited)@ == old(visited)@.union(
                successors(self@, frontier.deep_view().to_set()),
            ),
            next.deep_view().to_set() == final(visited)@.difference(old(visited)@),
    {
        let ghost visited0 = visited@;
        let ghost sources = frontier.deep_view();
        let mut next: Vec<String> = Vec::new();
        let mut i: usize = 0;
        while i < frontier.len()
            invariant
                self.wf(),
                i <= frontier.len(),
                sources == frontier.deep_view(),
                visited.wf(),
                visited@ == visited0.union(successors(self@, sources.take(i as int).to_set())),
                next.deep_view().to_set() == visited@.difference(visited0),
            decreases frontier.len() - i,
        {
            let node = frontier[i].as_str();
            let run = self.store.forward_of(node);
            let ghost rows = rows_of(run@);
            let ghost seen = visited@;
            let ghost listed = next.deep_view();
            Self::visit_peers(run, visited, &mut next);
            proof {
                let front = sources.take(i as int);
                let upto = sources.take(i + 1);
                let done = front.to_set();
                let more = upto.to_set();
                let held = self.store.forward().filter(|e: Triple| e.0 == node@);
                assert(rows.to_set() == held);
                assert(upto =~= front.push(node@));
                assert forall|y: Text| more.contains(y) <==> done.contains(y) || y == node@ by {
                    if done.contains(y) {
                        let a = choose|a: int| 0 <= a < front.len() && front[a] == y;
                        assert(upto[a] == y);
                    }
                    if more.contains(y) && y != node@ {
                        let a = choose|a: int| 0 <= a < upto.len() && upto[a] == y;
                        assert(front[a] == y);
                    }
                    assert(upto[i as int] == node@);
                }
                assert forall|y: Text|
                    visited@.contains(y) <==> visited0.contains(y) || successors(
                        self@,
                        more,
                    ).contains(y) by {
                    if visited@.contains(y) && !seen.contains(y) {
                        let j = choose|j: int| 0 <= j < run@.len() && (#[trigger] rows[j]).1 == y;
                        assert(rows.to_set().contains(rows[j]));
                        assert(more.contains(node@) && self@.contains((node@, y, rows[j].2)));
                    }
                    if successors(self@, done).contains(y) {
                        let (via, k) = choose|via: Text, k: Text|
                            done.contains(via) && #[trigger] self@.contains((via, y, k));
                        assert(more.contains(via) && self@.contains((via, y, k)));
                    }
                    if successors(self@, more).contains(y) {
                        let (via, k) = choose|via: Text, k: Text|
                            more.contains(via) && #[trigger] self@.contains((via, y, k));
                        if via == node@ {
                            assert(held.contains((node@, y, k)));
                            assert(rows.contains((node@, y, k)));
                            let j = choose|j: int| 0 <= j < rows.len() && rows[j] == (node@, y, k);
                            assert(rows[j].1 == y);
                        } else {
                            assert(done.contains(via) && self@.contains((via, y, k)));
                        }
                    }
                }
                assert(visited@ =~= visited0.union(successors(self@, more)));
                assert forall|y: Text|
                    next.deep_view().contains(y) <==> visited@.contains(y) && !visited0.contains(
                        y,
                    ) by {
                    assert(listed.contains(y) <==> listed.to_set().contains(y));
                    assert(seen.contains(y) ==> visited@.contains(y));
                    assert(visited0.contains(y) ==> seen.contains(y));
                }
                assert(next.deep_view().to_set() =~= visited@.difference(visited0));
            }
            i += 1;
        }
        proof {
            assert(sources.take(i as int) =~= sources);
        }
        next
    }

    /// Gets the neighborhood of an entity: the entities other than itself
    /// that can be reached from it along at most `depth` links, each followed
    /// from source to target and whatever its type, in ascending order.
    pub fn get_neighborhood(&self, entity_id: &str, depth: usize) -> (reached: Vec<String>)
        requires
            self.wf(),
        ensures
            lists(reached.deep_view(), neighborhood_of(self@, entity_id@, depth as nat)),
            depth == 0 ==> reached@.len() == 0,
            !reached.deep_view().contains(entity_id@),
    {
        let ghost start = entity_id@;
        if depth == 0 {
            let nothing: Vec<String> = Vec::new();
            proof {
                lemma_neighborhood_depth_zero(self@, start);
                assert(nothing.deep_view().len() == 0);
            }
            return nothing;
        }
        let direct = self.store.forward_of(entity_id);
        // An entity without outgoing links, known or not, reaches nothing.
        if direct.len() == 0 {
            let nothing: Vec<String> = Vec::new();
            proof {
                let held = self.store.forward().filter(|e: Triple| e.0 == start);
                assert forall|e: Link| #[trigger] self@.contains(e) implies e.0 != start by {
                    if e.0 == start {
                        assert(held.contains(e));
                        assert(rows_of(direct@).to_set().contains(e));
                        assert(rows_of(direct@).contains(e));
                    }
                }
                lemma_neighborhood_of_sink(self@, start, depth as nat);
                assert(nothing.deep_view().len() == 0);
            }
            return nothing;
        }
        let mut visited = NameSet::new();
        visited.insert(entity_id);
        let mut frontier: Vec<String> = Vec::new();
        frontier.push(entity_id.to_owned());
        let mut hops: usize = 0;
        proof {
            assert(frontier.deep_view() =~= seq![start]);
            assert(frontier.deep_view()[0] == start);
        }
        while hops < depth && frontier.len() > 0
            invariant
                self.wf(),
                start == entity_id@,
                hops <= depth,
                visited.wf(),
                forall|y: Text| #[trigger]
                    visited@.contains(y) <==> reachable_within(self@, start, y, hops as nat),
                forall|y: Text| #[trigger]
                    frontier.deep_view().contains(y) ==> visited@.contains(y),
                forall|via: Text, to: Text, k: Text|
                    visited@.contains(via) && #[trigger] self@.contains((via, to, k))
                        && !visited@.contains(to) ==> frontier.deep_view().contains(via),
            decreases depth - hops,
        {
            let ghost seen = visited@;
            let ghost edge = frontier.deep_view();
            let next = self.expand(&frontier, &mut visited);
            proof {
                let gained = successors(self@, edge.to_set());
                assert forall|y: Text| #[trigger]
                    visited@.contains(y) <==> reachable_within(
                        self@,
                        start,
                        y,
                        (hops + 1) as nat,
                    ) by {
                    if seen.contains(y) {
                        lemma_reachable_monotonic(self@, start, y, hops as nat, (hops + 1) as nat);
                    }
                    if gained.contains(y) {
                        let (via, k) = choose|via: Text, k: Text|
                            edge.to_set().contains(via) && #[trigger] self@.contains((via, y, k));
                        assert(seen.contains(via));
                    }
                    if y != start && reachable_within(self@, start, y, (hops + 1) as nat) {
                        let (via, k) = choose|via: Text, k: Text|
                            reachable_within(self@, start, via, hops as nat)
                                && #[trigger] self@.contains((via, y, k));
                        assert(seen.contains(via));
                        if !seen.contains(y) {
                            assert(edge.to_set().contains(via));
                            assert(gained.contains(y));
                        }
                    }
                }
                assert forall|y: Text| #[trigger]
                    next.deep_view().contains(y) implies visited@.contains(y) by {
                    assert(next.deep_view().to_set().contains(y));
                }
                assert forall|via: Text, to: Text, k: Text|
                    visited@.contains(via) && #[trigger] self@.contains((via, to, k))
                        && !visited@.contains(to) implies next.deep_view().contains(via) by {
                    if seen.contains(via) {
                        assert(!seen.contains(to));
                        assert(edge.to_set().contains(via));
                        assert(gained.contains(to));
                    } else {
                        assert(next.deep_view().to_set().contains(via));
                    }
                }
            }
            frontier = next;
            hops += 1;
        }
        proof {
            assert forall|y: Text| #[trigger]
                visited@.contains(y) <==> reachable_within(self@, start, y, depth as nat) by {
                if hops < depth {
                    assert(frontier.deep_view().len() == 0);
                    assert forall|via: Text, to: Text, k: Text|
                        reachable_within(self@, start, via, hops as nat)
                            && #[trigger] self@.contains((via, to, k)) implies reachable_within(
                        self@,
                        start,
                        to,
                        hops as nat,
                    ) by {
                        assert(visited@.contains(via));
                        if !visited@.contains(to) {
                            assert(frontier.deep_view().contains(via));
                        }
                    }
                    if visited@.contains(y) {
                        lemma_reachable_monotonic(self@, start, y, hops as nat, depth as nat);
                    }
                    if reachable_within(self@, start, y, depth as nat) {
                        lemma_reachable_saturated(self@, start, y, hops as nat, depth as nat);
                    }
                }
            }
        }
        visited.remove(entity_id);
        visited.into_sorted()
    }
}

impl Default for GraphIndex {
    /// The empty index.
    fn default() -> (index: Self)
        ensures
            index.wf(),
            index@ == Set::<Link>::empty(),
            index.reverse_links() == mirror(index@),
    {
        GraphIndex::new()
    }
}

} // verus!
