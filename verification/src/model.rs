//! The index as mathematics: a set of links, what a mutation does to it, and
//! what the two queries ask of it; with the laws that follow.

use crate::text::Text;
use vstd::prelude::*;

verus! {

/// A directed, typed link: `(source, target, link type)`.
pub type Link = (Text, Text, Text);

/// A link is accepted if neither its endpoints nor its type are empty.
pub open spec fn acceptable(source: Text, target: Text, link_type: Text) -> bool {
    source.len() > 0 && target.len() > 0 && link_type.len() > 0
}

/// The links after an attempt to add `(source, target, link_type)`: an
/// accepted link joins the set, a refused one leaves it as it was.
pub open spec fn linked(links: Set<Link>, source: Text, target: Text, link_type: Text) -> Set<
    Link,
> {
    if acceptable(source, target, link_type) {
        links.insert((source, target, link_type))
    } else {
        links
    }
}

/// The links after a sequence of attempts, begun on the empty index.
pub open spec fn links_after(attempts: Seq<Link>) -> Set<Link>
    decreases attempts.len(),
{
    if attempts.len() == 0 {
        Set::empty()
    } else {
        let last = attempts.last();
        linked(links_after(attempts.drop_last()), last.0, last.1, last.2)
    }
}

/// The same links filed by target: `(target, source, link type)`.
pub open spec fn mirror(links: Set<Link>) -> Set<Link> {
    Set::new(|e: Link| links.contains((e.1, e.0, e.2)))
}

/// The entities with a link of any type to `target`.
pub open spec fn backlinks_of(links: Set<Link>, target: Text) -> Set<Text> {
    Set::new(|source: Text| exists|k: Text| links.contains((source, target, k)))
}

/// `to` is `from` itself or can be reached from it along at most `depth`
/// links, each followed from source to target.
pub open spec fn reachable_within(links: Set<Link>, from: Text, to: Text, depth: nat) -> bool
    decreases depth,
{
    to == from || (depth > 0 && exists|via: Text, k: Text|
        reachable_within(links, from, via, (depth - 1) as nat) && #[trigger] links.contains(
            (via, to, k),
        ))
}

/// The targets of the links whose source is in `sources`.
pub open spec fn successors(links: Set<Link>, sources: Set<Text>) -> Set<Text> {
    Set::new(
        |to: Text|
            exists|via: Text, k: Text|
                sources.contains(via) && #[trigger] links.contains((via, to, k)),
    )
}

/// The entities other than `from` within `depth` hops of it.
pub open spec fn neighborhood_of(links: Set<Link>, from: Text, depth: nat) -> Set<Text> {
    Set::new(|to: Text| to != from && reachable_within(links, from, to, depth))
}

/// No link names `entity`, as source or as target.
pub open spec fn unnamed(links: Set<Link>, entity: Text) -> bool {
    forall|e: Link| #[trigger] links.contains(e) ==> e.0 != entity && e.1 != entity
}

/// Adding a link a second time changes nothing.
pub proof fn lemma_linked_idempotent(links: Set<Link>, source: Text, target: Text, link_type: Text)
    ensures
        linked(linked(links, source, target, link_type), source, target, link_type) == linked(
            links,
            source,
            target,
            link_type,
        ),
{
    let once = linked(links, source, target, link_type);
    assert(linked(once, source, target, link_type) =~= once);
}

/// A link is in the index exactly if some attempt to add it was made and
/// accepted.
pub proof fn lemma_links_after(attempts: Seq<Link>, e: Link)
    ensures
        links_after(attempts).contains(e) <==> attempts.contains(e) && acceptable(e.0, e.1, e.2),
    decreases attempts.len(),
{
    if attempts.len() > 0 {
        let rest = attempts.drop_last();
        lemma_links_after(rest, e);
        if rest.contains(e) {
            let i = choose|i: int| 0 <= i < rest.len() && rest[i] == e;
            assert(attempts[i] == e);
        }
        if attempts.contains(e) {
            let i = choose|i: int| 0 <= i < attempts.len() && attempts[i] == e;
            if i < rest.len() {
                assert(rest[i] == e);
            }
        }
    }
}

/// `source` is a backlink of `target` exactly if some accepted attempt
/// added a link from `source` to `target`, of whatever type.
pub proof fn lemma_backlinks_sound(attempts: Seq<Link>, source: Text, target: Text)
    ensures
        backlinks_of(links_after(attempts), target).contains(source) <==> exists|k: Text|
            #[trigger] attempts.contains((source, target, k)) && acceptable(source, target, k),
{
    let links = links_after(attempts);
    if backlinks_of(links, target).contains(source) {
        let k = choose|k: Text| links.contains((source, target, k));
        lemma_links_after(attempts, (source, target, k));
    }
    if exists|k: Text| #[trigger]
        attempts.contains((source, target, k)) && acceptable(source, target, k) {
        let k = choose|k: Text| #[trigger]
            attempts.contains((source, target, k)) && acceptable(source, target, k);
        lemma_links_after(attempts, (source, target, k));
    }
}

/// What is within `depth` hops is within any greater number of hops.
pub proof fn lemma_reachable_monotonic(
    links: Set<Link>,
    from: Text,
    to: Text,
    depth: nat,
    more: nat,
)
    requires
        reachable_within(links, from, to, depth),
        depth <= more,
    ensures
        reachable_within(links, from, to, more),
    decreases depth,
{
    if to != from {
        let (via, k) = choose|via: Text, k: Text|
            reachable_within(links, from, via, (depth - 1) as nat) && #[trigger] links.contains(
                (via, to, k),
            );
        lemma_reachable_monotonic(links, from, via, (depth - 1) as nat, (more - 1) as nat);
    }
}

/// A neighborhood only grows with the depth.
pub proof fn lemma_neighborhood_monotonic(links: Set<Link>, from: Text, depth: nat)
    ensures
        neighborhood_of(links, from, depth).subset_of(neighborhood_of(links, from, depth + 1)),
{
    let near = neighborhood_of(links, from, depth);
    let far = neighborhood_of(links, from, depth + 1);
    assert forall|to: Text| near.contains(to) implies far.contains(to) by {
        lemma_reachable_monotonic(links, from, to, depth, depth + 1);
    }
}

/// An entity is not in its own neighborhood, whatever links it has.
pub proof fn lemma_neighborhood_excludes_start(links: Set<Link>, from: Text, depth: nat)
    ensures
        !neighborhood_of(links, from, depth).contains(from),
{
}

/// At depth zero every neighborhood is empty.
pub proof fn lemma_neighborhood_depth_zero(links: Set<Link>, from: Text)
    ensures
        neighborhood_of(links, from, 0) == Set::<Text>::empty(),
{
    assert(neighborhood_of(links, from, 0) =~= Set::<Text>::empty());
}

/// An entity without outgoing links reaches nothing but itself.
pub proof fn lemma_no_way_out(links: Set<Link>, from: Text, to: Text, depth: nat)
    requires
        forall|e: Link| #[trigger] links.contains(e) ==> e.0 != from,
        reachable_within(links, from, to, depth),
    ensures
        to == from,
    decreases depth,
{
    if to != from {
        let (via, k) = choose|via: Text, k: Text|
            reachable_within(links, from, via, (depth - 1) as nat) && #[trigger] links.contains(
                (via, to, k),
            );
        lemma_no_way_out(links, from, via, (depth - 1) as nat);
    }
}

/// An entity without outgoing links has an empty neighborhood.
pub proof fn lemma_neighborhood_of_sink(links: Set<Link>, from: Text, depth: nat)
    requires
        forall|e: Link| #[trigger] links.contains(e) ==> e.0 != from,
    ensures
        neighborhood_of(links, from, depth) == Set::<Text>::empty(),
{
    assert forall|to: Text| !neighborhood_of(links, from, depth).contains(to) by {
        if reachable_within(links, from, to, depth) {
            lemma_no_way_out(links, from, to, depth);
        }
    }
    assert(neighborhood_of(links, from, depth) =~= Set::<Text>::empty());
}

/// An entity that no link names has no backlinks and an empty neighborhood.
pub proof fn lemma_unnamed_entity(links: Set<Link>, entity: Text, depth: nat)
    requires
        unnamed(links, entity),
    ensures
        backlinks_of(links, entity) == Set::<Text>::empty(),
        neighborhood_of(links, entity, depth) == Set::<Text>::empty(),
{
    lemma_neighborhood_of_sink(links, entity, depth);
    assert(backlinks_of(links, entity) =~= Set::<Text>::empty());
}

/// Once a depth adds nothing, no greater depth does: if every link out of
/// what is within `depth` hops leads to something within `depth` hops, then
/// whatever is within `more` hops is within `depth` hops.
pub proof fn lemma_reachable_saturated(
    links: Set<Link>,
    from: Text,
    to: Text,
    depth: nat,
    more: nat,
)
    requires
        forall|via: Text, next: Text, k: Text|
            reachable_within(links, from, via, depth) && #[trigger] links.contains((via, next, k))
                ==> reachable_within(links, from, next, depth),
        reachable_within(links, from, to, more),
    ensures
        reachable_within(links, from, to, depth),
    decreases more,
{
    if to != from {
        let (via, k) = choose|via: Text, k: Text|
            reachable_within(links, from, via, (more - 1) as nat) && #[trigger] links.contains(
                (via, to, k),
            );
        lemma_reachable_saturated(links, from, via, depth, (more - 1) as nat);
    }
}

} // verus!
