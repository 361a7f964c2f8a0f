use graph_index::{GraphError, GraphIndex};
use std::collections::BTreeSet;

type Links = Vec<(String, String, String)>;

/// A small generator of repeatable pseudo-random numbers.
struct Dice(u64);

impl Dice {
    fn roll(&mut self, sides: u64) -> u64 {
        self.0 = self.0.wrapping_mul(6364136223846793005).wrapping_add(1442695040888963407);
        (self.0 >> 33) % sides
    }
}

const ENTITIES: [&str; 9] = ["a", "b", "c", "d", "e", "ab", "\u{e9}", "Z", "n0"];
const KINDS: [&str; 3] = ["refs", "mentions", "cites"];

fn random_links(seed: u64, count: usize) -> Links {
    let mut dice = Dice(seed);
    let mut links = Vec::new();
    for _ in 0..count {
        let s = ENTITIES[dice.roll(ENTITIES.len() as u64) as usize];
        let t = ENTITIES[dice.roll(ENTITIES.len() as u64) as usize];
        let k = KINDS[dice.roll(KINDS.len() as u64) as usize];
        links.push((s.to_string(), t.to_string(), k.to_string()));
    }
    links
}

fn build(links: &Links) -> GraphIndex {
    let mut index = GraphIndex::new();
    for (s, t, k) in links {
        assert_eq!(index.add_link(s, t, k), Ok(()));
    }
    index
}

fn expected_backlinks(links: &Links, target: &str) -> Vec<String> {
    let set: BTreeSet<String> =
        links.iter().filter(|l| l.1 == target).map(|l| l.0.clone()).collect();
    set.into_iter().collect()
}

fn expected_neighborhood(links: &Links, from: &str, depth: usize) -> Vec<String> {
    let mut within: BTreeSet<String> = BTreeSet::new();
    within.insert(from.to_string());
    for _ in 0..depth {
        let mut grown = within.clone();
        for l in links {
            if within.contains(&l.0) {
                grown.insert(l.1.clone());
            }
        }
        if grown.len() == within.len() {
            break;
        }
        within = grown;
    }
    within.remove(from);
    within.into_iter().collect()
}

fn strictly_ascending(v: &[String]) -> bool {
    v.windows(2).all(|w| w[0] < w[1])
}

#[test]
fn queries_agree_with_a_plain_model() {
    for seed in 0..40u64 {
        let links = random_links(seed, (seed % 13) as usize * 2);
        let index = build(&links);
        for x in ENTITIES.iter().chain(["nobody", ""].iter()) {
            assert_eq!(index.get_backlinks(x), expected_backlinks(&links, x));
            for depth in 0..6 {
                assert_eq!(
                    index.get_neighborhood(x, depth),
                    expected_neighborhood(&links, x, depth)
                );
            }
        }
    }
}

#[test]
fn forward_and_reverse_entries_mirror_each_other() {
    for seed in 100..120u64 {
        let links = random_links(seed, 25);
        let index = build(&links);
        let store = index.store();
        let mut forward = 0;
        let mut reverse = 0;
        for x in ENTITIES.iter() {
            for e in store.forward_of(x) {
                forward += 1;
                assert_eq!(e.key(), *x);
                assert!(store
                    .reverse_of(e.peer())
                    .iter()
                    .any(|r| r.key() == e.peer() && r.peer() == e.key() && r.kind() == e.kind()));
            }
            for r in store.reverse_of(x) {
                reverse += 1;
                assert_eq!(r.key(), *x);
                assert!(store
                    .forward_of(r.peer())
                    .iter()
                    .any(|e| e.key() == r.peer() && e.peer() == r.key() && e.kind() == r.kind()));
            }
        }
        let distinct: BTreeSet<_> = links.iter().cloned().collect();
        assert_eq!(forward, distinct.len());
        assert_eq!(reverse, distinct.len());
    }
}

#[test]
fn adding_twice_is_adding_once() {
    for seed in 200..220u64 {
        let links = random_links(seed, 12);
        let once = build(&links);
        let mut doubled = links.clone();
        doubled.extend(links.iter().cloned());
        let twice = build(&doubled);
        let mut stuttered = GraphIndex::new();
        for (s, t, k) in &links {
            assert_eq!(stuttered.add_link(s, t, k), Ok(()));
            assert_eq!(stuttered.add_link(s, t, k), Ok(()));
        }
        for x in ENTITIES.iter() {
            assert_eq!(once.get_backlinks(x), twice.get_backlinks(x));
            assert_eq!(once.get_backlinks(x), stuttered.get_backlinks(x));
            assert_eq!(once.store().forward_of(x).len(), twice.store().forward_of(x).len());
            assert_eq!(once.store().reverse_of(x).len(), stuttered.store().reverse_of(x).len());
            for depth in 0..5 {
                assert_eq!(once.get_neighborhood(x, depth), twice.get_neighborhood(x, depth));
                assert_eq!(once.get_neighborhood(x, depth), stuttered.get_neighborhood(x, depth));
            }
        }
    }
}

#[test]
fn backlinks_are_the_sources_that_were_linked() {
    let links = random_links(7, 20);
    let index = build(&links);
    for y in ENTITIES.iter() {
        let back = index.get_backlinks(y);
        for x in ENTITIES.iter() {
            let was_linked = links.iter().any(|l| l.0 == *x && l.1 == *y);
            assert_eq!(back.iter().any(|b| b == x), was_linked);
        }
    }
}

#[test]
fn refused_links_leave_no_backlink() {
    let mut index = GraphIndex::new();
    assert_eq!(index.add_link("x", "y", ""), Err(GraphError::InvalidArgument));
    assert_eq!(index.add_link("x", "", "k"), Err(GraphError::InvalidArgument));
    assert!(index.get_backlinks("y").is_empty());
    assert!(index.get_backlinks("").is_empty());
    assert!(index.get_neighborhood("x", 3).is_empty());
}

#[test]
fn neighborhoods_grow_with_depth() {
    for seed in 300..320u64 {
        let links = random_links(seed, 14);
        let index = build(&links);
        for x in ENTITIES.iter() {
            for depth in 0..7 {
                let near = index.get_neighborhood(x, depth);
                let far = index.get_neighborhood(x, depth + 1);
                assert!(near.iter().all(|y| far.contains(y)));
            }
        }
    }
}

#[test]
fn no_entity_is_its_own_neighbor() {
    for seed in 400..420u64 {
        let mut links = random_links(seed, 14);
        for x in ENTITIES.iter() {
            links.push((x.to_string(), x.to_string(), "self".to_string()));
        }
        let index = build(&links);
        for x in ENTITIES.iter() {
            for depth in 0..6 {
                assert!(!index.get_neighborhood(x, depth).iter().any(|y| y == x));
            }
            assert!(index.get_backlinks(x).iter().any(|y| y == x));
        }
    }
}

#[test]
fn depth_zero_is_always_empty() {
    let links = random_links(11, 30);
    let index = build(&links);
    for x in ENTITIES.iter().chain(["nobody", ""].iter()) {
        assert_eq!(index.get_neighborhood(x, 0), Vec::<String>::new());
    }
    assert_eq!(GraphIndex::new().get_neighborhood("a", 0), Vec::<String>::new());
}

#[test]
fn results_are_strictly_ascending() {
    for seed in 500..530u64 {
        let links = random_links(seed, 30);
        let index = build(&links);
        for x in ENTITIES.iter() {
            assert!(strictly_ascending(&index.get_backlinks(x)));
            for depth in 0..5 {
                assert!(strictly_ascending(&index.get_neighborhood(x, depth)));
            }
        }
    }
}

#[test]
fn unknown_entities_are_neutral() {
    for seed in 600..610u64 {
        let links = random_links(seed, 30);
        let index = build(&links);
        for x in ["nobody", "", "aa", "A", "\u{e9}\u{e9}"].iter() {
            assert_eq!(index.get_backlinks(x), Vec::<String>::new());
            for depth in 0..5 {
                assert_eq!(index.get_neighborhood(x, depth), Vec::<String>::new());
            }
        }
    }
}

#[test]
fn long_chain_is_cut_at_the_depth() {
    let mut index = GraphIndex::new();
    let name = |i: usize| format!("n{:03}", i);
    for i in 0..200 {
        assert_eq!(index.add_link(&name(i), &name(i + 1), "next"), Ok(()));
    }
    for depth in [0usize, 1, 2, 50, 199, 200, 201, 5000] {
        let got = index.get_neighborhood(&name(0), depth);
        let want: Vec<String> = (1..=depth.min(200)).map(name).collect();
        assert_eq!(got, want);
    }
    assert_eq!(index.get_neighborhood(&name(150), 100).len(), 50);
    assert_eq!(index.get_backlinks(&name(17)), vec![name(16)]);
}
