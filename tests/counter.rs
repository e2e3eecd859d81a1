use top_few::chunks::Chunks;
use top_few::counter::{Counter, KeyCount};
use top_few::{count_keys, sum, top_few};

fn kc(key: &str, count: u64) -> KeyCount {
    KeyCount {
        count,
        key: key.to_string(),
    }
}

fn exact_of(keys: &[&str]) -> Counter {
    let mut c = Counter::new(None);
    for k in keys {
        c.add(k, 1);
    }
    c
}

#[test]
fn exact_counts_are_sums_of_amounts() {
    let mut c = Counter::new(None);
    c.add("a", 3);
    c.add("b", 1);
    c.add("a", 4);
    c.add("c", 0);
    assert_eq!(c.count("a"), 7);
    assert_eq!(c.count("b"), 1);
    assert_eq!(c.count("c"), 0);
    assert_eq!(c.count("zzz"), 0);
}

#[test]
fn exact_top_ranks_every_key() {
    let c = exact_of(&["b", "a", "c", "c", "d", "d", "d"]);
    assert_eq!(
        c.top(),
        vec![kc("d", 3), kc("c", 2), kc("b", 1), kc("a", 1)]
    );
}

#[test]
fn ties_rank_by_key_descending() {
    let c = exact_of(&["apple", "pear", "fig"]);
    assert_eq!(c.top(), vec![kc("pear", 1), kc("fig", 1), kc("apple", 1)]);
}

#[test]
fn bounded_top_never_exceeds_capacity() {
    for cap in 1..6 {
        let mut c = Counter::new(Some(cap));
        for i in 0..40u64 {
            c.add(&format!("k{}", i % 13), i % 5 + 1);
        }
        assert!(c.top().len() <= cap, "capacity {}", cap);
    }
}

#[test]
fn bounded_scenario_keeps_two_heaviest() {
    let exact = exact_of(&["a", "b", "a", "c", "a", "b"]);
    let mut bounded = Counter::new(Some(2));
    bounded.merge(exact);
    assert_eq!(bounded.top(), vec![kc("a", 3), kc("b", 2)]);
    assert_eq!(bounded.count("c"), 1);
}

#[test]
fn prune_evicts_ties_at_the_cutoff() {
    let mut c = Counter::new(Some(1));
    c.add("a", 1);
    assert_eq!(c.top(), vec![kc("a", 1)]);
    c.add("b", 1);
    assert_eq!(c.top(), vec![]);
    c.add("c", 1);
    assert_eq!(c.top(), vec![kc("c", 1)]);
    // "a" reaches 6 and becomes the only candidate, which is the cutoff too
    c.add("a", 5);
    assert_eq!(c.top(), vec![]);
    assert_eq!(c.count("a"), 6);
}

#[test]
fn prune_keeps_candidates_above_cutoff() {
    let mut c = Counter::new(Some(2));
    c.add("a", 10);
    c.add("b", 5);
    c.add("c", 7);
    c.add("d", 1);
    // cutoff is the second largest count, 7: only "a" stays
    assert_eq!(c.top(), vec![kc("a", 10)]);
    c.add("e", 6);
    assert_eq!(c.top(), vec![kc("a", 10)]);
    c.add("f", 8);
    assert_eq!(c.top(), vec![kc("a", 10), kc("f", 8)]);
}

#[test]
fn merge_adds_counts() {
    let mut a = exact_of(&["x", "y", "y"]);
    let b = exact_of(&["y", "z"]);
    a.merge(b);
    assert_eq!(a.count("x"), 1);
    assert_eq!(a.count("y"), 3);
    assert_eq!(a.count("z"), 1);
}

#[test]
fn merge_is_associative_on_exact_tallies() {
    let left = sum(sum(exact_of(&["a", "b"]), exact_of(&["b", "c"])), exact_of(&["c", "a", "a"]));
    let right = sum(exact_of(&["a", "b"]), sum(exact_of(&["b", "c"]), exact_of(&["c", "a", "a"])));
    assert_eq!(left.top(), right.top());
    assert_eq!(left.top(), vec![kc("a", 3), kc("c", 2), kc("b", 2)]);
}

#[test]
fn top_few_scenario() {
    let parts = vec![exact_of(&["a", "b", "a"]), exact_of(&["c", "a", "b"])];
    assert_eq!(top_few(parts, 2), vec![kc("a", 3), kc("b", 2)]);
}

#[test]
fn top_few_of_nothing_is_empty() {
    assert_eq!(top_few(vec![exact_of(&[])], 3), vec![]);
    assert_eq!(top_few(vec![], 3), vec![]);
}

#[test]
fn top_few_with_zero_is_empty() {
    assert_eq!(top_few(vec![exact_of(&["a", "a"])], 0), vec![]);
}

#[test]
fn add_returns_the_new_total() {
    let mut c = Counter::new(Some(3));
    assert_eq!(c.add("k", 4), 4);
    assert_eq!(c.add("k", 2), 6);
    assert_eq!(c.add("j", 0), 0);
}

#[test]
fn count_keys_counts_matched_lines() {
    let keys = vec![
        Some("a".to_string()),
        None,
        Some("b".to_string()),
        Some("a".to_string()),
    ];
    let c = count_keys(keys);
    assert_eq!(c.count("a"), 2);
    assert_eq!(c.count("b"), 1);
    assert_eq!(c.top(), vec![kc("a", 2), kc("b", 1)]);
}

#[test]
fn merging_empty_tally_changes_nothing() {
    let mut c = Counter::new(Some(2));
    c.add("a", 2);
    c.add("b", 1);
    c.merge(Counter::new(None));
    assert_eq!(c.top(), vec![kc("a", 2), kc("b", 1)]);
}

#[test]
fn top_few_identity_scenario_from_lines() {
    let lines = ["a", "b", "a", "c", "a", "b"];
    let keys: Vec<Option<String>> = lines.iter().map(|l| Some(l.to_string())).collect();
    assert_eq!(top_few(vec![count_keys(keys)], 2), vec![kc("a", 3), kc("b", 2)]);
}

#[test]
fn pipeline_scenario_over_file_bytes() {
    let data = b"a\nb\na\nc\na\nb";
    for chunk in 1..14 {
        let mut parts = Vec::new();
        let mut chunks = Chunks::new(data, chunk);
        while let Some(mut c) = chunks.next() {
            let mut keys = Vec::new();
            while let Some(line) = c.next() {
                keys.push(String::from_utf8(line).ok());
            }
            parts.push(count_keys(keys));
        }
        assert_eq!(top_few(parts, 2), vec![kc("a", 3), kc("b", 2)], "chunk {}", chunk);
    }
}

#[test]
fn pipeline_over_empty_file_is_empty() {
    let mut parts = Vec::new();
    let mut chunks = Chunks::new(b"", 8);
    while let Some(mut c) = chunks.next() {
        let mut keys = Vec::new();
        while let Some(line) = c.next() {
            keys.push(String::from_utf8(line).ok());
        }
        parts.push(count_keys(keys));
    }
    assert_eq!(parts.len(), 1);
    assert_eq!(top_few(parts, 3), vec![]);
}
