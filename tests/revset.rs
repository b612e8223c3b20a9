use revset_engine::evaluate::{
    evaluate, GenerationRange, ResolvedExpression, ResolvedPredicateExpression,
    RevsetEvaluationError,
};
use revset_engine::hex::{id_from_hex, HexPrefix};
use revset_engine::id_index::PrefixResolution;
use revset_engine::index::{CommitData, CompositeIndex};
use revset_engine::revset::{EagerRevset, FilterPredicate, InternalRevset, RevsetPredicate};

fn hex(s: &str) -> Vec<u8> {
    id_from_hex(s).unwrap()
}

fn data(description: &str, author: &str, timestamp: i64) -> CommitData {
    CommitData {
        description: description.to_string(),
        author_name: author.to_string(),
        author_email: format!("{author}@example.com"),
        committer_name: "committer".to_string(),
        committer_email: "committer@example.com".to_string(),
        committer_timestamp: timestamp,
        has_conflict: description.contains("conflict"),
        changed_paths: if description.is_empty() {
            vec![]
        } else {
            vec![format!("src/{author}/{description}.rs")]
        },
    }
}

/// Generator of unique 16-byte change ids.
fn change_id_generator() -> impl FnMut() -> Vec<u8> {
    let mut n: u128 = 0;
    move || {
        n += 1;
        n.to_le_bytes().to_vec()
    }
}

/// id_0 <- id_1 <- id_2 <- id_3 <- id_4
fn chain() -> (CompositeIndex, Vec<Vec<u8>>) {
    let mut new_change_id = change_id_generator();
    let mut index = CompositeIndex::new();
    let ids: Vec<Vec<u8>> = ["000000", "111111", "222222", "333333", "444444"]
        .iter()
        .map(|s| hex(s))
        .collect();
    assert!(index.add_commit_data(ids[0].clone(), new_change_id(), &[], data("", "", 0)));
    for i in 1..5 {
        let parents = [ids[i - 1].clone()];
        assert!(index.add_commit_data(ids[i].clone(), new_change_id(), &parents, data("", "", 0)));
    }
    (index, ids)
}

fn pos(index: &CompositeIndex, id: &Vec<u8>) -> u32 {
    index.entry_by_id(id).unwrap()
}

fn make_set(index: &CompositeIndex, ids: &[&Vec<u8>]) -> InternalRevset {
    let index_entries = ids.iter().map(|id| pos(index, id)).collect();
    InternalRevset::Eager(EagerRevset { index_entries })
}

fn make_entries(index: &CompositeIndex, ids: &[&Vec<u8>]) -> Vec<u32> {
    ids.iter().map(|id| pos(index, id)).collect()
}

#[test]
fn test_revset_combinator() {
    let (index, ids) = chain();
    let (id_0, id_1, id_2, id_3, id_4) = (&ids[0], &ids[1], &ids[2], &ids[3], &ids[4]);
    let get_entry = |id: &Vec<u8>| pos(&index, id);

    let set = make_set(&index, &[id_4, id_3, id_2, id_0]);
    let mut p = set.predicate_fn(&index);
    assert!(p.test(&index, get_entry(id_4)));
    assert!(p.test(&index, get_entry(id_3)));
    assert!(p.test(&index, get_entry(id_2)));
    assert!(!p.test(&index, get_entry(id_1)));
    assert!(p.test(&index, get_entry(id_0)));
    // Uninteresting entries can be skipped
    let mut p = set.predicate_fn(&index);
    assert!(p.test(&index, get_entry(id_3)));
    assert!(!p.test(&index, get_entry(id_1)));
    assert!(p.test(&index, get_entry(id_0)));

    let set = InternalRevset::Filter {
        candidates: Box::new(make_set(&index, &[id_4, id_2, id_0])),
        predicate: Box::new(RevsetPredicate::NotIn(Box::new(RevsetPredicate::Revset(Box::new(
            make_set(&index, &[id_4]),
        ))))),
    };
    assert_eq!(set.iter(&index), make_entries(&index, &[id_2, id_0]));
    let mut p = set.predicate_fn(&index);
    assert!(!p.test(&index, get_entry(id_4)));
    assert!(!p.test(&index, get_entry(id_3)));
    assert!(p.test(&index, get_entry(id_2)));
    assert!(!p.test(&index, get_entry(id_1)));
    assert!(p.test(&index, get_entry(id_0)));

    // Intersection by FilterRevset
    let set = InternalRevset::Filter {
        candidates: Box::new(make_set(&index, &[id_4, id_2, id_0])),
        predicate: Box::new(RevsetPredicate::Revset(Box::new(make_set(&index, &[id_3, id_2, id_1])))),
    };
    assert_eq!(set.iter(&index), make_entries(&index, &[id_2]));
    let mut p = set.predicate_fn(&index);
    assert!(!p.test(&index, get_entry(id_4)));
    assert!(!p.test(&index, get_entry(id_3)));
    assert!(p.test(&index, get_entry(id_2)));
    assert!(!p.test(&index, get_entry(id_1)));
    assert!(!p.test(&index, get_entry(id_0)));

    let set = InternalRevset::Union {
        set1: Box::new(make_set(&index, &[id_4, id_2])),
        set2: Box::new(make_set(&index, &[id_3, id_2, id_1])),
    };
    assert_eq!(set.iter(&index), make_entries(&index, &[id_4, id_3, id_2, id_1]));
    let mut p = set.predicate_fn(&index);
    assert!(p.test(&index, get_entry(id_4)));
    assert!(p.test(&index, get_entry(id_3)));
    assert!(p.test(&index, get_entry(id_2)));
    assert!(p.test(&index, get_entry(id_1)));
    assert!(!p.test(&index, get_entry(id_0)));

    let set = InternalRevset::Intersection {
        set1: Box::new(make_set(&index, &[id_4, id_2, id_0])),
        set2: Box::new(make_set(&index, &[id_3, id_2, id_1])),
    };
    assert_eq!(set.iter(&index), make_entries(&index, &[id_2]));
    let mut p = set.predicate_fn(&index);
    assert!(!p.test(&index, get_entry(id_4)));
    assert!(!p.test(&index, get_entry(id_3)));
    assert!(p.test(&index, get_entry(id_2)));
    assert!(!p.test(&index, get_entry(id_1)));
    assert!(!p.test(&index, get_entry(id_0)));

    let set = InternalRevset::Difference {
        set1: Box::new(make_set(&index, &[id_4, id_2, id_0])),
        set2: Box::new(make_set(&index, &[id_3, id_2, id_1])),
    };
    assert_eq!(set.iter(&index), make_entries(&index, &[id_4, id_0]));
    let mut p = set.predicate_fn(&index);
    assert!(p.test(&index, get_entry(id_4)));
    assert!(!p.test(&index, get_entry(id_3)));
    assert!(!p.test(&index, get_entry(id_2)));
    assert!(!p.test(&index, get_entry(id_1)));
    assert!(p.test(&index, get_entry(id_0)));
}

fn commits(ids: &[&Vec<u8>]) -> Box<ResolvedExpression> {
    Box::new(ResolvedExpression::Commits(ids.iter().map(|id| (*id).clone()).collect()))
}

const FULL: GenerationRange = GenerationRange { start: 0, end: u64::MAX };

fn eval_ids(index: &CompositeIndex, e: &ResolvedExpression) -> Vec<Vec<u8>> {
    evaluate(e, index).unwrap().iter()
}

#[test]
fn evaluate_commits_sorted_and_deduplicated() {
    let (index, ids) = chain();
    let e = ResolvedExpression::Commits(vec![ids[1].clone(), ids[3].clone(), ids[1].clone()]);
    assert_eq!(eval_ids(&index, &e), vec![ids[3].clone(), ids[1].clone()]);
}

#[test]
fn evaluate_ancestors_and_generations() {
    let (index, ids) = chain();
    let e = ResolvedExpression::Ancestors { heads: commits(&[&ids[3]]), generation: FULL };
    assert_eq!(eval_ids(&index, &e), vec![ids[3].clone(), ids[2].clone(), ids[1].clone(), ids[0].clone()]);
    let e = ResolvedExpression::Ancestors {
        heads: commits(&[&ids[4]]),
        generation: GenerationRange { start: 1, end: 3 },
    };
    assert_eq!(eval_ids(&index, &e), vec![ids[3].clone(), ids[2].clone()]);
}

#[test]
fn evaluate_generation_overflow() {
    let (index, ids) = chain();
    let e = ResolvedExpression::Ancestors {
        heads: commits(&[&ids[4]]),
        generation: GenerationRange { start: 1 << 40, end: u64::MAX - 1 },
    };
    match evaluate(&e, &index) {
        Err(err) => assert_eq!(err, RevsetEvaluationError::GenerationLowerBoundOverflow(1 << 40)),
        Ok(_) => panic!("expected an overflow"),
    }
}

#[test]
fn evaluate_range_and_dag_range() {
    let (index, ids) = chain();
    let e = ResolvedExpression::Range { roots: commits(&[&ids[1]]), heads: commits(&[&ids[3]]), generation: FULL };
    assert_eq!(eval_ids(&index, &e), vec![ids[3].clone(), ids[2].clone()]);
    let e = ResolvedExpression::DagRange { roots: commits(&[&ids[1]]), heads: commits(&[&ids[3]]), generation_from_roots: FULL };
    assert_eq!(eval_ids(&index, &e), vec![ids[3].clone(), ids[2].clone(), ids[1].clone()]);
    let e = ResolvedExpression::DagRange {
        roots: commits(&[&ids[1]]),
        heads: commits(&[&ids[4]]),
        generation_from_roots: GenerationRange { start: 1, end: 2 },
    };
    assert_eq!(eval_ids(&index, &e), vec![ids[2].clone()]);
    let e = ResolvedExpression::DagRange {
        roots: commits(&[&ids[0]]),
        heads: commits(&[&ids[4]]),
        generation_from_roots: GenerationRange { start: 2, end: 4 },
    };
    assert_eq!(eval_ids(&index, &e), vec![ids[3].clone(), ids[2].clone()]);
}

/// root <- a, root <- b, a + b <- m
fn diamond() -> (CompositeIndex, Vec<Vec<u8>>) {
    let mut new_change_id = change_id_generator();
    let mut index = CompositeIndex::new();
    let ids: Vec<Vec<u8>> = ["00", "0a", "0b", "ff"].iter().map(|s| hex(s)).collect();
    assert!(index.add_commit_data(ids[0].clone(), new_change_id(), &[], data("root", "alice", 10)));
    assert!(index.add_commit_data(ids[1].clone(), new_change_id(), &[ids[0].clone()], data("fix a bug", "bob", 30)));
    assert!(index.add_commit_data(ids[2].clone(), new_change_id(), &[ids[0].clone()], data("feature", "alice", 20)));
    let parents = [ids[1].clone(), ids[2].clone()];
    assert!(index.add_commit_data(ids[3].clone(), new_change_id(), &parents, data("merge", "carol", 20)));
    index.entries[3].data.has_conflict = true;
    (index, ids)
}

#[test]
fn add_commit_data_refuses_unknown_parent_and_duplicate() {
    let (mut index, ids) = diamond();
    assert!(!index.add_commit_data(hex("12"), hex("34"), &[hex("99")], data("", "", 0)));
    assert!(!index.add_commit_data(ids[0].clone(), hex("34"), &[], data("", "", 0)));
    assert_eq!(index.num_commits(), 4);
}

#[test]
fn evaluate_heads_and_roots() {
    let (index, ids) = diamond();
    let all = || commits(&[&ids[0], &ids[1], &ids[2], &ids[3]]);
    let e = ResolvedExpression::Heads(commits(&[&ids[0], &ids[1], &ids[2]]));
    assert_eq!(eval_ids(&index, &e), vec![ids[2].clone(), ids[1].clone()]);
    let e = ResolvedExpression::Heads(all());
    assert_eq!(eval_ids(&index, &e), vec![ids[3].clone()]);
    let e = ResolvedExpression::Roots(commits(&[&ids[1], &ids[2], &ids[3]]));
    assert_eq!(eval_ids(&index, &e), vec![ids[2].clone(), ids[1].clone()]);
    let e = ResolvedExpression::Roots(all());
    assert_eq!(eval_ids(&index, &e), vec![ids[0].clone()]);
}

#[test]
fn evaluate_latest() {
    let (index, ids) = diamond();
    let all = || commits(&[&ids[0], &ids[1], &ids[2], &ids[3]]);
    // timestamps: root 10, a 30, b 20, m 20; the tie goes to the greater position (m).
    let e = ResolvedExpression::Latest { candidates: all(), count: 2 };
    assert_eq!(eval_ids(&index, &e), vec![ids[3].clone(), ids[1].clone()]);
    let e = ResolvedExpression::Latest { candidates: all(), count: 0 };
    assert_eq!(eval_ids(&index, &e), Vec::<Vec<u8>>::new());
    let e = ResolvedExpression::Latest { candidates: all(), count: 10 };
    assert_eq!(eval_ids(&index, &e).len(), 4);
}

#[test]
fn evaluate_filters() {
    let (index, ids) = diamond();
    let all = || commits(&[&ids[0], &ids[1], &ids[2], &ids[3]]);
    let filter = |p: ResolvedPredicateExpression| ResolvedExpression::FilterWithin {
        candidates: all(),
        predicate: Box::new(p),
    };
    let e = filter(ResolvedPredicateExpression::Filter(FilterPredicate::ParentCount(2, 3)));
    assert_eq!(eval_ids(&index, &e), vec![ids[3].clone()]);
    let e = filter(ResolvedPredicateExpression::Filter(FilterPredicate::Description("bug".to_string())));
    assert_eq!(eval_ids(&index, &e), vec![ids[1].clone()]);
    let e = filter(ResolvedPredicateExpression::Filter(FilterPredicate::Author("alice".to_string())));
    assert_eq!(eval_ids(&index, &e), vec![ids[2].clone(), ids[0].clone()]);
    let e = filter(ResolvedPredicateExpression::Filter(FilterPredicate::Committer("nobody".to_string())));
    assert_eq!(eval_ids(&index, &e), Vec::<Vec<u8>>::new());
    let e = filter(ResolvedPredicateExpression::Filter(FilterPredicate::File(Some(vec![
        "src/alice".to_string(),
    ]))));
    assert_eq!(eval_ids(&index, &e), vec![ids[2].clone(), ids[0].clone()]);
    let e = filter(ResolvedPredicateExpression::Filter(FilterPredicate::File(Some(vec![
        "src/ali".to_string(),
    ]))));
    assert_eq!(eval_ids(&index, &e), Vec::<Vec<u8>>::new());
    let e = filter(ResolvedPredicateExpression::Filter(FilterPredicate::File(None)));
    assert_eq!(eval_ids(&index, &e).len(), 4);
    let e = filter(ResolvedPredicateExpression::Filter(FilterPredicate::HasConflict));
    assert_eq!(eval_ids(&index, &e), vec![ids[3].clone()]);
    let e = filter(ResolvedPredicateExpression::NotIn(Box::new(ResolvedPredicateExpression::Union(
        Box::new(ResolvedPredicateExpression::Revset(commits(&[&ids[0]]))),
        Box::new(ResolvedPredicateExpression::Filter(FilterPredicate::ParentCount(2, 10))),
    ))));
    assert_eq!(eval_ids(&index, &e), vec![ids[2].clone(), ids[1].clone()]);
}

#[test]
fn evaluate_set_operations() {
    let (index, ids) = chain();
    let e = ResolvedExpression::Union(commits(&[&ids[4], &ids[2]]), commits(&[&ids[3], &ids[2], &ids[1]]));
    assert_eq!(eval_ids(&index, &e), vec![ids[4].clone(), ids[3].clone(), ids[2].clone(), ids[1].clone()]);
    let e = ResolvedExpression::Intersection(commits(&[&ids[4], &ids[2], &ids[0]]), commits(&[&ids[3], &ids[2], &ids[1]]));
    assert_eq!(eval_ids(&index, &e), vec![ids[2].clone()]);
    let e = ResolvedExpression::Difference(commits(&[&ids[4], &ids[2], &ids[0]]), commits(&[&ids[3], &ids[2], &ids[1]]));
    assert_eq!(eval_ids(&index, &e), vec![ids[4].clone(), ids[0].clone()]);
}

#[test]
fn revset_is_empty_and_change_ids() {
    let (index, ids) = diamond();
    let e = ResolvedExpression::Commits(vec![]);
    assert!(evaluate(&e, &index).unwrap().is_empty());
    let e = ResolvedExpression::Commits(vec![ids[1].clone(), ids[3].clone()]);
    let revset = evaluate(&e, &index).unwrap();
    assert!(!revset.is_empty());
    let change_ids = revset.change_id_index();
    // change ids are 1u128 .. 4u128 in little-endian order: 01.., 02.., 03.., 04..
    assert_eq!(
        change_ids.resolve_prefix(&HexPrefix::new("02").unwrap()),
        PrefixResolution::SingleMatch(vec![ids[1].clone()])
    );
    assert_eq!(change_ids.resolve_prefix(&HexPrefix::new("0").unwrap()), PrefixResolution::AmbiguousMatch);
    assert_eq!(change_ids.resolve_prefix(&HexPrefix::new("01").unwrap()), PrefixResolution::NoMatch);
    let mut four = vec![4u8];
    four.extend(vec![0u8; 15]);
    assert_eq!(change_ids.shortest_unique_prefix_len(&four), 2);
}

#[test]
fn predicate_out_of_order_query_does_not_advance() {
    let (index, ids) = chain();
    let set = make_set(&index, &[&ids[3], &ids[1]]);
    let mut p = set.predicate_fn(&index);
    assert!(!p.test(&index, pos(&index, &ids[2])));
    let _ = p.test(&index, pos(&index, &ids[3]));
    assert!(p.test(&index, pos(&index, &ids[1])));
}

#[test]
fn empty_eager_revset() {
    let (index, _) = chain();
    let set = InternalRevset::Eager(EagerRevset::empty());
    assert_eq!(set.iter(&index), Vec::<u32>::new());
}

#[test]
fn evaluate_reports_first_overflow_in_order() {
    let (index, ids) = chain();
    let bad = |start: u64| {
        Box::new(ResolvedExpression::Ancestors {
            heads: commits(&[&ids[4]]),
            generation: GenerationRange { start, end: u64::MAX - 1 },
        })
    };
    let e = ResolvedExpression::Union(bad(1 << 40), bad(1 << 41));
    match evaluate(&e, &index) {
        Err(err) => assert_eq!(err, RevsetEvaluationError::GenerationLowerBoundOverflow(1 << 40)),
        Ok(_) => panic!("expected an overflow"),
    }
    let e = ResolvedExpression::FilterWithin {
        candidates: commits(&[&ids[0]]),
        predicate: Box::new(ResolvedPredicateExpression::NotIn(Box::new(
            ResolvedPredicateExpression::Revset(bad(1 << 35)),
        ))),
    };
    match evaluate(&e, &index) {
        Err(err) => assert_eq!(err, RevsetEvaluationError::GenerationLowerBoundOverflow(1 << 35)),
        Ok(_) => panic!("expected an overflow"),
    }
}

#[test]
fn change_id_index_finds_each_member_by_full_id() {
    let (index, ids) = diamond();
    let e = ResolvedExpression::Commits(vec![ids[0].clone(), ids[2].clone(), ids[3].clone()]);
    let revset = evaluate(&e, &index).unwrap();
    let change_ids = revset.change_id_index();
    for k in [0usize, 2, 3] {
        let hex_id: String = index.entries[k].change_id.iter().map(|b| format!("{b:02x}")).collect();
        assert_eq!(
            change_ids.resolve_prefix(&HexPrefix::new(&hex_id).unwrap()),
            PrefixResolution::SingleMatch(vec![ids[k].clone()])
        );
    }
    assert_eq!(change_ids.pos_by_change.entries.len(), 3);
}
