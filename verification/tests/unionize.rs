use intersection::idset::IdSet;
use intersection::unionize_set::NamedSet;
use intersection::unionize_set::unionize_set;

fn named(name: &str, members: Vec<u64>) -> NamedSet {
    NamedSet {
        name: name.to_string(),
        members: IdSet::from_vec(&members),
    }
}

fn sorted(mut v: Vec<String>) -> Vec<String> {
    v.sort();
    v
}

/// Target: {1, 2, 3, 4, 5, 6, 7, 8, 9, 10, 11, 12}
/// Input set 0: {1, 2, 3}
/// Input set 1: {4, 5, 6}
/// Input set 2: {7, 8, 9}
/// Output sets: [R0, R1, R2]
/// Output outliers: {10, 11, 12}
#[test]
fn unionize_set_works_with_no_overlap() {
    let target = IdSet::from_vec(&(1..=12).collect::<Vec<_>>());
    let preexisting_sets = vec![
        named("1..=3", vec![1, 2, 3]),
        named("4..=6", vec![4, 5, 6]),
        named("7..=9", vec![7, 8, 9]),
    ];

    let result = unionize_set(&target, &preexisting_sets);
    assert_eq!(
        sorted(result.sets),
        vec!["1..=3".to_string(), "4..=6".to_string(), "7..=9".to_string()]
    );
    assert_eq!(result.outliers.to_vec(), vec![10, 11, 12]);
}

/// Target: {1, 2, 3}
/// No input sets
/// Output sets: []
/// Output outliers: {1, 2, 3}
#[test]
fn unionize_set_works_given_no_input_sets() {
    let target = IdSet::from_vec(&vec![1, 2, 3]);
    let preexisting_sets: Vec<NamedSet> = Vec::new();

    let result = unionize_set(&target, &preexisting_sets);
    assert_eq!(result.sets, Vec::<String>::new());
    assert_eq!(result.outliers.to_vec(), vec![1, 2, 3]);
}

/// Target: {1, 2, 3}
/// Input set 0: {2, 3, 7}
/// Output sets: []
/// Output outliers: {1, 2, 3}
#[test]
fn unionize_set_ignores_non_subsets_of_target() {
    let target = IdSet::from_vec(&vec![1, 2, 3]);
    let preexisting_sets = vec![named("not a subset", vec![2, 3, 7])];

    let result = unionize_set(&target, &preexisting_sets);
    assert_eq!(result.sets, Vec::<String>::new());
    assert_eq!(result.outliers.to_vec(), vec![1, 2, 3]);
}

/// Target: {1, 2, 3}
/// Input set 0: {1, 2, 3}
/// Input set 1: {1, 2, 3}
/// Output sets: [R0] or [R1] (either solution is correct)
/// Output outliers: {}
#[test]
fn unionize_set_works_with_equal_sets() {
    let target = IdSet::from_vec(&vec![1, 2, 3]);
    let preexisting_sets = vec![named("A", vec![1, 2, 3]), named("B", vec![1, 2, 3])];

    let result = unionize_set(&target, &preexisting_sets);
    assert_eq!(result.outliers.to_vec(), Vec::<u64>::new());
    assert_eq!(result.sets.len(), 1);
    assert!(result.sets == vec!["A".to_string()] || result.sets == vec!["B".to_string()]);
}

/// Target: {1, 2, 3, 4, 5}
/// Input set 0: {1, 2, 3, 4}
/// Input set 1: {2, 3}
/// Input set 2: {4, 5}
/// Output sets: [R0, R2] (R1 is redundant)
/// Output outliers: {}
#[test]
fn unionize_set_removes_redundant_sets() {
    let target = IdSet::from_vec(&vec![1, 2, 3, 4, 5]);
    let preexisting_sets = vec![
        named("A", vec![1, 2, 3, 4]),
        named("B", vec![2, 3]),
        named("C", vec![4, 5]),
    ];

    let result = unionize_set(&target, &preexisting_sets);
    assert_eq!(sorted(result.sets), vec!["A".to_string(), "C".to_string()]);
    assert_eq!(result.outliers.to_vec(), Vec::<u64>::new());
}

/// Target: {1, 2, 3, 4}
/// Input set 0: {1, 2}
/// Input set 1: {2, 3}
/// Input set 2: {3, 4}
/// Output sets: [R0, R2] (R1 is redundant)
/// Output outliers: {}
#[test]
fn unionize_set_works_with_overlap() {
    let target = IdSet::from_vec(&vec![1, 2, 3, 4]);
    let preexisting_sets = vec![
        named("A", vec![1, 2]),
        named("B", vec![2, 3]),
        named("C", vec![3, 4]),
    ];

    let result = unionize_set(&target, &preexisting_sets);
    assert_eq!(sorted(result.sets), vec!["A".to_string(), "C".to_string()]);
    assert_eq!(result.outliers.to_vec(), Vec::<u64>::new());
}

/// Target: {1..10}, candidates A:{1,2,3,4}, B:{2,3}, C:{4,5}.
/// A and C are chosen (B is redundant); 6..10 are outliers.
#[test]
fn unionize_set_prefers_covering_sets() {
    let target = IdSet::from_vec(&(1..=10).collect::<Vec<_>>());
    let preexisting_sets = vec![
        named("A", vec![1, 2, 3, 4]),
        named("B", vec![2, 3]),
        named("C", vec![4, 5]),
    ];

    let result = unionize_set(&target, &preexisting_sets);
    assert_eq!(sorted(result.sets), vec!["A".to_string(), "C".to_string()]);
    assert_eq!(result.outliers.to_vec(), vec![6, 7, 8, 9, 10]);
}

/// For a messier input, the exact-cover guarantee holds: the union of the
/// chosen sets' members plus the outliers is exactly the target, and every
/// chosen set is inside the target.
#[test]
fn unionize_set_covers_exactly() {
    let target = IdSet::from_vec(&(0..40).map(|x| x * 3).collect::<Vec<_>>());
    let preexisting_sets = vec![
        named("p", (0..10).map(|x| x * 3).collect()),
        named("q", (5..20).map(|x| x * 3).collect()),
        named("r", (15..30).map(|x| x * 3).collect()),
        named("s", vec![3, 9, 27, 81]),
        named("t", vec![33, 66, 99]),
    ];

    let result = unionize_set(&target, &preexisting_sets);
    let mut covered: Vec<u64> = result.outliers.to_vec();
    for name in &result.sets {
        let members = preexisting_sets
            .iter()
            .find(|c| &c.name == name)
            .expect("chosen name must be a candidate")
            .members
            .to_vec();
        for v in members {
            assert!(target.contains(v), "chosen set must be inside the target");
            if !covered.contains(&v) {
                covered.push(v);
            }
        }
    }
    covered.sort();
    assert_eq!(covered, target.to_vec());
}

/// Candidates with no members are never chosen; in particular an empty
/// target chooses nothing.
#[test]
fn unionize_set_never_chooses_empty_sets() {
    let target = IdSet::from_vec(&vec![1, 2]);
    let preexisting_sets = vec![named("E", vec![]), named("A", vec![1, 2])];
    let result = unionize_set(&target, &preexisting_sets);
    assert_eq!(result.sets, vec!["A".to_string()]);
    assert_eq!(result.outliers.to_vec(), Vec::<u64>::new());

    let empty_target = IdSet::new();
    let result = unionize_set(&empty_target, &preexisting_sets);
    assert_eq!(result.sets, Vec::<String>::new());
    assert_eq!(result.outliers.to_vec(), Vec::<u64>::new());
}
