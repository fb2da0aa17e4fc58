use intersection::drql::interpreter::InterpreterResolver;
use intersection::idset::IdSet;
use intersection::mention::Mention;
use intersection::mention::RoleType;
use intersection::query::EvaluateError;
use intersection::query::parse_and_evaluate_query;

#[test]
fn idset_operations_are_exact() {
    let a = IdSet::from_vec(&vec![5, 1, 3, 1, 5]);
    assert_eq!(a.to_vec(), vec![1, 3, 5]);
    let b = IdSet::from_vec(&vec![3, 4, 5]);
    assert_eq!(a.union(&b).to_vec(), vec![1, 3, 4, 5]);
    assert_eq!(a.intersection(&b).to_vec(), vec![3, 5]);
    assert_eq!(a.difference(&b).to_vec(), vec![1]);
    assert!(!a.is_subset(&b));
    assert!(IdSet::from_vec(&vec![3, 5]).is_subset(&b));
    assert!(a.contains(3));
    assert!(!a.contains(2));
    assert_eq!(a.len(), 3);
    assert!(IdSet::new().is_empty());
    assert_eq!(IdSet::singleton(9).to_vec(), vec![9]);
}

#[test]
fn mentions_render_as_message_text() {
    assert_eq!(Mention::User(123).render(), "<@123>");
    assert_eq!(Mention::Role(RoleType::Role(789)).render(), "<@&789>");
    assert_eq!(Mention::Role(RoleType::Everyone).render(), "@everyone");
    assert_eq!(Mention::Role(RoleType::Here).render(), "@here");
    assert_eq!(Mention::User(0).render(), "<@0>");
    assert_eq!(
        Mention::User(u64::MAX).render(),
        "<@18446744073709551615>"
    );
}

struct TwoSets;

impl InterpreterResolver<String> for TwoSets {
    fn model(&self) -> intersection::drql::interpreter::ResolverModel<String> {
        unreachable!()
    }

    fn resolve_string_literal(&mut self, contents: String) -> Result<IdSet, String> {
        match contents.as_str() {
            "a" => Ok(IdSet::from_vec(&vec![1, 2])),
            "b" => Ok(IdSet::from_vec(&vec![2, 3])),
            _ => Err("unknown name".to_string()),
        }
    }

    fn resolve_unknown_id(&mut self, _id: String) -> Result<IdSet, String> {
        Err("unused".to_string())
    }

    fn resolve_user_id(&mut self, _id: u64) -> Result<IdSet, String> {
        Err("unused".to_string())
    }

    fn resolve_role_id(&mut self, _id: u64) -> Result<IdSet, String> {
        Err("unused".to_string())
    }
}

#[test]
fn query_chunks_fold_by_union() {
    let chunks = vec!["a - b".to_string(), "b".to_string()];
    let result = parse_and_evaluate_query(&chunks, &mut TwoSets {}).unwrap();
    assert_eq!(result.to_vec(), vec![1, 2, 3]);
}

#[test]
fn query_reports_failing_chunk() {
    let chunks = vec!["a".to_string(), "b +".to_string()];
    match parse_and_evaluate_query(&chunks, &mut TwoSets {}) {
        Err(EvaluateError::Parse { chunk, .. }) => assert_eq!(chunk, 1),
        other => panic!("expected a parse error, got {:?}", other.is_ok()),
    }
}

#[test]
fn query_empty_batch_is_no_query() {
    assert!(matches!(
        parse_and_evaluate_query(&Vec::new(), &mut TwoSets {}),
        Err(EvaluateError::NoQuery)
    ));
}

#[test]
fn query_resolver_error_aborts() {
    let chunks = vec!["a + nope".to_string()];
    assert!(matches!(
        parse_and_evaluate_query(&chunks, &mut TwoSets {}),
        Err(EvaluateError::Resolve(_))
    ));
}
