use intersection::drql::ast::Expr;
use intersection::drql::interpreter::InterpreterResolver;
use intersection::drql::interpreter::interpret;
use intersection::drql_reducer::LeafResolver;
use intersection::drql_reducer::ReducerOp;
use intersection::drql_reducer::run_reducers;
use intersection::idset::IdSet;

// In this case, the resolver uses some basic predefined values.
struct Resolver;

impl InterpreterResolver<String> for Resolver {
    fn model(&self) -> intersection::drql::interpreter::ResolverModel<String> {
        unreachable!()
    }

    fn resolve_string_literal(&mut self, contents: String) -> Result<IdSet, String> {
        if contents == "test_ok_case" {
            Ok(IdSet::from_vec(&vec![1]))
        } else {
            Err("error case 1".to_string())
        }
    }

    fn resolve_unknown_id(&mut self, id: String) -> Result<IdSet, String> {
        if id == "0" {
            Ok(IdSet::from_vec(&vec![2]))
        } else {
            Err("error case 2".to_string())
        }
    }

    fn resolve_user_id(&mut self, id: u64) -> Result<IdSet, String> {
        if id == 0 {
            Ok(IdSet::from_vec(&vec![3]))
        } else {
            Err("error case 3".to_string())
        }
    }

    fn resolve_role_id(&mut self, id: u64) -> Result<IdSet, String> {
        if id == 0 {
            Ok(IdSet::from_vec(&vec![4]))
        } else {
            Err("error case 4".to_string())
        }
    }
}

#[test]
fn union_ok_case() {
    assert_eq!(
        interpret(
            Expr::Union(
                Box::new(Expr::StringLiteral("test_ok_case".to_string())),
                Box::new(Expr::Union(
                    Box::new(Expr::UnknownID("0".to_string())),
                    Box::new(Expr::Union(
                        Box::new(Expr::UserID(0)),
                        Box::new(Expr::RoleID(0))
                    ))
                ))
            ),
            &mut Resolver {}
        )
        .expect("interpret should not fail")
        .to_vec(),
        vec![1, 2, 3, 4]
    );
}

#[test]
fn errors_bubble() {
    assert!(interpret(
        Expr::Union(
            Box::new(Expr::StringLiteral("7".to_string())),
            Box::new(Expr::StringLiteral("test_ok_case".to_string())),
        ),
        &mut Resolver {},
    )
    .is_err());
}

// A resolver with three fixed sets, for checking against native set algebra.
struct AbcResolver;

impl InterpreterResolver<String> for AbcResolver {
    fn model(&self) -> intersection::drql::interpreter::ResolverModel<String> {
        unreachable!()
    }

    fn resolve_string_literal(&mut self, contents: String) -> Result<IdSet, String> {
        match contents.as_str() {
            "a" => Ok(IdSet::from_vec(&vec![1, 2, 3, 4])),
            "b" => Ok(IdSet::from_vec(&vec![3, 4, 5, 6])),
            "c" => Ok(IdSet::from_vec(&vec![1, 4, 6, 7])),
            _ => Err("no such set".to_string()),
        }
    }

    fn resolve_unknown_id(&mut self, _id: String) -> Result<IdSet, String> {
        Err("unused".to_string())
    }

    fn resolve_user_id(&mut self, _id: u64) -> Result<IdSet, String> {
        Err("unused".to_string())
    }

    fn resolve_role_id(&mut self, _id: u64) -> Result<IdSet, String> {
        Err("unused".to_string())
    }
}

#[test]
fn interpreter_matches_native_set_algebra() {
    // (a | b) & c = {1,2,3,4,5,6} & {1,4,6,7} = {1,4,6}
    let tree = intersection::drql::parser::parse_drql("(a | b) & c").unwrap();
    assert_eq!(
        interpret(tree, &mut AbcResolver {}).unwrap().to_vec(),
        vec![1, 4, 6]
    );
    // a - b - c = {1,2} - {1,4,6,7} = {2}
    let tree = intersection::drql::parser::parse_drql("a - b - c").unwrap();
    assert_eq!(
        interpret(tree, &mut AbcResolver {}).unwrap().to_vec(),
        vec![2]
    );
}

#[test]
fn interpreter_error_at_any_leaf_fails_whole_call() {
    for text in ["d & a", "a & d", "(a | b) - (c & d)"] {
        let tree = intersection::drql::parser::parse_drql(text).unwrap();
        assert!(interpret(tree, &mut AbcResolver {}).is_err());
    }
}

struct EvenOdd;

impl LeafResolver<u64, String> for EvenOdd {
    fn model(&self) -> vstd::map::Map<u64, Result<vstd::set::Set<u64>, String>> {
        unreachable!()
    }

    fn resolve(&mut self, user: u64) -> Result<IdSet, String> {
        if user == 0 {
            Ok(IdSet::from_vec(&vec![2, 4, 6]))
        } else if user == 1 {
            Ok(IdSet::from_vec(&vec![1, 3, 5]))
        } else {
            Err("no such leaf".to_string())
        }
    }
}

#[test]
fn reducer_folds_tree() {
    let tree = ReducerOp::Difference(
        Box::new(ReducerOp::Union(
            Box::new(ReducerOp::User(0u64)),
            Box::new(ReducerOp::User(1u64)),
        )),
        Box::new(ReducerOp::User(1u64)),
    );
    assert_eq!(
        run_reducers(tree, &mut EvenOdd {}).unwrap().to_vec(),
        vec![2, 4, 6]
    );
    let bad = ReducerOp::Union(
        Box::new(ReducerOp::User(0u64)),
        Box::new(ReducerOp::User(9u64)),
    );
    assert!(run_reducers(bad, &mut EvenOdd {}).is_err());
}
