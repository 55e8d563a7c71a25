use kvist::ast::{Expression, Node};
use kvist::environment::Environment;
use kvist::error::EvaluationError;
use kvist::evaluation::{
    array_index, bind_call, form_step, needs_argument, resolve_identifier, single_operand_check, spread_to_single,
    FormStep, Head, IndexError, Item,
};
use kvist::parser::parse;

/// The parameters and vararg of the function literal in `source`.
fn signature(source: &str) -> (Vec<Node>, Option<Box<Node>>) {
    let mut program = parse(source).unwrap();
    let node = program.nodes.remove(0);
    match node.expression {
        Expression::Function(parameters, vararg, _) => (parameters, vararg),
        other => panic!("Expected function got={:?}", other),
    }
}

#[test]
fn arguments_are_evaluated_until_parameters_are_filled() {
    assert!(needs_argument(2, 0, 1, 4));
    assert!(needs_argument(2, 1, 2, 4));
    assert!(!needs_argument(2, 2, 3, 4));
    assert!(!needs_argument(2, 1, 4, 4));
    assert!(!needs_argument(0, 0, 1, 3));
}

#[test]
fn parameters_bind_in_order_and_vararg_takes_the_rest() {
    let (parameters, vararg) = signature("(fn |a b ...c| (+ a b (len c)))");
    let (bindings, rest) = bind_call(&parameters, &vararg, vec![1, 2, 3], vec![4]).unwrap();
    assert_eq!(vec![("a".to_string(), 1), ("b".to_string(), 2)], bindings);
    assert_eq!(Some(("c".to_string(), vec![3, 4])), rest);

    let (parameters, vararg) = signature("(fn |a| a)");
    let (bindings, rest) = bind_call(&parameters, &vararg, vec![7, 8], vec![9]).unwrap();
    assert_eq!(vec![("a".to_string(), 7)], bindings);
    assert_eq!(None, rest);
}

#[test]
fn missing_parameter_value_is_reported() {
    let (parameters, vararg) = signature("(fn |a b| a)");
    assert_eq!(Err("Missing parameter value for b".to_string()), bind_call(&parameters, &vararg, vec![1], vec![]));
    let (parameters, vararg) = signature("(fn |x ...y| x)");
    assert_eq!(Err("Missing parameter value for x".to_string()), bind_call::<i32>(&parameters, &vararg, vec![], vec![]));
}

#[test]
fn forms_are_classified_by_their_first_value() {
    assert_eq!(FormStep::Unit, form_step(0, None));
    assert_eq!(FormStep::Call, form_step(1, Some(Head::Function)));
    assert_eq!(FormStep::CallBuiltin, form_step(3, Some(Head::Builtin)));
    assert_eq!(FormStep::Sequence, form_step(3, Some(Head::Other)));
    assert_eq!(FormStep::Single, form_step(1, Some(Head::Other)));
}

#[test]
fn spreads_collapse_to_their_last_element() {
    assert_eq!(0, spread_to_single(None, 0));
    assert_eq!(5, spread_to_single(Some(Item::Plain(5)), 0));
    assert_eq!(3, spread_to_single(Some(Item::Spread(vec![1, 2, 3])), 0));
    assert_eq!(0, spread_to_single(Some(Item::Spread(vec![])), 0));
}

#[test]
fn array_index_bounds() {
    assert_eq!(Ok(1), array_index(1, 3));
    assert_eq!(Err(IndexError::OutOfBounds { index: 5, length: 3 }), array_index(5, 3));
    assert_eq!(Err(IndexError::OutOfBounds { index: 0, length: 0 }), array_index(0, 0));
    assert_eq!(Err(IndexError::Negative), array_index(-1, 3));
}

#[test]
fn unbound_identifier_is_an_error() {
    let mut env: Environment<i32> = Environment::new();
    env.set(0, "y".to_string(), 4);
    assert_eq!(
        Err(EvaluationError::Simple("No binding for identifier 'x'".to_string())),
        resolve_identifier(&env, 0, &"x".to_string(), None)
    );
    assert_eq!(Ok(&4), resolve_identifier(&env, 0, &"y".to_string(), Some(&9)));
    assert_eq!(Ok(&9), resolve_identifier(&env, 0, &"len".to_string(), Some(&9)));
}

#[test]
fn not_takes_one_operand() {
    assert_eq!(
        Err(EvaluationError::Simple("Operator ! expects only 1 operand".to_string())),
        single_operand_check(true)
    );
    assert_eq!(Ok(()), single_operand_check(false));
}
