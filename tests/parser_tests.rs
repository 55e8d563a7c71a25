use kvist::ast::{Expression, Node, Program};
use kvist::error::{ContextualEvaluationError, EvaluationError, ParseError};
use kvist::lexer::Lexer;
use kvist::literal::parse_integer;
use kvist::parser::{parse, Parser};

enum Expected {
    Integer(i32),
    Boolean(bool),
    Identifier(&'static str),
}

fn program_of(input: &str) -> Program {
    let lexer = Lexer::new(input);
    let parser = Parser::new(lexer);
    parser.parse_program().unwrap()
}

fn errors_of(input: &str) -> Vec<ParseError> {
    match parse(input) {
        Ok(program) => panic!("expected errors, got {:?}", program.nodes),
        Err(errors) => errors,
    }
}

fn assert_expression(expected: &Expected, expression: &Expression) {
    match expected {
        Expected::Integer(value) => assert_eq!(&Expression::Integer(*value), expression),
        Expected::Boolean(value) => assert_eq!(&Expression::Boolean(*value), expression),
        Expected::Identifier(name) => assert_identifier(name, expression),
    }
}

fn assert_identifier(expected: &str, expression: &Expression) {
    let Expression::Identifier(identifier) = expression else {
        panic!("expression is not Identifier. got={:?}", expression)
    };
    assert_eq!(expected, identifier.as_str());
}

fn assert_nodes(expected: &[Expected], nodes: &[Node]) {
    assert_eq!(expected.len(), nodes.len(), "nodes does not match expected length");
    for (index, expected) in expected.iter().enumerate() {
        assert_expression(expected, &nodes[index].expression);
    }
}

#[test]
fn parser_test_test_set_expression() {
    let tests = [
        ("(set (x 5))", "x", Expected::Integer(5)),
        ("(set (y true))", "y", Expected::Boolean(true)),
        ("(set (foobar y))", "foobar", Expected::Identifier("y")),
    ];
    for (input, expected_identifier, expected_value) in tests {
        let program = program_of(input);
        assert_eq!(1, program.nodes.len(), "Expected 1 node in program for input: {input}");
        let Expression::SetForm(variables) = &program.nodes[0].expression else {
            panic!("Expected set-expression got={:?}", program.nodes[0].expression);
        };
        let Some((name, value)) = variables.first() else {
            panic!("Expected name and value");
        };
        assert_identifier(expected_identifier, &name.expression);
        assert_expression(&expected_value, &value.expression);
    }
}

#[test]
fn test_section_expression() {
    let tests = [
        ("(§(set (x 5)))", "x", Expected::Integer(5)),
        ("(§(set (y true)))", "y", Expected::Boolean(true)),
    ];
    for (input, expected_identifier, expected_value) in tests {
        let program = program_of(input);
        assert_eq!(1, program.nodes.len(), "Expected 1 node in program for input: {input}");
        let Expression::Section(set) = &program.nodes[0].expression else {
            panic!("Expected section-expression got={:?}", program.nodes[0].expression);
        };
        let Expression::SetForm(ref variables) = set.expression else {
            panic!("Expected set-expression got={:?}", program.nodes[0].expression);
        };
        let Some((name, value)) = variables.first() else {
            panic!("Expected name and value");
        };
        assert_identifier(expected_identifier, &name.expression);
        assert_expression(&expected_value, &value.expression);
    }
}

#[test]
fn test_parsing_prefix_expression() {
    let prefix_test = [
        ("(+ 1 2 3)", "+", [Expected::Integer(1), Expected::Integer(2), Expected::Integer(3)]),
        ("(- 1 2 3)", "-", [Expected::Integer(1), Expected::Integer(2), Expected::Integer(3)]),
        ("(* 1 2 3)", "*", [Expected::Integer(1), Expected::Integer(2), Expected::Integer(3)]),
        ("(/ 1 2 3)", "/", [Expected::Integer(1), Expected::Integer(2), Expected::Integer(3)]),
        ("(= 1 2 3)", "=", [Expected::Integer(1), Expected::Integer(2), Expected::Integer(3)]),
        ("(< 1 2 3)", "<", [Expected::Integer(1), Expected::Integer(2), Expected::Integer(3)]),
        ("(> 1 2 3)", ">", [Expected::Integer(1), Expected::Integer(2), Expected::Integer(3)]),
        ("(! true 2 3)", "!", [Expected::Boolean(true), Expected::Integer(2), Expected::Integer(3)]),
    ];
    for (input, expected_operator, expected_operands) in prefix_test {
        let program = program_of(input);
        assert_eq!(1, program.nodes.len(), "Expected 1 node in program for input: {input}");
        let Expression::Operator(operator, operands) = &program.nodes[0].expression else {
            panic!("Expected prefix-expression got={:?}", program.nodes[0].expression);
        };
        assert_eq!(expected_operator, operator.as_str());
        assert_nodes(expected_operands.as_ref(), operands);
    }
}

#[test]
fn test_float_expression() {
    let tests = [("6.", 6.0f64), ("7.7", 7.7f64)];
    for (input, expected) in tests {
        let program = program_of(input);
        assert_eq!(1, program.nodes.len(), "Expected 1 node in program for input: {input}");
        let Expression::Float(value) = &program.nodes[0].expression else {
            panic!("Expected prefix-expression got={:?}", program.nodes[0].expression);
        };
        assert_eq!(input, value.as_str());
        assert_eq!(expected, value.parse::<f64>().unwrap());
    }
}

#[test]
fn test_expression_literal() {
    let input = "(1 2)";
    let program = program_of(input);
    assert_eq!(1, program.nodes.len(), "Expected 1 node in program for input: {input}");
    let Expression::ExpressionLiteral(nodes) = &program.nodes[0].expression else {
        panic!("Expected prefix-expression got={:?}", program.nodes[0].expression);
    };
    assert_eq!(2, nodes.len());
    assert_eq!(Expression::Integer(1), nodes[0].expression);
    assert_eq!(Expression::Integer(2), nodes[1].expression);
}

#[test]
fn test_empty_expression_literal() {
    let input = "()";
    let program = program_of(input);
    assert_eq!(1, program.nodes.len(), "Expected 1 node in program for input: {input}");
    let Expression::ExpressionLiteral(value) = &program.nodes[0].expression else {
        panic!("Expected SExpression expression got={:?}", program.nodes[0].expression);
    };
    assert!(value.is_empty())
}

#[test]
fn test_string_literal() {
    let input = "\"This is text\"";
    let program = program_of(input);
    assert_eq!(1, program.nodes.len(), "Expected 1 node in program for input: {input}");
    let Expression::String(value) = &program.nodes[0].expression else {
        panic!("Expected SExpression expression got={:?}", program.nodes[0].expression);
    };
    assert_eq!("This is text", value.as_str())
}

#[test]
fn test_array_expression() {
    let text = |s: &str| Expression::String(s.to_string());
    let float = |s: &str| Expression::Float(s.to_string());
    let tests = [
        ("[1 2 3]", Expression::Integer(1), Expression::Integer(2), Expression::Integer(3)),
        ("[1 7.4 3]", Expression::Integer(1), float("7.4"), Expression::Integer(3)),
        ("[1 7.4 true]", Expression::Integer(1), float("7.4"), Expression::Boolean(true)),
        ("[() 4 true]", Expression::ExpressionLiteral(vec![]), Expression::Integer(4), Expression::Boolean(true)),
        ("[\"text\" 4 true]", text("text"), Expression::Integer(4), Expression::Boolean(true)),
        ("[\"text\" \" \" \"string\"]", text("text"), text(" "), text("string")),
    ];
    for (input, first, second, third) in tests {
        let program = program_of(input);
        assert_eq!(1, program.nodes.len(), "Expected 1 node in program for input: {input}");
        let Expression::Array(nodes) = &program.nodes[0].expression else {
            panic!("Expected array-expression got={:?}", program.nodes[0].expression);
        };
        assert_eq!(3, nodes.len(), "input {input}");
        assert_eq!(first, nodes[0].expression, "input {input}");
        assert_eq!(second, nodes[1].expression, "input {input}");
        assert_eq!(third, nodes[2].expression, "input {input}");
    }
}

#[test]
fn test_array_index_expression() {
    let input = "(@ 1 [1 2 3])";
    let program = program_of(input);
    assert_eq!(1, program.nodes.len(), "Expected 1 node in program for input: {input}");
    let Expression::Index(index, operand) = &program.nodes[0].expression else {
        panic!("Expected index-expression got={:?}", program.nodes[0].expression);
    };
    assert_eq!(Expression::Integer(1), index.expression);
    let Expression::Array(ref nodes) = operand.expression else {
        panic!("Expected array-expression got={:?}", program.nodes[0].expression);
    };
    assert_eq!(3, nodes.len(), "input {input}");
    assert_eq!(Expression::Integer(1), nodes[0].expression, "input {input}");
    assert_eq!(Expression::Integer(2), nodes[1].expression, "input {input}");
    assert_eq!(Expression::Integer(3), nodes[2].expression, "input {input}");

    let input = "(@ 1 foobar)";
    let program = program_of(input);
    assert_eq!(1, program.nodes.len(), "Expected 1 node in program for input: {input}");
    let Expression::Index(index, operand) = &program.nodes[0].expression else {
        panic!("Expected index-expression got={:?}", program.nodes[0].expression);
    };
    assert_eq!(Expression::Integer(1), index.expression);
    assert_identifier("foobar", &operand.expression);
}

#[test]
fn parser_test_test_if_expression() {
    let input = "(if (< 1 2) x)";
    let program = program_of(input);
    assert_eq!(1, program.nodes.len(), "Expected 1 node in program for input: {input}");
    let Expression::If(condition, consequence, None) = &program.nodes[0].expression else {
        panic!("Expected if-expression with no alternative got={:?}", program.nodes[0].expression);
    };
    let Expression::Operator(ref prefix, ref operands) = condition.expression else {
        panic!("Expected condition got {condition:?}");
    };
    assert_eq!("<", prefix.as_str());
    assert_nodes([Expected::Integer(1), Expected::Integer(2)].as_ref(), operands);
    assert_identifier("x", &consequence.expression);
}

#[test]
fn test_if_else_expression() {
    let input = "(if (< 1 2) x y)";
    let program = program_of(input);
    assert_eq!(1, program.nodes.len(), "Expected 1 node in program for input: {input}");
    let Expression::If(condition, consequence, Some(alternative)) = &program.nodes[0].expression else {
        panic!("Expected if-expression with alternative got={:?}", program.nodes[0].expression);
    };
    let Expression::Operator(ref prefix, ref operands) = condition.expression else {
        panic!("Expected condition got {condition:?}");
    };
    assert_eq!("<", prefix.as_str());
    assert_nodes([Expected::Integer(1), Expected::Integer(2)].as_ref(), operands);
    assert_identifier("x", &consequence.expression);
    assert_identifier("y", &alternative.expression);
}

#[test]
fn test_when_expression() {
    let input = "(when (< 1 2) x (false) y)";
    let program = program_of(input);
    assert_eq!(1, program.nodes.len(), "Expected 1 node in program for input: {input}");
    let Expression::When(branches) = &program.nodes[0].expression else {
        panic!("Expected if-expression with alternative got={:?}", program.nodes[0].expression);
    };
    let (ref condition, ref consequence) = branches[0];
    let Expression::Operator(ref prefix, ref operands) = condition.expression else {
        panic!("Expected condition got {condition:?}");
    };
    assert_eq!("<", prefix.as_str());
    assert_nodes([Expected::Integer(1), Expected::Integer(2)].as_ref(), operands);
    assert_identifier("x", &consequence.expression);

    let (ref condition, ref consequence) = branches[1];
    let Expression::ExpressionLiteral(ref condition) = condition.expression else {
        panic!("Expected expression got {condition:?}");
    };
    assert_eq!(1, condition.len());
    let Expression::Boolean(ref boolean) = condition[0].expression else {
        panic!("Expected boolean got {condition:?}");
    };
    assert_eq!(false, *boolean);
    assert_identifier("y", &consequence.expression);
}

#[test]
fn test_integer_literal_if_else_expression() {
    let input = "(if (< 1 2) 1 2)";
    let program = program_of(input);
    assert_eq!(1, program.nodes.len(), "Expected 1 node in program for input: {input}");
    let Expression::If(condition, consequence, Some(alternative)) = &program.nodes[0].expression else {
        panic!("Expected if-expression with alternative got={:?}", program.nodes[0].expression);
    };
    let Expression::Operator(ref prefix, ref operands) = condition.expression else {
        panic!("Expected condition got {condition:?}");
    };
    assert_eq!("<", prefix.as_str());
    assert_nodes([Expected::Integer(1), Expected::Integer(2)].as_ref(), operands);
    assert_eq!(Expression::Integer(1), consequence.expression);
    assert_eq!(Expression::Integer(2), alternative.expression);
}

#[test]
fn test_while_loop() {
    let input = "(while (set (a 0)) \"test\")";
    let program = program_of(input);
    assert_eq!(1, program.nodes.len(), "Expected 1 node in program for input: {input}");
    let Expression::While(condition, Some(loop_body)) = &program.nodes[0].expression else {
        panic!("Expected while-expression with alternative got={:?}", program.nodes[0].expression);
    };
    let Expression::SetForm(ref variables) = condition.expression else {
        panic!("Expected set-expression got={:?}", program.nodes[0].expression);
    };
    let Some((ref name, ref value)) = variables.first() else {
        panic!("Expected name and value");
    };
    assert_identifier("a", &name.expression);
    assert_eq!(Expression::Integer(0), value.expression);
    assert_eq!(Expression::String("test".to_string()), loop_body.expression);
}

#[test]
fn test_function() {
    let input = "(fn |a b c| (+ a b c))";
    let program = program_of(input);
    assert_eq!(1, program.nodes.len(), "Expected 1 node in program for input: {input}");
    let Expression::Function(parameter, vararg, body) = &program.nodes[0].expression else {
        panic!("Expected function-expression with alternative got={:?}", program.nodes[0].expression);
    };
    assert_eq!(3, parameter.len());
    assert_identifier("a", &parameter[0].expression);
    assert_identifier("b", &parameter[1].expression);
    assert_identifier("c", &parameter[2].expression);
    assert!(vararg.is_none());
    let Expression::Operator(operator, operands) = &body.expression else {
        panic!("Expected prefix-expression got={:?}", body);
    };
    assert_eq!("+", operator.as_str());
    assert_nodes([Expected::Identifier("a"), Expected::Identifier("b"), Expected::Identifier("c")].as_ref(), operands);
}

#[test]
fn test_vararg_function() {
    let input = "(fn |a b ...c| (+ a b c))";
    let program = program_of(input);
    assert_eq!(1, program.nodes.len(), "Expected 1 node in program for input: {input}");
    let Expression::Function(parameter, vararg, body) = &program.nodes[0].expression else {
        panic!("Expected function-expression with alternative got={:?}", program.nodes[0].expression);
    };
    assert_eq!(2, parameter.len());
    assert_identifier("a", &parameter[0].expression);
    assert_identifier("b", &parameter[1].expression);
    assert_identifier("c", &vararg.as_ref().unwrap().expression);
    let Expression::Operator(operator, operands) = &body.expression else {
        panic!("Expected prefix-expression got={:?}", body);
    };
    assert_eq!("+", operator.as_str());
    assert_nodes([Expected::Identifier("a"), Expected::Identifier("b"), Expected::Identifier("c")].as_ref(), operands);
}

#[test]
fn test_include_expression() {
    let input = "(include \"file.kvist\")";
    let program = program_of(input);
    assert_eq!(1, program.nodes.len(), "Expected 1 node in program for input: {input}");
    let Expression::Include(file) = &program.nodes[0].expression else {
        panic!("Expected index-expression got={:?}", program.nodes[0].expression);
    };
    assert_eq!(Expression::String("file.kvist".to_string()), file.expression);
}

#[test]
fn vararg_function_with_call_body() {
    let program = program_of("(fn |a b ...c| (+ a b (len c)))");
    let Expression::Function(parameters, vararg, body) = &program.nodes[0].expression else {
        panic!("Expected function got={:?}", program.nodes[0].expression);
    };
    assert_eq!(2, parameters.len());
    assert_identifier("a", &parameters[0].expression);
    assert_identifier("b", &parameters[1].expression);
    assert_identifier("c", &vararg.as_ref().unwrap().expression);
    let Expression::Operator(operator, operands) = &body.expression else {
        panic!("Expected operator got={:?}", body);
    };
    assert_eq!("+", operator.as_str());
    assert_eq!(3, operands.len());
    assert_identifier("a", &operands[0].expression);
    assert_identifier("b", &operands[1].expression);
    let Expression::ExpressionLiteral(call) = &operands[2].expression else {
        panic!("Expected call got={:?}", operands[2]);
    };
    assert_identifier("len", &call[0].expression);
    assert_identifier("c", &call[1].expression);
}

#[test]
fn index_of_identifier_keeps_at_position() {
    let program = program_of("  (@ 1 foo)");
    assert_eq!(1, program.nodes.len());
    let node = &program.nodes[0];
    assert_eq!((4, 1), (node.token.col, node.token.row));
    let Expression::Index(index, operand) = &node.expression else {
        panic!("Expected index got={:?}", node.expression);
    };
    assert_eq!(Expression::Integer(1), index.expression);
    assert_identifier("foo", &operand.expression);
}

#[test]
fn errors_carry_position_and_message() {
    let errors = errors_of("(set x)");
    assert_eq!(2, errors.len());
    assert_eq!((6, 1), (errors[0].col, errors[0].row));
    assert_eq!("Expected next token to be LParen but got Ident", errors[0].message);

    let errors = errors_of("(set (x 5 6))");
    assert_eq!("Expected closing parenthesis", errors[0].message);
    assert_eq!((11, 1), (errors[0].col, errors[0].row));

    let errors = errors_of("(include x)");
    assert_eq!("Expected next token to be String but got Ident", errors[0].message);
    assert_eq!((10, 1), (errors[0].col, errors[0].row));

    let errors = errors_of("(+ 1");
    assert_eq!("Unexpected end of file", errors[0].message);

    let errors = errors_of("(@ 1 2 3)");
    assert_eq!("Expected closing parenthesis", errors[0].message);
    assert_eq!((8, 1), (errors[0].col, errors[0].row));

    let errors = errors_of("(when (true))");
    assert_eq!("Expected consequence for condition in when-expression", errors[0].message);

    let errors = errors_of("(fn |...a b| a)");
    assert_eq!("Expected vararg identifier to be last in parameter list.", errors[0].message);

    let errors = errors_of("(fn |1| a)");
    assert_eq!("Expected function parameters names.", errors[0].message);

    let errors = errors_of("99999999999");
    assert_eq!("Could not parse 99999999999 as integer", errors[0].message);

    let errors = errors_of("}");
    assert_eq!("Could not parse prefix token type 'RBrace' with literal '}'", errors[0].message);
}

#[test]
fn every_error_is_reported() {
    let errors = errors_of("} ] (+ 1 2) :");
    assert_eq!(3, errors.len());
    assert_eq!((1, 1), (errors[0].col, errors[0].row));
    assert_eq!((3, 1), (errors[1].col, errors[1].row));
    assert_eq!((13, 1), (errors[2].col, errors[2].row));
}

#[test]
fn integer_literals() {
    assert_eq!(Some(0), parse_integer("0"));
    assert_eq!(Some(-12), parse_integer("-12"));
    assert_eq!(Some(2147483647), parse_integer("2147483647"));
    assert_eq!(Some(-2147483648), parse_integer("-2147483648"));
    assert_eq!(None, parse_integer("2147483648"));
    assert_eq!(None, parse_integer("-2147483649"));
    assert_eq!(None, parse_integer("-"));
    assert_eq!(None, parse_integer(""));
    assert_eq!(None, parse_integer("1a"));
}

#[test]
fn plain_errors_take_the_position_of_their_node() {
    let program = program_of("(@ 5 [1 2 3])");
    let node = &program.nodes[0];
    assert_eq!("@", node.token.literal.as_str());
    let plain = EvaluationError::Simple("Array index out of bounds index was '5' but length was '3'.".to_string());
    let expected = EvaluationError::Contextual(ContextualEvaluationError {
        col: 2,
        row: 1,
        message: "Array index out of bounds index was '5' but length was '3'.".to_string(),
    });
    assert_eq!(expected, plain.in_context(node));
    let inner = EvaluationError::Contextual(ContextualEvaluationError { col: 9, row: 4, message: "deeper".to_string() });
    assert_eq!(
        EvaluationError::Contextual(ContextualEvaluationError { col: 9, row: 4, message: "deeper".to_string() }),
        inner.in_context(node)
    );
    assert_eq!(EvaluationError::Simple("x".to_string()), EvaluationError::from("x".to_string()));
}

#[test]
fn copies_are_equal() {
    let program = program_of("(set (f (fn |a ...b| (when (= a 1) [..b] (true) (§ (@ 0 b)))))) (while (f 1 2))");
    for node in program.nodes.iter() {
        assert_eq!(*node, node.copy());
    }
}
