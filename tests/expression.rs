use faceted::{Expression, ExpressionTokenizer, ParseErrorKind};

#[test]
fn decimal_num_1_to_string() {
    let e1 = Expression::DecConst(123, 2);
    assert_eq!(e1.to_string(), "1.23");

    let e2 = Expression::DecConst(99, 0);
    assert_eq!(e2.to_string(), "99");

    let e3 = Expression::DecConst(70000, 1);
    assert_eq!(e3.to_string(), "7000.0");
}

#[test]
fn add_1_to_string() {
    let e1 = Expression::IntConst(5);
    let e2 = Expression::Variable(String::from("age"));
    let b1 = Box::new(e1);
    let b2 = Box::new(e2);

    let added = Expression::Add(b1, b2);

    assert_eq!(added.to_string(), "add(5, age)");
}

#[test]
fn add_2_to_string() {
    let age = Expression::Variable(String::from("age"));
    let sum_age = Expression::Sum(Box::new(age));
    let one = Expression::IntConst(1);
    let add_one = Expression::Add(Box::new(sum_age), Box::new(one));

    assert_eq!(add_one.to_string(), "add(sum(age), 1)");
}

#[test]
fn sum_1_to_string() {
    let e1 = Expression::IntConst(5);
    let e2 = Expression::Variable(String::from("age"));
    let b1 = Box::new(e1);
    let b2 = Box::new(e2);

    let added = Expression::Add(b1, b2);

    let sum = Expression::Sum(Box::new(added));

    assert_eq!(sum.to_string(), "sum(add(5, age))");
}

#[test]
fn tokenize_1() {
    let mut tokenizer = ExpressionTokenizer::new(String::from("5"));

    assert_eq!(tokenizer.next(), Some(String::from("5")));

    let mut tokenizer = ExpressionTokenizer::new(String::from("add(1,2)"));

    assert_eq!(tokenizer.next(), Some(String::from("add")));
    assert_eq!(tokenizer.next(), Some(String::from("(")));
    assert_eq!(tokenizer.next(), Some(String::from("1")));
    assert_eq!(tokenizer.next(), Some(String::from(",")));
    assert_eq!(tokenizer.next(), Some(String::from("2")));
    assert_eq!(tokenizer.next(), Some(String::from(")")));

    let mut tokenizer = ExpressionTokenizer::new(String::from("1 + 2"));

    assert_eq!(tokenizer.next(), Some(String::from("1")));
    assert_eq!(tokenizer.next(), Some(String::from("+")));
    assert_eq!(tokenizer.next(), Some(String::from("2")));
}

#[test]
fn tokenize_2() {
    let mut tokenizer = ExpressionTokenizer::new(String::from("add(sum(add(age, 1), 1)"));

    let expected = vec![
        "add", "(", "sum", "(", "add", "(", "age", ",", "1", ")", ",", "1", ")",
    ];

    for expected_token in expected {
        assert_eq!(tokenizer.next(), Some(String::from(expected_token)));
    }

    assert_eq!(tokenizer.next(), None);
}

#[test]
fn parse_expression_1() {
    let expr_string = "1";
    let expr = Expression::from_string(expr_string);

    assert_eq!(expr, Ok(Expression::IntConst(1)));
}

#[test]
fn parse_expression_2() {
    let expr_string = "add(1,1)";
    let expr = Expression::from_string(expr_string);

    let expect_expr = Expression::Add(
        Box::new(Expression::IntConst(1)),
        Box::new(Expression::IntConst(1)),
    );
    assert_eq!(expr, Ok(expect_expr));
}

#[test]
fn parse_expression_3() {
    let expr_string = "add(var,1)";
    let expr = Expression::from_string(expr_string);

    let expect_expr = Expression::Add(
        Box::new(Expression::Variable(String::from("var"))),
        Box::new(Expression::IntConst(1)),
    );
    assert_eq!(expr, Ok(expect_expr));
}

fn kind_of(s: &str) -> ParseErrorKind {
    Expression::from_string(s).unwrap_err().kind
}

#[test]
fn parse_errors_by_kind() {
    assert_eq!(kind_of("sum 1"), ParseErrorKind::ExpectedOpen);
    assert_eq!(kind_of("sum(1"), ParseErrorKind::ExpectedClose);
    assert_eq!(kind_of("add(1 2)"), ParseErrorKind::ExpectedComma);
    assert_eq!(kind_of("values(1)"), ParseErrorKind::ExpectedVariable);
    assert_eq!(kind_of("add(+,1)"), ParseErrorKind::ExpectedAlphanumeric);
    assert_eq!(kind_of("add("), ParseErrorKind::UnexpectedEnd);
    assert_eq!(kind_of(""), ParseErrorKind::UnexpectedEnd);
    assert_eq!(kind_of("1 2"), ParseErrorKind::ExpectedEnd);
    assert_eq!(kind_of("count(1)"), ParseErrorKind::ExpectedClose);
}

#[test]
fn parse_error_messages() {
    let e = Expression::from_string("sum 1").unwrap_err();
    assert_eq!(e.message(), "Expected '('");
    let e = Expression::from_string("1 2").unwrap_err();
    assert_eq!(e.message(), "Expected end of input");
}

#[test]
fn parse_nested_and_literals() {
    let e = Expression::from_string("sum(add(x, 2.50))").unwrap();
    assert_eq!(
        e,
        Expression::Sum(Box::new(Expression::Add(
            Box::new(Expression::Variable(String::from("x"))),
            Box::new(Expression::DecConst(250, 2)),
        )))
    );
    assert_eq!(e.to_string(), "sum(add(x, 2.50))");
    assert_eq!(Expression::from_string("count()"), Ok(Expression::Count));
    assert_eq!(
        Expression::from_string(" values( age ) "),
        Ok(Expression::Values(String::from("age")))
    );
    assert_eq!(Expression::from_string("-7"), Ok(Expression::IntConst(-7)));
    assert_eq!(Expression::from_string("x"), Ok(Expression::Variable(String::from("x"))));
}

#[test]
fn tokenizer_splits_on_white_space() {
    let mut tokenizer = ExpressionTokenizer::new(String::from("  a b\t,c "));
    assert_eq!(tokenizer.next(), Some(String::from("a")));
    assert_eq!(tokenizer.next(), Some(String::from("b")));
    assert_eq!(tokenizer.next(), Some(String::from(",")));
    assert_eq!(tokenizer.next(), Some(String::from("c")));
    assert_eq!(tokenizer.next(), None);
}

#[test]
fn single_character_variables_must_be_alphanumeric() {
    assert_eq!(Expression::from_string("é"), Ok(Expression::Variable(String::from("é"))));
    assert_eq!(Expression::from_string("7"), Ok(Expression::IntConst(7)));
    assert_eq!(Expression::from_string("+").unwrap_err().kind, ParseErrorKind::ExpectedAlphanumeric);
    assert_eq!(Expression::from_string("$").unwrap_err().kind, ParseErrorKind::ExpectedAlphanumeric);
    assert_eq!(Expression::from_string("$x"), Ok(Expression::Variable(String::from("$x"))));
}
