use formula::{
    eval, parse, BinOp, CompareOperator, Document, ExpValue, Expression, ExpressionPart, Function,
    FunctionPart, Identifier, ParamItem, Pair, Pairs, ValueTable,
};

fn number(s: &String) -> f64 {
    s.parse::<f64>().unwrap()
}

fn arith(op: BinOp, a: f64, b: f64) -> f64 {
    match op {
        BinOp::Add => a + b,
        BinOp::Subtract => a - b,
        BinOp::Multiply => a * b,
        BinOp::Divide => a / b,
        BinOp::Modulus => a % b,
        BinOp::Power => a.powf(b),
    }
}

fn build(text: &str) -> Expression {
    Expression::from_pairs(&parse(text).unwrap()).unwrap()
}

fn calc(text: &str, table: &ValueTable<f64>) -> ExpValue<f64> {
    eval(&build(text), table, &number, &arith)
}

fn create_num_table() -> ValueTable<f64> {
    let mut table = ValueTable::new();
    table.insert("a".to_string(), ExpValue::Number(6.0));
    table.insert("b".to_string(), ExpValue::Number(3.0));
    table.insert("c".to_string(), ExpValue::Number(5.0));
    table.insert("d".to_string(), ExpValue::Number(8.0));
    table
}

fn names(ids: &[Identifier]) -> Vec<&str> {
    ids.iter().map(|s| s.name.as_str()).collect::<Vec<_>>()
}

fn first_function(text: &str) -> Function {
    let tree = parse(text).unwrap();
    Function::from(&tree.operands[0]).unwrap()
}

#[test]
fn parse_get_function() {
    let function = first_function("COUNT(relationship;)");
    assert_eq!(function.name, "COUNT");
    assert_eq!(function.parts, vec![FunctionPart::Identifier("relationship".to_string())]);
}

#[test]
fn parse_get_function_with_compare() {
    let function = first_function("COUNT(relationship;issueTypeId=1848788)");
    assert_eq!(function.name, "COUNT");
    assert_eq!(
        function.parts,
        vec![
            FunctionPart::Identifier("relationship".to_string()),
            FunctionPart::CompareExpression(
                "issueTypeId".to_string(),
                CompareOperator::Equal,
                "1848788".to_string()
            )
        ]
    );
}

#[test]
fn parse_get_function_with_compare_2() {
    let function = first_function("SUM(subtask.estimatePoint;status=4)");
    assert_eq!(function.name, "SUM");
    assert_eq!(
        function.parts,
        vec![
            FunctionPart::IdentifierWithField("subtask".to_string(), "estimatePoint".to_string()),
            FunctionPart::CompareExpression("status".to_string(), CompareOperator::Equal, "4".to_string())
        ]
    );
}

#[test]
fn parse_expr() {
    let tree = parse("SUM(subtask.estimatePoint;status=2) + GET_NOW-GET_UPDATE_TIME").unwrap();
    let expr = Expression::from_pairs(&tree);
    assert!(expr.is_some())
}

#[test]
fn get_expr_dependencies_1() {
    let expr = build("GET_NOW-GET_UPDATE_TIME");
    assert_eq!(names(&expr.get_dependencies()), vec!["GET_NOW", "GET_UPDATE_TIME"]);
}

#[test]
fn get_expr_dependencies_2() {
    let expr = build("SUM(subtask.estimatePoint;status=2) + GET_NOW-GET_UPDATE_TIME");
    assert_eq!(names(&expr.get_dependencies()), vec!["subtask", "GET_NOW", "GET_UPDATE_TIME"]);
}

#[test]
fn calc_add() {
    assert_eq!(calc("a + b", &create_num_table()), ExpValue::Number(9.0));
}

#[test]
fn calc_add_multi() {
    let result = calc("a + b + c + d", &create_num_table());
    let result2 = calc("d+c+a+b", &create_num_table());
    assert_eq!(result, ExpValue::Number(22.0));
    assert_eq!(result2, ExpValue::Number(22.0));
}

#[test]
fn calc_add_assoc() {
    let result = calc("a + (b + c)", &create_num_table());
    let result2 = calc("(a + b) + c", &create_num_table());
    assert_eq!(result, ExpValue::Number(14.0));
    assert_eq!(result2, ExpValue::Number(14.0));
}

#[test]
fn calc_sub() {
    assert_eq!(calc("a - b", &create_num_table()), ExpValue::Number(3.0));
}

#[test]
fn calc_sub_multi() {
    assert_eq!(calc("a - b - c - d", &create_num_table()), ExpValue::Number(-10.0));
}

#[test]
fn calc_sub_assoc() {
    let result = calc("a - (b - c)", &create_num_table());
    let result2 = calc("(a - b) - c", &create_num_table());
    assert_eq!(result, ExpValue::Number(8.0));
    assert_eq!(result2, ExpValue::Number(-2.0));
}

#[test]
fn calc_mul() {
    assert_eq!(calc("a * b", &create_num_table()), ExpValue::Number(18.0));
}

#[test]
fn calc_mul_multi() {
    assert_eq!(calc("a * b * c * d", &create_num_table()), ExpValue::Number(720.0));
}

#[test]
fn calc_mul_assoc() {
    let result = calc("a * (b * c)", &create_num_table());
    let result2 = calc("(a * b) * c", &create_num_table());
    assert_eq!(result, ExpValue::Number(90.0));
    assert_eq!(result2, ExpValue::Number(90.0));
}

#[test]
fn calc_div() {
    assert_eq!(calc("a / b", &create_num_table()), ExpValue::Number(2.0));
}

#[test]
fn calc_div_multi() {
    assert_eq!(calc("a / b / c / d", &create_num_table()), ExpValue::Number(0.05));
}

#[test]
fn calc_div_assoc() {
    let result = calc("d / (a / b)", &create_num_table());
    let result2 = calc("(a / b) / c", &create_num_table());
    assert_eq!(result, ExpValue::Number(4.0));
    assert_eq!(result2, ExpValue::Number(0.4));
}

#[test]
fn calc_pow() {
    assert_eq!(calc("a ^ b", &create_num_table()), ExpValue::Number(216.0));
}

#[test]
fn calc_pow_multi() {
    assert_eq!(calc("4 ^ 3 ^ 2", &create_num_table()), ExpValue::Number(262144.0));
}

#[test]
fn calc_pow_assoc() {
    let result = calc("4 ^ 3 ^ 2", &create_num_table());
    let result2 = calc("(4 ^ 3) ^ 2", &create_num_table());
    assert_eq!(result, ExpValue::Number(262144.0));
    assert_eq!(result2, ExpValue::Number(4096.0));
}

#[test]
fn calc_rem() {
    assert_eq!(calc("a % b", &create_num_table()), ExpValue::Number(0.0));
}

#[test]
fn pass_number() {
    let mut table = ValueTable::new();
    table.insert("a".to_string(), ExpValue::Number(6.0));
    assert_eq!(calc("a", &table), ExpValue::Number(6.0));
}

#[test]
fn pass_string() {
    let mut table = ValueTable::new();
    table.insert("a".to_string(), ExpValue::String("123123".to_string()));
    assert_eq!(calc("a", &table), ExpValue::String("123123".to_string()));
}

#[test]
fn func_run() {
    let record = |id: &str, name: &str| {
        Document::Object(vec![
            ("id".to_string(), Document::Number(id.to_string())),
            ("name".to_string(), Document::Text(name.to_string())),
        ])
    };
    let json = Document::Object(vec![(
        "subtask".to_string(),
        Document::Array(vec![record("1", "test1"), record("2", "test2")]),
    )]);

    let exp = parse("SUM(subtask;status=2)").unwrap();
    let expr = Expression::from_pairs(&exp).unwrap();
    let func = match &expr.parts[0] {
        ExpressionPart::Function(f) => f,
        _ => panic!("not function"),
    };
    let sum = func.run(&json, &number, &arith);
    assert_eq!(sum, Some(ExpValue::Number(0.0)));
}
