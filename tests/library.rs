use formula::{
    eval, parse, BinOp, Calculator, CompareOperator, Document, ExpValue, Expression, ExpressionPart, Function,
    FunctionPart, Identifier, ParamItem, Pair, Pairs, ValueTable,
};

fn number(s: &String) -> f64 {
    s.parse::<f64>().unwrap()
}

fn arith(op: BinOp, a: f64, b: f64) -> f64 {
    match op {
        BinOp::Add => a + b,
        BinOp::Subtract => a - b,
        BinOp::Multiply => a * b,
        BinOp::Divide => a / b,
        BinOp::Modulus => a % b,
        BinOp::Power => a.powf(b),
    }
}

fn build(text: &str) -> Expression {
    Expression::from_pairs(&parse(text).unwrap()).unwrap()
}

fn calc(text: &str, table: &ValueTable<f64>) -> ExpValue<f64> {
    eval(&build(text), table, &number, &arith)
}

fn table_of(entries: &[(&str, f64)]) -> ValueTable<f64> {
    let mut table = ValueTable::new();
    for (k, v) in entries {
        table.insert(k.to_string(), ExpValue::Number(*v));
    }
    table
}

fn names(ids: &[Identifier]) -> Vec<String> {
    ids.iter().map(|s| s.name.clone()).collect::<Vec<_>>()
}

fn num(s: &str) -> Document {
    Document::Number(s.to_string())
}

fn object(fields: Vec<(&str, Document)>) -> Document {
    Document::Object(fields.into_iter().map(|(k, v)| (k.to_string(), v)).collect())
}

fn tasks() -> Document {
    object(vec![
        (
            "subtask",
            Document::Array(vec![
                object(vec![("id", num("1")), ("status", num("2")), ("points", num("3"))]),
                object(vec![("id", num("2")), ("status", num("4")), ("points", num("5"))]),
                object(vec![("id", num("3")), ("status", Document::Text("2".to_string())), ("points", num("7"))]),
            ]),
        ),
        ("values", Document::Array(vec![num("1.5"), num("2.5"), Document::Text("x".to_string())])),
        ("name", Document::Text("board".to_string())),
    ])
}

fn run(text: &str, doc: &Document) -> Option<ExpValue<f64>> {
    let tree = parse(text).unwrap();
    Function::from(&tree.operands[0]).unwrap().run(doc, &number, &arith)
}

#[test]
fn undefined_identifier_is_error() {
    let table = table_of(&[("a", 1.0)]);
    assert_eq!(calc("undefined", &table), ExpValue::Error);
    assert_eq!(calc("undefined + 1", &table), ExpValue::Error);
    assert_eq!(calc("1 * (a + undefined)", &table), ExpValue::Error);
}

#[test]
fn string_operand_is_error() {
    let mut table = table_of(&[("a", 1.0)]);
    table.insert("s".to_string(), ExpValue::String("12".to_string()));
    assert_eq!(calc("s + a", &table), ExpValue::Error);
    assert_eq!(calc("a - s", &table), ExpValue::Error);
}

#[test]
fn function_operand_is_error() {
    let table = table_of(&[("a", 1.0)]);
    assert_eq!(calc("SUM(x) + a", &table), ExpValue::Error);
}

#[test]
fn division_by_zero_is_infinite() {
    let table = table_of(&[("a", 1.0), ("z", 0.0)]);
    assert_eq!(calc("a / z", &table), ExpValue::Number(f64::INFINITY));
}

#[test]
fn precedence_tiers() {
    let table = table_of(&[("a", 6.0), ("b", 3.0), ("c", 5.0)]);
    assert_eq!(calc("a + b * c", &table), ExpValue::Number(21.0));
    assert_eq!(calc("2 * 7 % 4", &table), ExpValue::Number(6.0));
    assert_eq!(calc("2 ^ 3 * 2", &table), ExpValue::Number(16.0));
    assert_eq!(calc("2.5 * 2", &table), ExpValue::Number(5.0));
    assert_eq!(calc("(a + b) * c", &table), ExpValue::Number(45.0));
}

#[test]
fn evaluation_twice_is_same() {
    let table = table_of(&[("a", 6.0), ("b", 3.0)]);
    let expr = build("a / b - 1");
    let first = eval(&expr, &table, &number, &arith);
    let second = eval(&expr, &table, &number, &arith);
    assert_eq!(first, second);
    assert_eq!(first, ExpValue::Number(1.0));
}

#[test]
fn table_insert_replaces() {
    let mut table = table_of(&[("a", 6.0)]);
    table.insert("a".to_string(), ExpValue::Number(2.0));
    assert_eq!(table.get("a"), Some(ExpValue::Number(2.0)));
    assert_eq!(table.get("b"), None);
    assert_eq!(calc("a", &table), ExpValue::Number(2.0));
}

#[test]
fn dependencies_deduplicated() {
    let expr = build("a + a * (b - COUNT(a; c=1)) + SUM(d.e)");
    assert_eq!(names(&expr.get_dependencies()), vec!["a", "b", "d"]);
    let expr = build("2 + 3");
    assert!(expr.get_dependencies().is_empty());
}

#[test]
fn function_dependencies_keep_repetitions() {
    let tree = parse("SUM(a.b; a; x=1)").unwrap();
    let function = Function::from(&tree.operands[0]).unwrap();
    assert_eq!(names(&function.get_dependencies()), vec!["a", "a"]);
    assert!(FunctionPart::CompareExpression("x".to_string(), CompareOperator::Equal, "1".to_string())
        .get_dependencies()
        .is_empty());
}

#[test]
fn dotted_parameter_keeps_two_segments() {
    let item = ParamItem::Path(vec!["a".to_string(), "b".to_string(), "c".to_string()]);
    assert_eq!(
        FunctionPart::from_single(&item),
        Some(FunctionPart::IdentifierWithField("a".to_string(), "b".to_string()))
    );
    assert_eq!(FunctionPart::from_single(&ParamItem::Path(vec![])), None);
    let function = parse("SUM(a.b.c)").unwrap();
    let function = Function::from(&function.operands[0]).unwrap();
    assert_eq!(function.parts, vec![FunctionPart::IdentifierWithField("a".to_string(), "b".to_string())]);
}

#[test]
fn empty_parameters_dropped() {
    let tree = parse("COUNT(;x;  ;y=2;)").unwrap();
    let function = Function::from(&tree.operands[0]).unwrap();
    assert_eq!(
        function.parts,
        vec![
            FunctionPart::Identifier("x".to_string()),
            FunctionPart::CompareExpression("y".to_string(), CompareOperator::Equal, "2".to_string())
        ]
    );
}

#[test]
fn node_kinds_checked() {
    let tree = parse("abc + 1").unwrap();
    assert_eq!(tree.operators, vec![BinOp::Add]);
    assert_eq!(Identifier::from(&tree.operands[0]), Some(Identifier { name: "abc".to_string() }));
    assert_eq!(Identifier::from(&tree.operands[1]), None);
    assert_eq!(tree.operands[1], Pair::Number("1".to_string()));
    assert!(Function::from(&tree.operands[0]).is_none());
}

#[test]
fn parse_errors() {
    assert_eq!(parse("a +").unwrap_err().position, 3);
    assert_eq!(parse("(a").unwrap_err().position, 2);
    assert_eq!(parse("a b").unwrap_err().position, 2);
    assert_eq!(parse("a)").unwrap_err().position, 1);
    assert_eq!(parse("").unwrap_err().position, 0);
    assert_eq!(parse("a & b").unwrap_err().position, 2);
    assert_eq!(parse("SUM(x=)").unwrap_err().position, 6);
    assert_eq!(parse("a +").unwrap_err().input, "a +");
}

#[test]
fn malformed_tree_builds_nothing() {
    let tree = Pairs { operands: vec![Pair::Ident("a".to_string())], operators: vec![BinOp::Add] };
    assert!(Expression::from_pairs(&tree).is_none());
    let inner = Pairs { operands: vec![], operators: vec![] };
    let tree = Pairs { operands: vec![Pair::Group(Box::new(inner))], operators: vec![] };
    assert!(Expression::from_pairs(&tree).is_none());
}

#[test]
fn expression_parts_in_order() {
    let expr = build("SUM(subtask;status=2) + (x)");
    match &expr.parts[0] {
        ExpressionPart::Function(f) => assert_eq!(f.name, "SUM"),
        _ => panic!("not function"),
    }
    match &expr.parts[1] {
        ExpressionPart::Group(g) => {
            assert_eq!(g.parts[0], ExpressionPart::Identifier(Identifier { name: "x".to_string() }))
        }
        _ => panic!("not group"),
    }
}

#[test]
fn sum_with_filter() {
    let doc = tasks();
    assert_eq!(run("SUM(subtask.points;status=2)", &doc), Some(ExpValue::Number(10.0)));
    assert_eq!(run("SUM(subtask.points)", &doc), Some(ExpValue::Number(15.0)));
    assert_eq!(run("sum(subtask.points; status=4; id=2)", &doc), Some(ExpValue::Number(5.0)));
    assert_eq!(run("SUM(subtask.points;status=9)", &doc), Some(ExpValue::Number(0.0)));
}

#[test]
fn sum_of_plain_numbers() {
    assert_eq!(run("SUM(values)", &tasks()), Some(ExpValue::Number(4.0)));
}

#[test]
fn count_with_filter() {
    let doc = tasks();
    assert_eq!(run("COUNT(subtask;status=2)", &doc), Some(ExpValue::Number(2.0)));
    assert_eq!(run("Count(subtask)", &doc), Some(ExpValue::Number(3.0)));
    assert_eq!(run("COUNT(subtask.points)", &doc), None);
}

#[test]
fn run_gives_nothing() {
    let doc = tasks();
    assert_eq!(run("AVG(subtask)", &doc), None);
    assert_eq!(run("SUM(name)", &doc), None);
    assert_eq!(run("SUM(missing)", &doc), None);
    assert_eq!(run("SUM(status=2)", &doc), None);
    assert_eq!(run("SUM()", &doc), None);
    let f = Function {
        name: "SUM".to_string(),
        parts: vec![
            FunctionPart::Identifier("subtask".to_string()),
            FunctionPart::CompareExpression("status".to_string(), CompareOperator::NotEqual, "2".to_string()),
        ],
    };
    assert_eq!(f.run(&doc, &number, &arith), None);
    assert_eq!(run("SUM(subtask)", &Document::Array(vec![])), None);
}

#[test]
fn identifier_value_lookup() {
    let table = table_of(&[("a", 6.0)]);
    let a = Identifier { name: "a".to_string() };
    let b = Identifier { name: "b".to_string() };
    assert_eq!(a.get_value(&table), Some(ExpValue::Number(6.0)));
    assert_eq!(b.get_value(&table), None);
}

#[test]
fn parse_tree_shape() {
    let tree = parse(" x1 *( b_2 ^ 2.25 ) ").unwrap();
    assert_eq!(tree.operands[0], Pair::Ident("x1".to_string()));
    assert_eq!(tree.operators, vec![BinOp::Multiply]);
    let inner = Pairs {
        operands: vec![Pair::Ident("b_2".to_string()), Pair::Number("2.25".to_string())],
        operators: vec![BinOp::Power],
    };
    assert_eq!(tree.operands[1], Pair::Group(Box::new(inner)));
    assert_eq!(parse("F(a . b)").unwrap_err().position, 4);
    let tree = parse("F( a.b ; c = x.1 )").unwrap();
    assert_eq!(
        tree.operands[0],
        Pair::Function(
            "F".to_string(),
            vec![
                ParamItem::Path(vec!["a".to_string(), "b".to_string()]),
                ParamItem::Compare("c".to_string(), "x.1".to_string())
            ]
        )
    );
}

#[test]
fn calculator_parses_like_parse() {
    assert_eq!(Calculator::parse("a+1").unwrap(), parse("a + 1").unwrap());
    assert_eq!(Calculator::parse("a+").unwrap_err().position, 2);
}

#[test]
fn blanks_between_tokens_only() {
    let table = table_of(&[("a", 6.0), ("b", 3.0)]);
    assert_eq!(calc(" a\t+\n b ", &table), ExpValue::Number(9.0));
    assert_eq!(calc("( a+b )*2", &table), ExpValue::Number(18.0));
    assert!(parse("SUM ( x ; y = 2 )").is_ok());
    assert_eq!(parse("1 .5").unwrap_err().position, 2);
    assert_eq!(parse("ab c").unwrap_err().position, 3);
    assert_eq!(parse("x = 1").unwrap_err().position, 2);
}
