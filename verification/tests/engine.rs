use mivar::process_function_string;
use mivar::Evaluator;
use mivar::KnowledgeBase;
use mivar::KnowledgeBaseError;
use serde_json::Value;

/// A plain-Rust evaluator for the arithmetic relations the tests use.
struct TestEval;

fn num(v: f64) -> Value {
    if v.fract() == 0.0 && v.is_finite() {
        Value::from(v as i64)
    } else {
        Value::from(v)
    }
}

fn f(v: &Value) -> f64 {
    v.as_f64().unwrap()
}

impl Evaluator for TestEval {
    fn compile(&mut self, source: &str) -> Result<(), String> {
        if source.contains("function") {
            Ok(())
        } else {
            Err("no function declaration".to_string())
        }
    }

    fn call(&mut self, fun_name: &str, args: Vec<Value>) -> Option<Value> {
        match fun_name {
            "three_sum" => Some(num(f(&args[0]) + f(&args[1]) + f(&args[2]))),
            "half" => Some(num(f(&args[0]) / 2.0)),
            "heron" => {
                let (a, b, c, p) = (f(&args[0]), f(&args[1]), f(&args[2]), f(&args[3]));
                Some(num((p * (p - a) * (p - b) * (p - c)).sqrt()))
            }
            _ => None,
        }
    }
}

/// An evaluator that refuses a chosen function and computes constants for
/// the others.
struct PickyEval {
    refuse: &'static str,
}

impl Evaluator for PickyEval {
    fn compile(&mut self, _source: &str) -> Result<(), String> {
        Ok(())
    }

    fn call(&mut self, fun_name: &str, _args: Vec<Value>) -> Option<Value> {
        if fun_name == self.refuse {
            None
        } else {
            Some(Value::from(fun_name.len() as i64))
        }
    }
}

fn get<'a>(solution: &'a [(String, Value)], key: &str) -> Option<&'a Value> {
    solution.iter().find(|(k, _)| k == key).map(|(_, v)| v)
}

#[test]
fn parse_func() {
    assert_eq!(
        process_function_string(
            "function heron(a, b, c, p) { return Math.sqrt(p*(p-a)*(p-b)*(p-c)) }"
        ),
        Some(("heron".to_string(), 4))
    )
}

#[test]
fn triangle_test() {
    let mut ev = TestEval;
    let mut kb = KnowledgeBase::new();
    let triangle_class = kb
        .new_class("Triangle", "Model of triangle")
        .expect("all names of classes and parametres are unique in layer of abstraction");
    let triangle_sides_class = triangle_class
        .new_class(&mut kb, "Sides", "sides of triangle")
        .unwrap();
    let a_ref = triangle_sides_class
        .new_parameter(&mut kb, "a", "First side", None)
        .unwrap();
    let b_ref = triangle_sides_class
        .new_parameter(&mut kb, "b", "Second side", None)
        .unwrap();
    let c_ref = triangle_sides_class
        .new_parameter(&mut kb, "c", "Third side", None)
        .unwrap();
    let triangle_parametres_class = triangle_class.new_class(&mut kb, "Parametres", "").unwrap();
    let big_p_ref = triangle_parametres_class
        .new_parameter(&mut kb, "P", "Perimeter", None)
        .unwrap();
    let small_p_ref = triangle_parametres_class
        .new_parameter(&mut kb, "p", "Half of perimeter", None)
        .unwrap();
    let big_s_ref = triangle_parametres_class
        .new_parameter(&mut kb, "S", "Square", None)
        .unwrap();
    let three_sum_ref = kb
        .new_relation(
            &mut ev,
            "function three_sum(a, b, c) { return a + b + c }",
            "Summing three numbers",
        )
        .expect("Name of function of each relation must be unique");
    let half_ref = kb
        .new_relation(&mut ev, "function half(a) { return a / 2 }", "Half of number")
        .unwrap();
    let heron_ref = kb
        .new_relation(
            &mut ev,
            "function heron(a, b, c, p) { return Math.sqrt(p*(p-a)*(p-b)*(p-c)) }",
            "Heron formula",
        )
        .unwrap();
    kb.new_rule(
        "Calculating perimeter via all sides",
        "",
        three_sum_ref,
        &[a_ref, b_ref, c_ref],
        big_p_ref,
    )
    .expect("Same args number as in relation");
    kb.new_rule(
        "Calculating small p",
        "p is P/2",
        half_ref,
        &[big_p_ref],
        small_p_ref,
    )
    .unwrap();
    kb.new_rule(
        "Calculating square",
        "Heron formula",
        heron_ref,
        &[a_ref, b_ref, c_ref, small_p_ref],
        big_s_ref,
    )
    .unwrap();

    let solution = kb.solve(
        &mut ev,
        &[
            (a_ref, Value::from(3)),
            (b_ref, Value::from(4)),
            (c_ref, Value::from(5)),
        ],
        &[big_s_ref, big_p_ref],
    );
    assert_eq!(
        get(&solution, "Triangle/Parametres/S").unwrap(),
        &Value::Number(6.into())
    )
}

#[test]
fn triangle_builder_test() {
    let built = KnowledgeBase::builder()
        .new_class("Triangle", "Model of triangle")
        .new_class("Sides", "sides of triangle")
        .add_parameter("a", "First side", None)
        .add_parameter("b", "Second side", None)
        .add_parameter("c", "Third side", None)
        // leaving "sides" class to upper level
        .leave_class()
        // now we at "triangle" class
        .new_class("Parametres of triangle", "")
        .add_parameter("P", "Perimeter", None)
        .add_parameter("p", "Half of perimeter", None)
        .add_parameter("S", "Square", None)
        .go_base() // we are in kb again
        .new_relation("function three_sum(a, b, c) { return a + b + c }")
        .new_relation("function half(a) { return a / 2 }")
        .new_relation("function heron(a, b, c, p) { return Math.sqrt(p*(p-a)*(p-b)*(p-c)) }")
        .new_rule(
            "three_sum",
            &["Triangle.Sides.a", "Triangle.Sides.b", "Triangle.Sides.c"],
            &["Triangle.Parametres of triangle.P"],
            "Calc perimeter",
            "Using sum to count perimeter",
        )
        .new_rule(
            "half",
            &["Triangle.Parametres of triangle.P"],
            &["Triangle.Parametres of triangle.p"],
            "Calc perimeter",
            "Using sum to count perimeter",
        )
        .build();
    let kb = built.unwrap();
    let mut ev = TestEval;
    assert_eq!(kb.rules.len(), 2);
    assert_eq!(kb.classes.len(), 3);
    assert_eq!(kb.params.len(), 6);
    // the builder's schema solves like a hand-built one
    let a = mivar::Parameter { idx: 0 };
    let b = mivar::Parameter { idx: 1 };
    let c = mivar::Parameter { idx: 2 };
    let big_p = mivar::Parameter { idx: 3 };
    let solution = kb.solve(
        &mut ev,
        &[
            (a, Value::from(3)),
            (b, Value::from(4)),
            (c, Value::from(5)),
        ],
        &[big_p],
    );
    assert_eq!(
        get(&solution, "Triangle/Parametres of triangle/P").unwrap(),
        &Value::Number(12.into())
    );
}

#[test]
fn uniqueness_is_enforced_without_damage() {
    let mut ev = TestEval;
    let mut kb = KnowledgeBase::new();
    let class = kb.new_class("Triangle", "").unwrap();
    let second = kb.new_class("Triangle", "again");
    assert!(matches!(second, Err(KnowledgeBaseError::NameAlreadyExists)));
    assert_eq!(kb.classes.len(), 1);

    class.new_parameter(&mut kb, "a", "", None).unwrap();
    let dup = class.new_parameter(&mut kb, "a", "again", None);
    assert!(matches!(dup, Err(KnowledgeBaseError::NameAlreadyExists)));
    assert_eq!(kb.params.len(), 1);

    kb.new_relation(&mut ev, "function half(a) { return a / 2 }", "")
        .unwrap();
    let dup_rel = kb.new_relation(&mut ev, "function half(x) { return x / 2 }", "other text");
    assert!(matches!(dup_rel, Err(KnowledgeBaseError::NameAlreadyExists)));
    assert_eq!(kb.relations.len(), 1);

    // a nested class may reuse a name used elsewhere, but not a sibling's
    let sides = class.new_class(&mut kb, "Sides", "").unwrap();
    assert!(sides.new_class(&mut kb, "Inner", "").is_ok());
    let dup_child = class.new_class(&mut kb, "Sides", "again");
    assert!(matches!(
        dup_child,
        Err(KnowledgeBaseError::NameAlreadyExists)
    ));
}

#[test]
fn arity_mismatch_appends_nothing() {
    let mut ev = TestEval;
    let mut kb = KnowledgeBase::new();
    let class = kb.new_class("C", "").unwrap();
    let x = class.new_parameter(&mut kb, "x", "", None).unwrap();
    let y = class.new_parameter(&mut kb, "y", "", None).unwrap();
    let half = kb
        .new_relation(&mut ev, "function half(a) { return a / 2 }", "")
        .unwrap();
    let bad = kb.new_rule("too many", "", half, &[x, y], y);
    assert!(matches!(bad, Err(KnowledgeBaseError::ArgCountError)));
    assert_eq!(kb.rules.len(), 0);
    kb.new_rule("just right", "", half, &[x], y).unwrap();
    assert_eq!(kb.rules.len(), 1);
}

#[test]
fn zero_argument_relation_is_rejected() {
    let mut ev = TestEval;
    let mut kb = KnowledgeBase::new();
    let zero = kb.new_relation(&mut ev, "function f() { return 1 }", "");
    assert!(matches!(zero, Err(KnowledgeBaseError::BadCode(_))));
    assert_eq!(kb.relations.len(), 0);
    kb.new_relation(&mut ev, "function f(a) { return 1 }", "")
        .unwrap();
    let again = kb.new_relation(&mut ev, "function f(a, b) { return 2 }", "");
    assert!(matches!(
        again,
        Err(KnowledgeBaseError::NameAlreadyExists)
    ));
}

#[test]
fn unparsable_relation_is_rejected() {
    let mut ev = TestEval;
    let mut kb = KnowledgeBase::new();
    let bad = kb.new_relation(&mut ev, "function what", "no parentheses at all");
    assert!(matches!(bad, Err(KnowledgeBaseError::BadCode(_))));
}

#[test]
fn cycle_resolves_to_nothing() {
    let mut ev = TestEval;
    let mut kb = KnowledgeBase::new();
    let class = kb.new_class("C", "").unwrap();
    let a = class.new_parameter(&mut kb, "a", "", None).unwrap();
    let b = class.new_parameter(&mut kb, "b", "", None).unwrap();
    let half = kb
        .new_relation(&mut ev, "function half(a) { return a / 2 }", "")
        .unwrap();
    let three_sum = kb
        .new_relation(&mut ev, "function three_sum(a, b, c) { return a + b + c }", "")
        .unwrap();
    kb.new_rule("a from b", "", half, &[b], a).unwrap();
    kb.new_rule("b from a", "", three_sum, &[a, a, a], b).unwrap();
    let solution = kb.solve(&mut ev, &[], &[a, b]);
    assert!(solution.is_empty());
}

#[test]
fn default_fallback_is_used() {
    let mut ev = TestEval;
    let mut kb = KnowledgeBase::new();
    let class = kb.new_class("C", "").unwrap();
    let d = class
        .new_parameter(&mut kb, "d", "", Some(Value::from(41)))
        .unwrap();
    let solution = kb.solve(&mut ev, &[], &[d]);
    assert_eq!(get(&solution, "C/d").unwrap(), &Value::from(41));
}

#[test]
fn default_fallback_after_failing_alternatives() {
    let mut ev = PickyEval { refuse: "half" };
    let mut kb = KnowledgeBase::new();
    let class = kb.new_class("C", "").unwrap();
    let x = class.new_parameter(&mut kb, "x", "", None).unwrap();
    let d = class
        .new_parameter(&mut kb, "d", "", Some(Value::from(41)))
        .unwrap();
    let half = kb
        .new_relation(&mut ev, "function half(a) { return a / 2 }", "")
        .unwrap();
    kb.new_rule("d from x", "", half, &[x], d).unwrap();
    // x is known, but the invocation fails; the declared default answers
    let solution = kb.solve(&mut ev, &[(x, Value::from(10))], &[d]);
    assert_eq!(get(&solution, "C/d").unwrap(), &Value::from(41));
}

#[test]
fn first_successful_alternative_wins() {
    let mut kb = KnowledgeBase::new();
    let mut ev = PickyEval { refuse: "none" };
    let class = kb.new_class("C", "").unwrap();
    let x = class.new_parameter(&mut kb, "x", "", None).unwrap();
    let y = class.new_parameter(&mut kb, "y", "", None).unwrap();
    let t = class.new_parameter(&mut kb, "t", "", None).unwrap();
    let first = kb
        .new_relation(&mut ev, "function one(a) { return a }", "")
        .unwrap();
    let second = kb
        .new_relation(&mut ev, "function threexy(a) { return a }", "")
        .unwrap();
    kb.new_rule("t from x", "", first, &[x], t).unwrap();
    kb.new_rule("t from y", "", second, &[y], t).unwrap();
    // both alternatives could fire; the first one, in registration order, wins
    let solution = kb.solve(
        &mut ev,
        &[(x, Value::from(1)), (y, Value::from(2))],
        &[t],
    );
    // PickyEval answers with the length of the function name
    assert_eq!(get(&solution, "C/t").unwrap(), &Value::from(3));
}

#[test]
fn failing_first_alternative_falls_through_to_second() {
    let mut kb = KnowledgeBase::new();
    let mut ev = PickyEval { refuse: "one" };
    let class = kb.new_class("C", "").unwrap();
    let x = class.new_parameter(&mut kb, "x", "", None).unwrap();
    let y = class.new_parameter(&mut kb, "y", "", None).unwrap();
    let t = class.new_parameter(&mut kb, "t", "", None).unwrap();
    let first = kb
        .new_relation(&mut ev, "function one(a) { return a }", "")
        .unwrap();
    let second = kb
        .new_relation(&mut ev, "function threexy(a) { return a }", "")
        .unwrap();
    kb.new_rule("t from x", "", first, &[x], t).unwrap();
    kb.new_rule("t from y", "", second, &[y], t).unwrap();
    let solution = kb.solve(
        &mut ev,
        &[(x, Value::from(1)), (y, Value::from(2))],
        &[t],
    );
    assert_eq!(get(&solution, "C/t").unwrap(), &Value::from(7));
}

#[test]
fn first_alternative_with_unresolvable_arguments_is_skipped() {
    let mut kb = KnowledgeBase::new();
    let mut ev = PickyEval { refuse: "none" };
    let class = kb.new_class("C", "").unwrap();
    let x = class.new_parameter(&mut kb, "x", "", None).unwrap();
    let y = class.new_parameter(&mut kb, "y", "", None).unwrap();
    let t = class.new_parameter(&mut kb, "t", "", None).unwrap();
    let first = kb
        .new_relation(&mut ev, "function one(a) { return a }", "")
        .unwrap();
    let second = kb
        .new_relation(&mut ev, "function threexy(a) { return a }", "")
        .unwrap();
    kb.new_rule("t from x", "", first, &[x], t).unwrap();
    kb.new_rule("t from y", "", second, &[y], t).unwrap();
    // only y is known, so the first alternative cannot fire
    let solution = kb.solve(&mut ev, &[(y, Value::from(2))], &[t]);
    assert_eq!(get(&solution, "C/t").unwrap(), &Value::from(7));
}

#[test]
fn known_values_pass_through_and_later_entries_win() {
    let mut ev = TestEval;
    let mut kb = KnowledgeBase::new();
    let class = kb.new_class("C", "").unwrap();
    let x = class.new_parameter(&mut kb, "x", "", None).unwrap();
    let solution = kb.solve(
        &mut ev,
        &[(x, Value::from(1)), (x, Value::from(2))],
        &[x],
    );
    assert_eq!(get(&solution, "C/x").unwrap(), &Value::from(2));
}

#[test]
fn solving_twice_gives_identical_results() {
    let mut ev = TestEval;
    let mut kb = KnowledgeBase::new();
    let class = kb.new_class("C", "").unwrap();
    let x = class.new_parameter(&mut kb, "x", "", None).unwrap();
    let t = class.new_parameter(&mut kb, "t", "", None).unwrap();
    let half = kb
        .new_relation(&mut ev, "function half(a) { return a / 2 }", "")
        .unwrap();
    kb.new_rule("t from x", "", half, &[x], t).unwrap();
    let known = [(x, Value::from(10))];
    let once = kb.solve(&mut ev, &known, &[t]);
    let twice = kb.solve(&mut ev, &known, &[t]);
    assert_eq!(once, twice);
    assert_eq!(get(&once, "C/t").unwrap(), &Value::from(5));
}

#[test]
fn parse_rejects_text_without_declaration() {
    assert_eq!(process_function_string("const x = 3"), None);
    assert_eq!(process_function_string("function broken"), None);
}

#[test]
fn parse_counts_zero_arguments() {
    assert_eq!(
        process_function_string("function f() { return 1 }"),
        Some(("f".to_string(), 0))
    );
    assert_eq!(
        process_function_string("function g(  ) { return 1 }"),
        Some(("g".to_string(), 0))
    );
}

#[test]
fn builder_position_moves_are_inverse() {
    // entering a class and leaving it restores the position: parameters
    // added before and after land under the same dotted path prefix
    let built = KnowledgeBase::builder()
        .new_class("A", "")
        .add_parameter("x", "", None)
        .new_class("B", "")
        .add_parameter("y", "", None)
        .leave_class()
        .add_parameter("z", "", None)
        .go_base()
        .go_base() // idempotent: still at the base
        .new_class("C", "")
        .add_parameter("w", "", None)
        .build();
    let kb = built.unwrap();
    assert_eq!(kb.params.len(), 4);
    assert_eq!(kb.classes.len(), 3);
    // x and z share the owner entered first; y sits under the nested class
    assert_eq!(kb.params[0].owner, kb.params[2].owner);
    assert_ne!(kb.params[0].owner, kb.params[1].owner);
    assert_ne!(kb.params[2].owner, kb.params[3].owner);
}

#[test]
fn builder_reports_first_error() {
    let built = KnowledgeBase::builder()
        .new_class("A", "")
        .add_parameter("x", "", None)
        .add_parameter("x", "", None) // duplicate name under one class
        .build();
    assert!(matches!(built, Err(KnowledgeBaseError::NameAlreadyExists)));
}
