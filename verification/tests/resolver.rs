use borrow_advisor::builtin::Ty;
use borrow_advisor::error::AdvisorError;
use borrow_advisor::pre_record::FnInfo;
use borrow_advisor::pre_record::PreRecord;
use borrow_advisor::resolve::resolve_expr;
use borrow_advisor::resolve::Resolver;
use borrow_advisor::symbol_table::SymbolTable;
use borrow_advisor::syntax_tree::Block;
use borrow_advisor::syntax_tree::Expr;
use borrow_advisor::syntax_tree::TypeShape;

fn path(names: &[&str]) -> Vec<String> {
    names.iter().map(|n| n.to_string()).collect()
}

fn name(n: &str) -> Expr {
    Expr::Path(path(&[n]))
}

fn names(ns: &[&str]) -> Expr {
    Expr::Path(path(ns))
}

fn boxed(e: Expr) -> Box<Expr> {
    Box::new(e)
}

fn borrow(e: Expr) -> Expr {
    Expr::AddrOf(boxed(e))
}

fn call(callee: &[&str], args: Vec<Expr>) -> Expr {
    Expr::Call(boxed(names(callee)), args)
}

fn method(m: &str, receiver: Expr) -> Expr {
    Expr::MethodCall(m.to_string(), boxed(receiver), Vec::new())
}

/// What a resolver holds, in a form that compares.
#[derive(Debug, PartialEq)]
struct Seen {
    var_name: Option<Vec<String>>,
    var_type: Option<Ty>,
    ref_to: Option<Vec<String>>,
    structure: Vec<(String, Seen)>,
}

fn seen(r: &Resolver) -> Seen {
    Seen {
        var_name: r.var_name.clone(),
        var_type: r.var_type,
        ref_to: r.ref_to.clone(),
        structure: r.structure.iter().map(|f| (f.0.clone(), seen(&f.1))).collect(),
    }
}

fn unknown() -> Seen {
    Seen { var_name: None, var_type: None, ref_to: None, structure: Vec::new() }
}

fn of_type(ty: Ty) -> Seen {
    Seen { var_type: Some(ty), ..unknown() }
}

fn binding(names: &[&str], ty: Ty) -> Seen {
    Seen { var_name: Some(path(names)), var_type: Some(ty), ..unknown() }
}

fn records() -> PreRecord {
    let mut records = PreRecord::new();
    records.insert_enum("Color".to_string(), path(&["Red", "Green"]));
    records.insert_struct(
        "Point".to_string(),
        vec![("x".to_string(), Ty::Primitive), ("label".to_string(), Ty::NonPrimitive)],
    );
    records.insert_fn("count".to_string(), FnInfo { output: Some(Ty::Primitive), input: 1 });
    records.insert_fn("view".to_string(), FnInfo { output: Some(Ty::Ref), input: 1 });
    records.insert_fn("run".to_string(), FnInfo { output: None, input: 0 });
    records
}

/// A table with a scope that binds `s` (owned), `n` (primitive), `r` (a reference to
/// `s`) and `p` (a record with the fields `x` and `label`).
fn table() -> (SymbolTable, usize) {
    let mut table = SymbolTable::new(1, 50, records());
    let body = table.open_scope(table.root(), 1, 50);
    let none = Vec::new();
    table.declare(body, "s", Ty::NonPrimitive, &None, &none, 2).unwrap();
    table.declare(body, "n", Ty::Primitive, &None, &none, 3).unwrap();
    table.declare(body, "r", Ty::Ref, &Some(path(&["s"])), &none, 4).unwrap();
    let fields = vec![
        ("x".to_string(), Resolver::of_type(Ty::Primitive)),
        ("label".to_string(), Resolver::of_type(Ty::NonPrimitive)),
    ];
    table.declare(body, "p", Ty::NonPrimitive, &None, &fields, 5).unwrap();
    (table, body)
}

fn resolved(ex: &Expr) -> Seen {
    let (table, body) = table();
    seen(&resolve_expr(ex, &table, body).unwrap())
}

fn failed(ex: &Expr) -> AdvisorError {
    let (table, body) = table();
    resolve_expr(ex, &table, body).err().unwrap()
}

#[test]
fn name_of_a_binding() {
    assert_eq!(resolved(&name("s")), binding(&["s"], Ty::NonPrimitive));
    assert_eq!(resolved(&name("n")), binding(&["n"], Ty::Primitive));
    assert_eq!(resolved(&name("r")), binding(&["r"], Ty::Ref));
}

#[test]
fn name_that_is_not_bound() {
    assert_eq!(resolved(&name("absent")), unknown());
}

#[test]
fn name_resolves_from_inner_scope() {
    let (mut table, body) = table();
    let inner = table.open_scope(body, 10, 20);
    let none = Vec::new();
    table.declare(inner, "n", Ty::NonPrimitive, &None, &none, 11).unwrap();
    // The inner binding shadows the outer one; other names are found outside.
    assert_eq!(seen(&resolve_expr(&name("n"), &table, inner).unwrap()), binding(&["n"], Ty::NonPrimitive));
    assert_eq!(seen(&resolve_expr(&name("s"), &table, inner).unwrap()), binding(&["s"], Ty::NonPrimitive));
    assert_eq!(seen(&resolve_expr(&name("n"), &table, body).unwrap()), binding(&["n"], Ty::Primitive));
}

#[test]
fn absent_optional_value_is_primitive() {
    assert_eq!(resolved(&name("None")), of_type(Ty::Primitive));
}

#[test]
fn enum_variant_is_owned() {
    assert_eq!(resolved(&names(&["Color", "Red"])), of_type(Ty::NonPrimitive));
    assert_eq!(resolved(&names(&["Color", "Blue"])), unknown());
    assert_eq!(resolved(&names(&["Shade", "Red"])), unknown());
}

#[test]
fn longer_paths_are_unknown() {
    assert_eq!(resolved(&names(&["a", "b", "c"])), unknown());
    assert_eq!(resolved(&Expr::Path(Vec::new())), unknown());
}

#[test]
fn borrow_of_a_binding_refers_to_it() {
    let expected = Seen { var_type: Some(Ty::Ref), ref_to: Some(path(&["s"])), ..unknown() };
    assert_eq!(resolved(&borrow(name("s"))), expected);
    // A borrow of a primitive binding is a reference to it too.
    let expected = Seen { var_type: Some(Ty::Ref), ref_to: Some(path(&["n"])), ..unknown() };
    assert_eq!(resolved(&borrow(name("n"))), expected);
}

#[test]
fn borrow_of_a_borrow_keeps_the_target() {
    let expected = Seen { var_type: Some(Ty::Ref), ref_to: Some(path(&["s"])), ..unknown() };
    assert_eq!(resolved(&borrow(borrow(name("s")))), expected);
}

#[test]
fn borrow_of_an_unnamed_value() {
    // An owned temporary becomes an unnamed reference; anything else stays as it is.
    assert_eq!(resolved(&borrow(call(&["String", "new"], vec![]))), of_type(Ty::Ref));
    assert_eq!(resolved(&borrow(Expr::Lit)), of_type(Ty::Primitive));
    assert_eq!(resolved(&borrow(name("absent"))), unknown());
}

#[test]
fn literal_is_primitive() {
    assert_eq!(resolved(&Expr::Lit), of_type(Ty::Primitive));
}

#[test]
fn call_of_a_cataloged_function() {
    assert_eq!(resolved(&call(&["count"], vec![name("s")])), of_type(Ty::Primitive));
    assert_eq!(resolved(&call(&["view"], vec![])), of_type(Ty::Ref));
    // A cataloged function without a return type gives no classification.
    assert_eq!(resolved(&call(&["run"], vec![])), unknown());
}

#[test]
fn call_of_a_constructor() {
    let expected = Seen {
        var_type: Some(Ty::NonPrimitive),
        structure: vec![
            ("x".to_string(), of_type(Ty::Primitive)),
            ("label".to_string(), of_type(Ty::NonPrimitive)),
        ],
        ..unknown()
    };
    assert_eq!(resolved(&call(&["Point", "new"], vec![Expr::Lit])), expected);
}

#[test]
fn call_of_a_function_outside_the_catalog() {
    assert_eq!(resolved(&call(&["String", "from"], vec![Expr::Lit])), of_type(Ty::NonPrimitive));
    assert_eq!(resolved(&call(&["String", "eq"], vec![])), of_type(Ty::Primitive));
    assert_eq!(resolved(&call(&["mystery"], vec![])), of_type(Ty::NonPrimitive));
}

#[test]
fn call_with_a_callee_that_is_no_path() {
    let callee = Expr::Field(boxed(name("p")), "x".to_string());
    assert_eq!(resolved(&Expr::Call(boxed(callee), vec![])), unknown());
}

#[test]
fn present_optional_value_is_transparent() {
    assert_eq!(resolved(&call(&["Some"], vec![name("s")])), binding(&["s"], Ty::NonPrimitive));
    assert_eq!(resolved(&call(&["Some"], vec![Expr::Lit])), of_type(Ty::Primitive));
    let expected = Seen { var_type: Some(Ty::Ref), ref_to: Some(path(&["s"])), ..unknown() };
    assert_eq!(resolved(&call(&["Some"], vec![borrow(name("s"))])), expected);
}

#[test]
fn wrapper_needs_exactly_one_argument() {
    // With no argument or with two, `Some` is a function like any other.
    assert_eq!(resolved(&call(&["Some"], vec![])), of_type(Ty::NonPrimitive));
    assert_eq!(resolved(&call(&["Some"], vec![Expr::Lit, Expr::Lit])), of_type(Ty::NonPrimitive));
}

#[test]
fn method_call_by_catalog_or_receiver() {
    assert_eq!(resolved(&method("count", name("s"))), of_type(Ty::Primitive));
    assert_eq!(resolved(&method("run", name("s"))), unknown());
    assert_eq!(resolved(&method("len", name("s"))), of_type(Ty::Primitive));
    assert_eq!(resolved(&method("as_ref", name("s"))), of_type(Ty::Ref));
    assert_eq!(resolved(&method("clone", name("s"))), of_type(Ty::NonPrimitive));
    assert_eq!(resolved(&method("to_string", name("n"))), of_type(Ty::NonPrimitive));
    assert_eq!(resolved(&method("abs", name("n"))), of_type(Ty::Primitive));
    assert_eq!(resolved(&method("to_owned", name("r"))), of_type(Ty::NonPrimitive));
    assert_eq!(resolved(&method("len", name("r"))), of_type(Ty::Primitive));
    // A receiver of unknown classification: the table of free functions decides.
    assert_eq!(resolved(&method("len", name("absent"))), of_type(Ty::NonPrimitive));
}

#[test]
fn array_takes_after_its_first_element() {
    assert_eq!(resolved(&Expr::Array(vec![name("s"), Expr::Lit])), of_type(Ty::NonPrimitive));
    assert_eq!(resolved(&Expr::Array(vec![Expr::Lit, name("s")])), of_type(Ty::Primitive));
    assert_eq!(resolved(&Expr::Array(vec![])), unknown());
    let expected = Seen { var_type: Some(Ty::Ref), ref_to: Some(path(&["s"])), ..unknown() };
    assert_eq!(resolved(&Expr::Array(vec![borrow(name("s"))])), expected);
}

#[test]
fn repeat_takes_after_its_element() {
    assert_eq!(resolved(&Expr::Repeat(boxed(name("n")))), of_type(Ty::Primitive));
}

#[test]
fn block_takes_after_its_final_expression() {
    let with_tail = Block { tail: Some(boxed(name("s"))) };
    assert_eq!(resolved(&Expr::Block(with_tail)), of_type(Ty::NonPrimitive));
    let with_tail = Block { tail: Some(boxed(Expr::Lit)) };
    assert_eq!(resolved(&Expr::If(with_tail)), of_type(Ty::Primitive));
    assert_eq!(resolved(&Expr::Block(Block { tail: None })), unknown());
    assert_eq!(resolved(&Expr::If(Block { tail: None })), unknown());
}

#[test]
fn comparison_is_primitive() {
    let ex = Expr::Binary(true, boxed(name("s")), boxed(name("s")));
    assert_eq!(resolved(&ex), of_type(Ty::Primitive));
}

#[test]
fn other_binary_operation_takes_after_its_left_operand() {
    let ex = Expr::Binary(false, boxed(name("s")), boxed(Expr::Lit));
    assert_eq!(resolved(&ex), binding(&["s"], Ty::NonPrimitive));
    let ex = Expr::Binary(false, boxed(Expr::Lit), boxed(name("s")));
    assert_eq!(resolved(&ex), of_type(Ty::Primitive));
}

#[test]
fn unary_operation_other_than_dereference_is_primitive() {
    assert_eq!(resolved(&Expr::Unary(false, boxed(name("s")))), of_type(Ty::Primitive));
}

#[test]
fn dereference_of_a_borrow() {
    let expected =
        Seen { var_type: Some(Ty::NonPrimitive), ref_to: Some(path(&["s"])), ..unknown() };
    assert_eq!(resolved(&Expr::Unary(true, boxed(borrow(name("s"))))), expected);
    let expected = Seen { var_type: Some(Ty::Primitive), ref_to: Some(path(&["n"])), ..unknown() };
    assert_eq!(resolved(&Expr::Unary(true, boxed(borrow(name("n"))))), expected);
}

#[test]
fn dereference_of_what_refers_to_nothing() {
    assert_eq!(failed(&Expr::Unary(true, boxed(name("s")))), AdvisorError::Undereferenceable);
    assert_eq!(failed(&Expr::Unary(true, boxed(Expr::Lit))), AdvisorError::Undereferenceable);
    // A binding that is a reference is still no borrow expression.
    assert_eq!(failed(&Expr::Unary(true, boxed(name("r")))), AdvisorError::Undereferenceable);
}

#[test]
fn cast_goes_by_the_written_type() {
    assert_eq!(resolved(&Expr::Cast(TypeShape::Named("u8".to_string()))), of_type(Ty::Primitive));
    assert_eq!(resolved(&Expr::Cast(TypeShape::Named("Big".to_string()))), of_type(Ty::NonPrimitive));
    assert_eq!(resolved(&Expr::Cast(TypeShape::Pointer)), of_type(Ty::Ref));
}

#[test]
fn index_takes_after_what_is_indexed() {
    assert_eq!(resolved(&Expr::Index(boxed(name("s")))), binding(&["s"], Ty::NonPrimitive));
    assert_eq!(resolved(&Expr::Index(boxed(Expr::Lit))), of_type(Ty::Primitive));
}

#[test]
fn record_literal() {
    let ex = Expr::Struct(vec![
        ("a".to_string(), name("s")),
        ("b".to_string(), borrow(name("s"))),
        ("c".to_string(), name("absent")),
        ("d".to_string(), Expr::Struct(vec![("e".to_string(), Expr::Lit)])),
    ]);
    let expected = Seen {
        var_type: Some(Ty::NonPrimitive),
        structure: vec![
            // A field is no alias of its initializer.
            ("a".to_string(), of_type(Ty::NonPrimitive)),
            (
                "b".to_string(),
                Seen { var_type: Some(Ty::Ref), ref_to: Some(path(&["s"])), ..unknown() },
            ),
            ("c".to_string(), unknown()),
            (
                "d".to_string(),
                Seen {
                    var_type: Some(Ty::NonPrimitive),
                    structure: vec![("e".to_string(), of_type(Ty::Primitive))],
                    ..unknown()
                },
            ),
        ],
        ..unknown()
    };
    assert_eq!(resolved(&ex), expected);
}

#[test]
fn record_literal_with_a_field_given_twice() {
    let ex = Expr::Struct(vec![
        ("a".to_string(), Expr::Lit),
        ("b".to_string(), Expr::Lit),
        ("a".to_string(), name("s")),
    ]);
    let expected = Seen {
        var_type: Some(Ty::NonPrimitive),
        structure: vec![
            ("a".to_string(), of_type(Ty::NonPrimitive)),
            ("b".to_string(), of_type(Ty::Primitive)),
        ],
        ..unknown()
    };
    assert_eq!(resolved(&ex), expected);
}

#[test]
fn record_literal_with_a_field_that_fails() {
    let ex = Expr::Struct(vec![
        ("a".to_string(), Expr::Lit),
        ("b".to_string(), Expr::Unary(true, boxed(Expr::Lit))),
        ("c".to_string(), Expr::Field(boxed(name("p")), "absent".to_string())),
    ]);
    // The first field that fails decides.
    assert_eq!(failed(&ex), AdvisorError::Undereferenceable);
}

#[test]
fn field_of_a_record() {
    let ex = Expr::Field(boxed(name("p")), "x".to_string());
    assert_eq!(resolved(&ex), binding(&["p", "x"], Ty::Primitive));
    let ex = Expr::Field(boxed(name("p")), "label".to_string());
    assert_eq!(resolved(&ex), binding(&["p", "label"], Ty::NonPrimitive));
}

#[test]
fn field_that_the_binding_does_not_have() {
    let ex = Expr::Field(boxed(name("p")), "absent".to_string());
    assert_eq!(failed(&ex), AdvisorError::UnresolvedField);
    let ex = Expr::Field(boxed(name("s")), "len".to_string());
    assert_eq!(failed(&ex), AdvisorError::UnresolvedField);
    let ex = Expr::Field(boxed(Expr::Field(boxed(name("p")), "x".to_string())), "y".to_string());
    assert_eq!(failed(&ex), AdvisorError::UnresolvedField);
}

#[test]
fn field_of_what_is_no_binding() {
    let ex = Expr::Field(boxed(call(&["mystery"], vec![])), "x".to_string());
    assert_eq!(resolved(&ex), unknown());
    let ex = Expr::Field(boxed(name("absent")), "x".to_string());
    assert_eq!(resolved(&ex), unknown());
}

#[test]
fn errors_pass_through_enclosing_expressions() {
    let bad = || Expr::Unary(true, boxed(Expr::Lit));
    assert_eq!(failed(&borrow(bad())), AdvisorError::Undereferenceable);
    assert_eq!(failed(&Expr::Array(vec![bad()])), AdvisorError::Undereferenceable);
    assert_eq!(failed(&Expr::Repeat(boxed(bad()))), AdvisorError::Undereferenceable);
    assert_eq!(failed(&Expr::Index(boxed(bad()))), AdvisorError::Undereferenceable);
    assert_eq!(failed(&method("len", bad())), AdvisorError::Undereferenceable);
    assert_eq!(failed(&call(&["Some"], vec![bad()])), AdvisorError::Undereferenceable);
    assert_eq!(
        failed(&Expr::Block(Block { tail: Some(boxed(bad())) })),
        AdvisorError::Undereferenceable
    );
    assert_eq!(
        failed(&Expr::Binary(false, boxed(bad()), boxed(Expr::Lit))),
        AdvisorError::Undereferenceable
    );
    assert_eq!(failed(&Expr::Field(boxed(bad()), "x".to_string())), AdvisorError::Undereferenceable);
    // Only the first element of an array, and only the left operand, are looked at.
    assert_eq!(resolved(&Expr::Array(vec![Expr::Lit, bad()])), of_type(Ty::Primitive));
    assert_eq!(
        resolved(&Expr::Binary(false, boxed(Expr::Lit), boxed(bad()))),
        of_type(Ty::Primitive)
    );
    assert_eq!(resolved(&call(&["mystery"], vec![bad()])), of_type(Ty::NonPrimitive));
}

#[test]
fn expressions_without_a_value_of_their_own() {
    assert_eq!(resolved(&Expr::While), unknown());
    assert_eq!(resolved(&Expr::Loop), unknown());
    assert_eq!(resolved(&Expr::Other), unknown());
    assert_eq!(resolved(&Expr::Match(boxed(name("s")))), unknown());
    assert_eq!(resolved(&Expr::Assign(boxed(name("s")), boxed(Expr::Lit))), unknown());
}
