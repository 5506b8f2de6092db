use borrow_advisor::analyzer::Report;
use borrow_advisor::builtin::Ty;
use borrow_advisor::error::AdvisorError;
use borrow_advisor::pre_record::FnInfo;
use borrow_advisor::pre_record::PreRecord;
use borrow_advisor::symbol_table::SymbolTable;
use borrow_advisor::syntax_tree::Block;
use borrow_advisor::syntax_tree::Expr;
use borrow_advisor::syntax_tree::Pattern;
use borrow_advisor::syntax_tree::Stmt;

const DROP_X: &str = "drop( x ); // Adivice: a drop function can add here";
const DROP_A: &str = "drop( a ); // Adivice: a drop function can add here";

fn path(names: &[&str]) -> Vec<String> {
    names.iter().map(|n| n.to_string()).collect()
}

fn name(n: &str) -> Expr {
    Expr::Path(path(&[n]))
}

fn borrow(n: &str) -> Expr {
    Expr::AddrOf(Box::new(name(n)))
}

fn call(f: &str, args: Vec<Expr>) -> Expr {
    Expr::Call(Box::new(name(f)), args)
}

fn owned(table: &mut SymbolTable, scope: usize, n: &str, line: u32) {
    table.declare(scope, n, Ty::NonPrimitive, &None, &Vec::new(), line).unwrap();
}

fn lines(report: &Report) -> Vec<(u64, Vec<String>)> {
    report.drop_advice.iter().map(|l| (l.line, l.texts.clone())).collect()
}

fn flags(report: &Report) -> Vec<(String, Vec<bool>)> {
    report.function_advice.iter().map(|f| (f.name.clone(), f.flags.clone())).collect()
}

fn with_function(f: &str, input: usize) -> PreRecord {
    let mut records = PreRecord::new();
    records.insert_fn(f.to_string(), FnInfo { output: None, input });
    records
}

#[test]
fn no_early_advice_at_natural_boundary() {
    let mut table = SymbolTable::new(1, 3, PreRecord::new());
    let body = table.open_scope(table.root(), 1, 3);
    owned(&mut table, body, "x", 1);
    table.record_last_used(body, &path(&["x"]), 2).unwrap();
    let report = table.start_analyze();
    assert!(report.drop_advice.is_empty());
}

#[test]
fn early_advice_fires_on_gap() {
    let mut table = SymbolTable::new(1, 5, PreRecord::new());
    let body = table.open_scope(table.root(), 1, 5);
    owned(&mut table, body, "x", 1);
    table.record_last_used(body, &path(&["x"]), 2).unwrap();
    let report = table.start_analyze();
    assert_eq!(lines(&report), vec![(3, vec![DROP_X.to_string()])]);
}

#[test]
fn never_used_binding_gets_no_advice() {
    let mut table = SymbolTable::new(1, 5, PreRecord::new());
    let body = table.open_scope(table.root(), 1, 5);
    owned(&mut table, body, "x", 1);
    assert!(table.start_analyze().drop_advice.is_empty());
}

#[test]
fn alias_defers_release() {
    let mut table = SymbolTable::new(1, 10, PreRecord::new());
    let outer = table.open_scope(table.root(), 1, 10);
    owned(&mut table, outer, "a", 1);
    let inner = table.open_scope(outer, 2, 4);
    let stmt = Stmt::Local(Pattern::Ident("b".to_string(), 2), borrow("a"), 2);
    table.visit_stmt(inner, &stmt).unwrap();

    let a = table.resolve(inner, &path(&["a"])).unwrap();
    assert_eq!(a.aliased_by, vec![path(&["b"])]);
    assert_eq!(a.last_used_at, Some(2));
    let b = table.resolve(inner, &path(&["b"])).unwrap();
    assert_eq!(b.classification, Ty::Ref);
    assert_eq!(b.alias_target, Some(path(&["a"])));
    assert_eq!(b.scope_exit_at, 4);
    assert_eq!(table.resolve(outer, &path(&["b"])).err(), Some(AdvisorError::PathNotFound));

    let report = table.start_analyze();
    assert_eq!(lines(&report), vec![(5, vec![DROP_A.to_string()])]);
}

#[test]
fn alias_in_the_same_scope_defers_nothing() {
    // The reference lives as long as the owner: there is no earlier line to advise.
    let mut table = SymbolTable::new(1, 10, PreRecord::new());
    let outer = table.open_scope(table.root(), 1, 10);
    owned(&mut table, outer, "a", 1);
    let stmt = Stmt::Local(Pattern::Ident("b".to_string(), 2), borrow("a"), 2);
    table.visit_stmt(outer, &stmt).unwrap();
    assert!(table.start_analyze().drop_advice.is_empty());
}

#[test]
fn latest_alias_decides() {
    let mut table = SymbolTable::new(1, 20, PreRecord::new());
    let outer = table.open_scope(table.root(), 1, 20);
    owned(&mut table, outer, "a", 1);
    let first = table.open_scope(outer, 2, 4);
    table.visit_stmt(first, &Stmt::Local(Pattern::Ident("b".to_string(), 2), borrow("a"), 2)).unwrap();
    let second = table.open_scope(outer, 6, 9);
    table.visit_stmt(second, &Stmt::Local(Pattern::Ident("c".to_string(), 7), borrow("a"), 7)).unwrap();
    let report = table.start_analyze();
    assert_eq!(lines(&report), vec![(10, vec![DROP_A.to_string()])]);
}

#[test]
fn move_suppresses_advice() {
    let mut table = SymbolTable::new(1, 9, PreRecord::new());
    let body = table.open_scope(table.root(), 1, 9);
    owned(&mut table, body, "x", 1);
    // `let y = x;` moves the value into another binding.
    let stmt = Stmt::Local(Pattern::Ident("y".to_string(), 2), name("x"), 2);
    table.visit_stmt(body, &stmt).unwrap();
    let x = table.resolve(body, &path(&["x"])).unwrap();
    assert!(x.moved);
    assert_eq!(x.last_used_at, Some(2));
    let report = table.start_analyze();
    // Nothing for `x`; `y` was never used, so nothing for it either.
    assert!(report.drop_advice.is_empty());
}

#[test]
fn move_into_call_suppresses_advice() {
    let mut table = SymbolTable::new(1, 9, with_function("consume", 1));
    let body = table.open_scope(table.root(), 1, 9);
    owned(&mut table, body, "x", 1);
    assert_eq!(table.visit_expr(body, &call("consume", vec![name("x")]), 3, 3), Ok(true));
    assert!(table.resolve(body, &path(&["x"])).unwrap().moved);
    assert!(table.start_analyze().drop_advice.is_empty());
}

#[test]
fn single_safe_call_site() {
    let mut table = SymbolTable::new(1, 9, with_function("f", 1));
    let body = table.open_scope(table.root(), 1, 9);
    owned(&mut table, body, "x", 5);
    assert_eq!(table.visit_expr(body, &call("f", vec![borrow("x")]), 7, 7), Ok(true));

    let calls = &table.scope(body).calls;
    assert_eq!(calls.len(), 1);
    assert_eq!(calls[0].function_name, "f");
    assert_eq!(calls[0].receiver, None);
    assert_eq!(calls[0].arguments, vec![Some(path(&["x"]))]);
    assert_eq!(calls[0].call_site_line, 7);

    let report = table.start_analyze();
    assert_eq!(flags(&report), vec![("f".to_string(), vec![true])]);
    // The borrow is the last use of `x`, two lines before its scope ends.
    assert_eq!(lines(&report), vec![(8, vec![DROP_X.to_string()])]);
}

#[test]
fn disqualified_by_any_reuse() {
    let mut table = SymbolTable::new(1, 20, with_function("f", 1));
    let body = table.open_scope(table.root(), 1, 20);
    owned(&mut table, body, "x", 2);
    owned(&mut table, body, "y", 3);
    // At the first call the argument is not used afterwards.
    table.visit_expr(body, &call("f", vec![borrow("x")]), 5, 5).unwrap();
    // At the second the argument is read again on a later line.
    table.visit_expr(body, &call("f", vec![borrow("y")]), 7, 7).unwrap();
    table.visit_mac(body, &path(&["y"]), 9).unwrap();
    let report = table.start_analyze();
    assert_eq!(flags(&report), vec![("f".to_string(), vec![false])]);
}

#[test]
fn each_parameter_has_its_own_flag() {
    let mut table = SymbolTable::new(1, 20, with_function("g", 3));
    let body = table.open_scope(table.root(), 1, 20);
    owned(&mut table, body, "a", 2);
    owned(&mut table, body, "b", 3);
    table.visit_expr(body, &call("g", vec![borrow("a"), borrow("b")]), 5, 5).unwrap();
    table.visit_mac(body, &path(&["b"]), 6).unwrap();
    let report = table.start_analyze();
    // The third parameter never had an argument that is a binding.
    assert_eq!(flags(&report), vec![("g".to_string(), vec![true, false, true])]);
}

#[test]
fn function_never_called_keeps_all_flags() {
    let table = SymbolTable::new(1, 20, with_function("h", 2));
    assert_eq!(flags(&table.start_analyze()), vec![("h".to_string(), vec![true, true])]);
}

#[test]
fn entry_point_and_constructors_get_no_advice() {
    let mut records = PreRecord::new();
    records.insert_fn("main".to_string(), FnInfo { output: None, input: 0 });
    records.insert_fn("new".to_string(), FnInfo { output: None, input: 1 });
    records.insert_struct("Point".to_string(), vec![("x".to_string(), Ty::Primitive)]);
    records.insert_fn("area".to_string(), FnInfo { output: Some(Ty::Primitive), input: 1 });
    let table = SymbolTable::new(1, 20, records);
    assert_eq!(flags(&table.start_analyze()), vec![("area".to_string(), vec![true])]);
}

#[test]
fn branch_widening() {
    let mut table = SymbolTable::new(1, 12, with_function("f", 1));
    let body = table.open_scope(table.root(), 1, 12);
    owned(&mut table, body, "x", 2);
    let branch = Expr::If(Block { tail: None });
    assert_eq!(table.visit_expr(body, &branch, 4, 9), Ok(true));
    let arm = table.visit_block(body, 4, 6);
    table.visit_expr(arm, &call("f", vec![borrow("x")]), 5, 5).unwrap();
    let other = table.visit_block(body, 6, 9);
    assert!(table.has_scope(other));
    assert_eq!(table.resolve(body, &path(&["x"])).unwrap().last_used_at, Some(5));
    table.leave_expr(body, &branch, 4, 9);

    assert_eq!(table.resolve(body, &path(&["x"])).unwrap().last_used_at, Some(9));
    // The call inside the branch counts as made at the branch's end too.
    assert_eq!(table.scope(arm).calls[0].call_site_line, 9);
    let report = table.start_analyze();
    assert_eq!(lines(&report), vec![(10, vec![DROP_X.to_string()])]);
    assert_eq!(flags(&report), vec![("f".to_string(), vec![true])]);
}

#[test]
fn widening_leaves_other_bindings_alone() {
    let mut table = SymbolTable::new(1, 30, PreRecord::new());
    let outer = table.open_scope(table.root(), 1, 30);
    let middle = table.open_scope(outer, 2, 29);
    let inner = table.open_scope(middle, 3, 28);
    owned(&mut table, outer, "far", 1);
    owned(&mut table, middle, "near", 2);
    owned(&mut table, inner, "before", 3);
    owned(&mut table, inner, "inside", 11);
    owned(&mut table, inner, "after", 3);
    for (scope, n, line) in [
        (outer, "far", 12),
        (middle, "near", 12),
        (inner, "before", 12),
        (inner, "inside", 12),
        (inner, "after", 21),
    ] {
        table.record_last_used(scope, &path(&[n]), line).unwrap();
    }
    table.widen_last_use(inner, 10, 20, 2);
    let last = |n: &str| table.resolve(inner, &path(&[n])).unwrap().last_used_at;
    // Two scopes are widened: the one of the region and its parent.
    assert_eq!(last("far"), Some(12));
    assert_eq!(last("near"), Some(20));
    assert_eq!(last("before"), Some(20));
    // Declared inside the region, or used outside it: untouched.
    assert_eq!(last("inside"), Some(12));
    assert_eq!(last("after"), Some(21));
}

#[test]
fn loop_widens_one_scope() {
    let mut table = SymbolTable::new(1, 30, PreRecord::new());
    let outer = table.open_scope(table.root(), 1, 30);
    let inner = table.open_scope(outer, 2, 29);
    owned(&mut table, outer, "far", 1);
    owned(&mut table, inner, "near", 2);
    table.record_last_used(inner, &path(&["far"]), 12).unwrap();
    table.record_last_used(inner, &path(&["near"]), 12).unwrap();
    assert_eq!(table.visit_expr(inner, &Expr::Loop, 10, 20), Ok(true));
    table.leave_expr(inner, &Expr::Loop, 10, 20);
    assert_eq!(table.resolve(inner, &path(&["far"])).unwrap().last_used_at, Some(12));
    assert_eq!(table.resolve(inner, &path(&["near"])).unwrap().last_used_at, Some(20));
}

#[test]
fn analysis_is_repeatable() {
    let mut table = SymbolTable::new(1, 20, with_function("f", 1));
    let body = table.open_scope(table.root(), 1, 20);
    owned(&mut table, body, "x", 2);
    owned(&mut table, body, "a", 3);
    table.visit_expr(body, &call("f", vec![borrow("x")]), 5, 5).unwrap();
    table.record_last_used(body, &path(&["a"]), 4).unwrap();
    let first = table.start_analyze();
    let second = table.start_analyze();
    assert_eq!(lines(&first), lines(&second));
    assert_eq!(flags(&first), flags(&second));
    assert_eq!(
        lines(&first),
        vec![(5, vec![DROP_A.to_string()]), (6, vec![DROP_X.to_string()])]
    );
}

#[test]
fn advice_of_one_line_keeps_tree_order() {
    let mut table = SymbolTable::new(1, 20, PreRecord::new());
    let body = table.open_scope(table.root(), 1, 20);
    owned(&mut table, body, "x", 2);
    let inner = table.open_scope(body, 3, 10);
    owned(&mut table, inner, "a", 3);
    owned(&mut table, body, "late", 11);
    table.record_last_used(inner, &path(&["a"]), 4).unwrap();
    table.record_last_used(body, &path(&["late"]), 12).unwrap();
    table.record_last_used(body, &path(&["x"]), 4).unwrap();
    let report = table.start_analyze();
    let late = "drop( late ); // Adivice: a drop function can add here";
    assert_eq!(
        lines(&report),
        vec![(5, vec![DROP_X.to_string(), DROP_A.to_string()]), (13, vec![late.to_string()])]
    );
}

#[test]
fn walk_of_a_small_program() {
    // 1  fn main() {
    // 2      let s = String::from("hi");
    // 3      let r = &s;
    // 4      if cond {
    // 5          show(r);
    // 6      }
    // 7      let t = s;
    // 8      done();
    // 9  }
    let mut walked = 0;
    let mut table = SymbolTable::new(1, 9, with_function("show", 1));
    let mut enter = |table: &mut SymbolTable, scope: usize, ex: &Expr, lo: u32, hi: u32| {
        walked += 1;
        table.visit_expr(scope, ex, lo, hi)
    };
    let body = table.visit_block(table.root(), 1, 9);

    let from = Expr::Call(Box::new(Expr::Path(path(&["String", "from"]))), vec![Expr::Lit]);
    table.visit_stmt(body, &Stmt::Local(Pattern::Ident("s".to_string(), 2), from, 2)).unwrap();
    let from = Expr::Call(Box::new(Expr::Path(path(&["String", "from"]))), vec![Expr::Lit]);
    assert_eq!(enter(&mut table, body, &from, 2, 2), Ok(true));
    assert_eq!(enter(&mut table, body, &Expr::Lit, 2, 2), Ok(true));

    table.visit_stmt(body, &Stmt::Local(Pattern::Ident("r".to_string(), 3), borrow("s"), 3)).unwrap();
    assert_eq!(enter(&mut table, body, &borrow("s"), 3, 3), Ok(true));
    assert_eq!(enter(&mut table, body, &name("s"), 3, 3), Ok(true));

    let branch = Expr::If(Block { tail: None });
    assert_eq!(enter(&mut table, body, &branch, 4, 6), Ok(true));
    assert_eq!(enter(&mut table, body, &name("cond"), 4, 4), Ok(true));
    let arm = table.visit_block(body, 4, 6);
    assert_eq!(enter(&mut table, arm, &call("show", vec![name("r")]), 5, 5), Ok(true));
    assert_eq!(enter(&mut table, arm, &name("r"), 5, 5), Ok(true));
    table.leave_expr(body, &branch, 4, 6);

    table.visit_stmt(body, &Stmt::Local(Pattern::Ident("t".to_string(), 7), name("s"), 7)).unwrap();
    assert_eq!(enter(&mut table, body, &name("s"), 7, 7), Ok(true));
    assert_eq!(enter(&mut table, body, &call("done", vec![]), 8, 8), Ok(true));
    assert_eq!(walked, 10);

    let s = table.resolve(arm, &path(&["s"])).unwrap();
    assert!(s.moved);
    assert_eq!(s.last_used_at, Some(7));
    assert_eq!(s.aliased_by, vec![path(&["r"])]);
    let r = table.resolve(arm, &path(&["r"])).unwrap();
    assert_eq!(r.last_used_at, Some(6));
    assert_eq!(table.scope(arm).calls[0].call_site_line, 6);
    assert_eq!(table.resolve(body, &path(&["t"])).unwrap().classification, Ty::NonPrimitive);

    let report = table.start_analyze();
    // `s` was moved into `t`, which is never used: nothing can be released early.
    assert!(report.drop_advice.is_empty());
    assert_eq!(flags(&report), vec![("show".to_string(), vec![true])]);
}

#[test]
fn alias_inside_a_branch_decides_before_the_branch_ends() {
    // A binding that is referred to is released after its last alias, also where
    // that alias lives in one arm of a branch.
    let mut table = SymbolTable::new(1, 12, PreRecord::new());
    let body = table.open_scope(table.root(), 1, 12);
    owned(&mut table, body, "a", 2);
    let branch = Expr::If(Block { tail: None });
    assert_eq!(table.visit_expr(body, &branch, 4, 9), Ok(true));
    let arm = table.visit_block(body, 4, 6);
    table.visit_stmt(arm, &Stmt::Local(Pattern::Ident("b".to_string(), 5), borrow("a"), 5)).unwrap();
    table.leave_expr(body, &branch, 4, 9);
    assert_eq!(table.resolve(body, &path(&["a"])).unwrap().last_used_at, Some(9));
    assert_eq!(lines(&table.start_analyze()), vec![(7, vec![DROP_A.to_string()])]);
}

#[test]
fn argument_that_is_no_binding_keeps_its_place() {
    // 3  f(1, &x);
    // 5  read!(x);
    let mut table = SymbolTable::new(1, 20, with_function("f", 2));
    let body = table.open_scope(table.root(), 1, 20);
    owned(&mut table, body, "x", 2);
    assert_eq!(table.visit_expr(body, &call("f", vec![Expr::Lit, borrow("x")]), 3, 3), Ok(true));
    let calls = &table.scope(body).calls;
    assert_eq!(calls[0].arguments, vec![None, Some(path(&["x"]))]);
    // While `x` is not used again, both parameters keep their flag.
    assert_eq!(flags(&table.start_analyze()), vec![("f".to_string(), vec![true, true])]);
    table.visit_mac(body, &path(&["x"]), 5).unwrap();
    // The reuse speaks against the second parameter, where `x` stands.
    assert_eq!(flags(&table.start_analyze()), vec![("f".to_string(), vec![true, false])]);
}

#[test]
fn argument_that_is_a_call_keeps_its_place() {
    let mut table = SymbolTable::new(1, 20, with_function("f", 3));
    let body = table.open_scope(table.root(), 1, 20);
    owned(&mut table, body, "a", 2);
    owned(&mut table, body, "b", 2);
    let len = Expr::MethodCall("len".to_string(), Box::new(name("a")), Vec::new());
    let ex = call("f", vec![len, call("make", vec![]), borrow("b")]);
    assert_eq!(table.visit_expr(body, &ex, 4, 4), Ok(true));
    assert_eq!(table.scope(body).calls[0].arguments, vec![None, None, Some(path(&["b"]))]);
    table.visit_mac(body, &path(&["b"]), 6).unwrap();
    assert_eq!(flags(&table.start_analyze()), vec![("f".to_string(), vec![true, true, false])]);
}

#[test]
fn let_with_a_sum_consumes_the_operand_once() {
    // 3  let y = x + 1;
    let mut table = SymbolTable::new(1, 20, PreRecord::new());
    let body = table.open_scope(table.root(), 1, 20);
    owned(&mut table, body, "x", 2);
    let sum = || Expr::Binary(false, Box::new(name("x")), Box::new(Expr::Lit));
    table.visit_stmt(body, &Stmt::Local(Pattern::Ident("y".to_string(), 3), sum(), 3)).unwrap();
    // The `let` leaves the use to the operation, which the walk enters next.
    let x = table.resolve(body, &path(&["x"])).unwrap();
    assert!(!x.moved);
    assert_eq!(x.last_used_at, None);
    assert_eq!(table.resolve(body, &path(&["y"])).unwrap().classification, Ty::NonPrimitive);
    assert_eq!(table.visit_expr(body, &sum(), 3, 3), Ok(false));
    let x = table.resolve(body, &path(&["x"])).unwrap();
    assert!(x.moved);
    assert_eq!(x.last_used_at, Some(3));
}

#[test]
fn let_with_a_present_optional_value_consumes_it_once() {
    // 3  let o = Some(x);
    let mut table = SymbolTable::new(1, 20, PreRecord::new());
    let body = table.open_scope(table.root(), 1, 20);
    owned(&mut table, body, "x", 2);
    let wrapped = || call("Some", vec![name("x")]);
    table.visit_stmt(body, &Stmt::Local(Pattern::Ident("o".to_string(), 3), wrapped(), 3)).unwrap();
    assert!(!table.resolve(body, &path(&["x"])).unwrap().moved);
    assert_eq!(table.resolve(body, &path(&["o"])).unwrap().classification, Ty::NonPrimitive);
    assert_eq!(table.visit_expr(body, &wrapped(), 3, 3), Ok(true));
    assert_eq!(table.visit_expr(body, &name("x"), 3, 3), Ok(true));
    let x = table.resolve(body, &path(&["x"])).unwrap();
    assert!(x.moved);
    assert_eq!(x.last_used_at, Some(3));
}

#[test]
fn nested_uses_consume_once() {
    // 3  f(Some(a + &b), (c + 1)[0]);
    let mut table = SymbolTable::new(1, 20, with_function("f", 2));
    let body = table.open_scope(table.root(), 1, 20);
    for n in ["a", "b", "c"] {
        owned(&mut table, body, n, 2);
    }
    let sum = || Expr::Binary(false, Box::new(name("a")), Box::new(borrow("b")));
    let wrapped = || call("Some", vec![sum()]);
    let other = || Expr::Binary(false, Box::new(name("c")), Box::new(Expr::Lit));
    let indexed = || Expr::Index(Box::new(other()));
    // The walk, node by node, in the order of the program.
    assert_eq!(table.visit_expr(body, &call("f", vec![wrapped(), indexed()]), 3, 3), Ok(true));
    for n in ["a", "b", "c"] {
        assert!(!table.resolve(body, &path(&[n])).unwrap().moved);
    }
    assert_eq!(
        table.scope(body).calls[0].arguments,
        vec![Some(path(&["a"])), Some(path(&["c"]))]
    );
    assert_eq!(table.visit_expr(body, &wrapped(), 3, 3), Ok(true));
    assert_eq!(table.visit_expr(body, &sum(), 3, 3), Ok(false));
    assert_eq!(table.visit_expr(body, &indexed(), 3, 3), Ok(true));
    assert_eq!(table.visit_expr(body, &other(), 3, 3), Ok(false));
    assert!(table.resolve(body, &path(&["a"])).unwrap().moved);
    assert!(table.resolve(body, &path(&["c"])).unwrap().moved);
    let b = table.resolve(body, &path(&["b"])).unwrap();
    assert!(!b.moved);
    assert_eq!(b.last_used_at, Some(3));
    assert_eq!(flags(&table.start_analyze()), vec![("f".to_string(), vec![true, true])]);
}

#[test]
fn match_and_assignment_leave_the_use_to_the_operation() {
    let mut table = SymbolTable::new(1, 20, PreRecord::new());
    let body = table.open_scope(table.root(), 1, 20);
    owned(&mut table, body, "x", 2);
    owned(&mut table, body, "t", 2);
    let sum = || Expr::Binary(false, Box::new(name("x")), Box::new(Expr::Lit));
    assert_eq!(table.visit_expr(body, &Expr::Match(Box::new(sum())), 3, 5), Ok(true));
    assert!(!table.resolve(body, &path(&["x"])).unwrap().moved);
    let assign = Expr::Assign(Box::new(name("t")), Box::new(sum()));
    assert_eq!(table.visit_expr(body, &assign, 6, 6), Ok(true));
    assert!(!table.resolve(body, &path(&["x"])).unwrap().moved);
    assert_eq!(table.resolve(body, &path(&["t"])).unwrap().declared_at, 6);
    assert_eq!(table.visit_expr(body, &sum(), 6, 6), Ok(false));
    assert!(table.resolve(body, &path(&["x"])).unwrap().moved);
}
