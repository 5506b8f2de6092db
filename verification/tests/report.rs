use borrow_advisor::analyzer::annotate;
use borrow_advisor::analyzer::group_by_line;
use borrow_advisor::analyzer::DropAdvice;
use borrow_advisor::analyzer::LineAdvice;
use borrow_advisor::builtin::Ty;
use borrow_advisor::pre_record::FnInfo;
use borrow_advisor::pre_record::PreRecord;
use borrow_advisor::symbol_table::SymbolTable;

fn path(names: &[&str]) -> Vec<String> {
    names.iter().map(|n| n.to_string()).collect()
}

fn advice(line: u64, name: &str) -> DropAdvice {
    DropAdvice { line, name: name.to_string() }
}

fn text(name: &str) -> String {
    format!("drop( {} ); // Adivice: a drop function can add here", name)
}

fn shown(lines: &[LineAdvice]) -> Vec<(u64, Vec<String>)> {
    lines.iter().map(|l| (l.line, l.texts.clone())).collect()
}

#[test]
fn text_of_an_advice() {
    assert_eq!(advice(3, "buffer").text(), "drop( buffer ); // Adivice: a drop function can add here");
    assert_eq!(advice(3, "").text(), "drop(  ); // Adivice: a drop function can add here");
}

#[test]
fn grouping_orders_by_line() {
    let emitted = vec![advice(9, "a"), advice(3, "b"), advice(9, "c"), advice(1, "d"), advice(3, "e"), advice(5, "f")];
    let lines = group_by_line(&emitted);
    assert_eq!(
        shown(&lines),
        vec![
            (1, vec![text("d")]),
            (3, vec![text("b"), text("e")]),
            (5, vec![text("f")]),
            (9, vec![text("a"), text("c")]),
        ]
    );
}

#[test]
fn grouping_of_nothing() {
    assert!(group_by_line(&Vec::new()).is_empty());
}

#[test]
fn advice_is_written_before_its_line() {
    let source = path(&["fn main() {", "    let x = make();", "    use_it(&x);", "    wait();", "}"]);
    let lines = group_by_line(&vec![advice(4, "x"), advice(4, "y"), advice(1, "top"), advice(6, "late")]);
    let out = annotate(&source, &lines);
    assert_eq!(
        out,
        vec![
            text("top"),
            "fn main() {".to_string(),
            "    let x = make();".to_string(),
            "    use_it(&x);".to_string(),
            text("x"),
            text("y"),
            "    wait();".to_string(),
            "}".to_string(),
        ]
    );
}

#[test]
fn nothing_to_write_leaves_the_program_as_it_is() {
    let source = path(&["a", "b"]);
    assert_eq!(annotate(&source, &Vec::new()), source);
    assert!(annotate(&Vec::new(), &group_by_line(&vec![advice(1, "x")])).is_empty());
}

#[test]
fn first_entry_of_a_line_is_written() {
    let lines = vec![
        LineAdvice { line: 2, texts: path(&["first"]) },
        LineAdvice { line: 1, texts: path(&["one"]) },
        LineAdvice { line: 2, texts: path(&["second"]) },
    ];
    assert_eq!(annotate(&path(&["a", "b"]), &lines), path(&["one", "a", "first", "b"]));
}

#[test]
fn report_of_a_small_program() {
    let mut records = PreRecord::new();
    records.insert_fn("main".to_string(), FnInfo { output: None, input: 0 });
    records.insert_fn("show".to_string(), FnInfo { output: None, input: 1 });
    records.insert_fn("keep".to_string(), FnInfo { output: Some(Ty::NonPrimitive), input: 2 });
    let mut table = SymbolTable::new(1, 14, records);
    let body = table.open_scope(table.root(), 4, 14);
    let none = Vec::new();
    table.declare(body, "a", Ty::NonPrimitive, &None, &none, 5).unwrap();
    table.declare(body, "b", Ty::NonPrimitive, &None, &none, 6).unwrap();
    table.record_last_used(body, &path(&["a"]), 7).unwrap();
    table.record_call(body, "show".to_string(), None, vec![Some(path(&["a"]))], 7);
    table.record_last_used(body, &path(&["a"]), 8).unwrap();
    table.record_last_used(body, &path(&["b"]), 8).unwrap();
    table.record_call(body, "keep".to_string(), None, vec![Some(path(&["a"])), Some(path(&["b"]))], 8);
    table.record_last_used(body, &path(&["b"]), 13).unwrap();

    let report = table.start_analyze();
    // `a` is free after line 8; `b` is used until the line before the scope ends.
    assert_eq!(shown(&report.drop_advice), vec![(9, vec![text("a")])]);
    let flags: Vec<(String, Vec<bool>)> =
        report.function_advice.iter().map(|f| (f.name.clone(), f.flags.clone())).collect();
    assert_eq!(
        flags,
        vec![("show".to_string(), vec![false]), ("keep".to_string(), vec![true, false])]
    );
}
