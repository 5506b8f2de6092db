use borrow_advisor::builtin::Ty;
use borrow_advisor::pre_record::classify;
use borrow_advisor::pre_record::get_records;
use borrow_advisor::pre_record::FnInfo;
use borrow_advisor::pre_record::PreRecord;
use borrow_advisor::syntax_tree::FieldDecl;
use borrow_advisor::syntax_tree::FnDecl;
use borrow_advisor::syntax_tree::Item;
use borrow_advisor::syntax_tree::TypeShape;

fn named(name: &str) -> TypeShape {
    TypeShape::Named(name.to_string())
}

#[test]
fn classify_primitive_names() {
    for name in [
        "i32", "bool", "char", "f32", "f64", "i16", "i64", "i8", "isize", "u16", "u32", "u64",
        "u8", "usize", "i128", "u128",
    ] {
        assert_eq!(classify(&named(name)), Ty::Primitive, "{}", name);
    }
}

#[test]
fn classify_other_names_as_owned() {
    assert_eq!(classify(&named("String")), Ty::NonPrimitive);
    assert_eq!(classify(&named("Vec")), Ty::NonPrimitive);
    assert_eq!(classify(&named("I32")), Ty::NonPrimitive);
    assert_eq!(classify(&TypeShape::Other), Ty::NonPrimitive);
}

#[test]
fn classify_references_and_pointers() {
    assert_eq!(classify(&TypeShape::Reference), Ty::Ref);
    assert_eq!(classify(&TypeShape::Pointer), Ty::Ref);
}

#[test]
fn classify_slices_and_arrays_by_element() {
    assert_eq!(classify(&TypeShape::Slice(Box::new(named("u8")))), Ty::Primitive);
    assert_eq!(classify(&TypeShape::Array(Box::new(named("String")))), Ty::NonPrimitive);
    assert_eq!(
        classify(&TypeShape::Array(Box::new(TypeShape::Slice(Box::new(TypeShape::Reference))))),
        Ty::Ref
    );
}

#[test]
fn records_of_a_program() {
    let items = vec![
        Item::Enum("Color".to_string(), vec!["Red".to_string(), "Green".to_string()]),
        Item::Struct(
            "Point".to_string(),
            vec![
                FieldDecl { name: Some("x".to_string()), ty: named("i32") },
                FieldDecl { name: Some("label".to_string()), ty: named("String") },
                FieldDecl { name: Some("owner".to_string()), ty: TypeShape::Reference },
            ],
        ),
        Item::Other,
        Item::Fn(FnDecl {
            name: "length".to_string(),
            inputs: 2,
            receiver: true,
            output: Some(named("usize")),
        }),
        Item::Fn(FnDecl { name: "main".to_string(), inputs: 0, receiver: false, output: None }),
    ];
    let records = get_records(&items);

    assert_eq!(records.enum_record.len(), 1);
    assert_eq!(records.enum_record[0].0, "Color");
    assert_eq!(records.enum_record[0].1, vec!["Red".to_string(), "Green".to_string()]);
    assert!(records.enum_has_variant("Color", "Green"));
    assert!(!records.enum_has_variant("Color", "Blue"));
    assert!(!records.enum_has_variant("Shade", "Red"));

    assert_eq!(records.struct_record.len(), 1);
    assert_eq!(records.struct_record[0].0, "Point");
    assert_eq!(
        records.struct_record[0].1,
        vec![
            ("x".to_string(), Ty::Primitive),
            ("label".to_string(), Ty::NonPrimitive),
            ("owner".to_string(), Ty::Ref),
        ]
    );

    // The record type brings its constructor; a receiver is not counted.
    let names: Vec<&str> = records.fun_record.iter().map(|f| f.0.as_str()).collect();
    assert_eq!(names, vec!["Pointnew", "length", "main"]);
    let built = records.find_fn("Pointnew").unwrap();
    assert_eq!(built.output, Some(Ty::NonPrimitive));
    assert_eq!(built.input, 0);
    let length = records.find_fn("length").unwrap();
    assert_eq!(length.output, Some(Ty::Primitive));
    assert_eq!(length.input, 1);
    let main = records.find_fn("main").unwrap();
    assert_eq!(main.output, None);
    assert_eq!(main.input, 0);
    assert!(records.find_fn("absent").is_none());

    assert_eq!(records.constructor_of("Pointnew"), Some(0));
    assert_eq!(records.constructor_of("length"), None);
}

#[test]
fn later_declaration_replaces_earlier() {
    let mut records = PreRecord::new();
    records.insert_fn("f".to_string(), FnInfo { output: None, input: 1 });
    records.insert_fn("g".to_string(), FnInfo { output: None, input: 2 });
    records.insert_fn("f".to_string(), FnInfo { output: Some(Ty::Ref), input: 3 });
    assert_eq!(records.fun_record.len(), 2);
    assert_eq!(records.fun_record[0].0, "f");
    assert_eq!(records.find_fn("f").unwrap().input, 3);
    assert_eq!(records.find_fn("f").unwrap().output, Some(Ty::Ref));
    assert_eq!(records.find_fn("g").unwrap().input, 2);
}

#[test]
fn unnamed_field_and_field_named_twice() {
    let items = vec![Item::Struct(
        "Pair".to_string(),
        vec![
            FieldDecl { name: None, ty: named("u8") },
            FieldDecl { name: Some("a".to_string()), ty: named("u8") },
            FieldDecl { name: Some("a".to_string()), ty: named("String") },
        ],
    )];
    let records = get_records(&items);
    assert_eq!(
        records.struct_record[0].1,
        vec![(" ".to_string(), Ty::Primitive), ("a".to_string(), Ty::NonPrimitive)]
    );
}

#[test]
fn function_of_an_impl_without_receiver_keeps_its_parameters() {
    let items = vec![
        Item::Fn(FnDecl {
            name: "make".to_string(),
            inputs: 1,
            receiver: false,
            output: Some(named("Thing")),
        }),
        Item::Fn(FnDecl { name: "size".to_string(), inputs: 3, receiver: true, output: None }),
        Item::Fn(FnDecl { name: "odd".to_string(), inputs: 0, receiver: true, output: None }),
    ];
    let records = get_records(&items);
    assert_eq!(records.find_fn("make").unwrap().input, 1);
    assert_eq!(records.find_fn("make").unwrap().output, Some(Ty::NonPrimitive));
    assert_eq!(records.find_fn("size").unwrap().input, 2);
    // A receiver without an input cannot be: nothing is taken off.
    assert_eq!(records.find_fn("odd").unwrap().input, 0);
}
