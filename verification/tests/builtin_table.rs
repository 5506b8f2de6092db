use borrow_advisor::builtin::get_call_rety;
use borrow_advisor::builtin::get_func_rety;
use borrow_advisor::builtin::get_non_prim_func_rety;
use borrow_advisor::builtin::get_prim_func_rety;
use borrow_advisor::builtin::get_ref_func_rety;
use borrow_advisor::builtin::Ty;

#[test]
fn method_on_primitive_receiver() {
    assert_eq!(get_func_rety("to_string", Some(Ty::Primitive)), Ty::NonPrimitive);
    assert_eq!(get_func_rety("into_string", Some(Ty::Primitive)), Ty::NonPrimitive);
    assert_eq!(get_func_rety("repeat", Some(Ty::Primitive)), Ty::NonPrimitive);
    assert_eq!(get_func_rety("to_owned", Some(Ty::Primitive)), Ty::NonPrimitive);
    assert_eq!(get_func_rety("abs", Some(Ty::Primitive)), Ty::Primitive);
}

#[test]
fn method_on_reference_receiver() {
    assert_eq!(get_func_rety("to_owned", Some(Ty::Ref)), Ty::NonPrimitive);
    assert_eq!(get_func_rety("len", Some(Ty::Ref)), Ty::Primitive);
    assert_eq!(get_ref_func_rety("to_string"), Ty::NonPrimitive);
}

#[test]
fn method_on_owned_receiver() {
    assert_eq!(get_func_rety("split_off", Some(Ty::NonPrimitive)), Ty::NonPrimitive);
    assert_eq!(get_func_rety("as_ref", Some(Ty::NonPrimitive)), Ty::Ref);
    assert_eq!(get_func_rety("is_empty", Some(Ty::NonPrimitive)), Ty::Primitive);
    assert_eq!(get_func_rety("len", Some(Ty::NonPrimitive)), Ty::Primitive);
    assert_eq!(get_func_rety("clone", Some(Ty::NonPrimitive)), Ty::NonPrimitive);
    assert_eq!(get_non_prim_func_rety("as_ref"), Ty::Ref);
}

#[test]
fn free_function_by_joined_name() {
    assert_eq!(get_func_rety("Stringfrom", None), Ty::NonPrimitive);
    assert_eq!(get_func_rety("Stringnew", None), Ty::NonPrimitive);
    assert_eq!(get_func_rety("Stringeq", None), Ty::Primitive);
    assert_eq!(get_func_rety("anything_else", None), Ty::NonPrimitive);
    assert_eq!(get_call_rety("Stringeq"), Ty::Primitive);
}

#[test]
fn receiver_decides_between_tables() {
    // The same name is looked up in a different table for each kind of receiver.
    assert_eq!(get_func_rety("len", Some(Ty::Primitive)), Ty::Primitive);
    assert_eq!(get_func_rety("len", None), Ty::NonPrimitive);
    assert_eq!(get_func_rety("to_string", Some(Ty::NonPrimitive)), Ty::NonPrimitive);
    assert_eq!(get_prim_func_rety("to_string"), Ty::NonPrimitive);
    assert_eq!(get_prim_func_rety("to_strin"), Ty::Primitive);
}
