use vstd::prelude::*;

verus! {

/// How a value behaves when it is used: as an alias, by move, or by copy.
#[derive(Clone, Copy, Debug, PartialEq, Eq, Structural)]
pub enum Ty {
    /// A non-owning alias of another binding.
    Ref,
    /// An affine value with a single owner, released at the end of its scope unless moved.
    NonPrimitive,
    /// A value with copy semantics: never moved, never tracked for release.
    Primitive,
}

/// Equality of string slices, character by character.
pub fn str_eq(a: &str, b: &str) -> (same: bool)
    ensures
        same == (a@ == b@),
{
    a.to_owned() == b.to_owned()
}

/// What a method of this name returns when its receiver is a primitive.
pub open spec fn prim_func_rety(name: Seq<char>) -> Ty {
    if name == "to_string"@ || name == "into_string"@ || name == "repeat"@ || name
        == "to_owned"@ {
        Ty::NonPrimitive
    } else {
        Ty::Primitive
    }
}

/// What a method of this name returns when its receiver is a reference.
pub open spec fn ref_func_rety(name: Seq<char>) -> Ty {
    if name == "to_string"@ || name == "into_string"@ || name == "repeat"@ || name
        == "to_owned"@ {
        Ty::NonPrimitive
    } else {
        Ty::Primitive
    }
}

/// What a method of this name returns when its receiver is an owned value.
pub open spec fn non_prim_func_rety(name: Seq<char>) -> Ty {
    if name == "split_off"@ {
        Ty::NonPrimitive
    } else if name == "as_ref"@ {
        Ty::Ref
    } else if name == "is_empty"@ || name == "len"@ {
        Ty::Primitive
    } else {
        Ty::NonPrimitive
    }
}

/// What a free function of this name returns. The name is the callee's path with its
/// segments written one after the other, so `String::from` is `Stringfrom`.
pub open spec fn call_rety(name: Seq<char>) -> Ty {
    if name == "Stringeq"@ {
        Ty::Primitive
    } else {
        Ty::NonPrimitive
    }
}

/// The builtin table: the classification of what a function outside the catalog
/// returns, by its name and, for a method, the classification of its receiver.
pub open spec fn func_rety(name: Seq<char>, receiver: Option<Ty>) -> Ty {
    match receiver {
        Some(Ty::Primitive) => prim_func_rety(name),
        Some(Ty::NonPrimitive) => non_prim_func_rety(name),
        Some(Ty::Ref) => ref_func_rety(name),
        None => call_rety(name),
    }
}

/// Looks a function up in the builtin table.
pub fn get_func_rety(func_name: &str, var_ty: Option<Ty>) -> (ty: Ty)
    ensures
        ty == func_rety(func_name@, var_ty),
{
    if let Some(var_type) = var_ty {
        match var_type {
            Ty::Primitive => get_prim_func_rety(func_name),
            Ty::NonPrimitive => get_non_prim_func_rety(func_name),
            Ty::Ref => get_ref_func_rety(func_name),
        }
    } else {
        get_call_rety(func_name)
    }
}

/// The builtin table for methods on a primitive receiver.
pub fn get_prim_func_rety(func_name: &str) -> (ty: Ty)
    ensures
        ty == prim_func_rety(func_name@),
{
    if str_eq(func_name, "to_string") || str_eq(func_name, "into_string") || str_eq(
        func_name,
        "repeat",
    ) || str_eq(func_name, "to_owned") {
        Ty::NonPrimitive
    } else {
        Ty::Primitive
    }
}

/// The builtin table for methods on a reference receiver.
pub fn get_ref_func_rety(func_name: &str) -> (ty: Ty)
    ensures
        ty == ref_func_rety(func_name@),
{
    if str_eq(func_name, "to_string") || str_eq(func_name, "into_string") || str_eq(
        func_name,
        "repeat",
    ) || str_eq(func_name, "to_owned") {
        Ty::NonPrimitive
    } else {
        Ty::Primitive
    }
}

/// The builtin table for methods on an owned receiver.
pub fn get_non_prim_func_rety(func_name: &str) -> (ty: Ty)
    ensures
        ty == non_prim_func_rety(func_name@),
{
    if str_eq(func_name, "split_off") {
        Ty::NonPrimitive
    } else if str_eq(func_name, "as_ref") {
        Ty::Ref
    } else if str_eq(func_name, "is_empty") || str_eq(func_name, "len") {
        Ty::Primitive
    } else {
        Ty::NonPrimitive
    }
}

/// The builtin table for free functions.
pub fn get_call_rety(func_name: &str) -> (ty: Ty)
    ensures
        ty == call_rety(func_name@),
{
    if str_eq(func_name, "Stringeq") {
        Ty::Primitive
    } else {
        Ty::NonPrimitive
    }
}

} // verus!
