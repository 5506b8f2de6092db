use vstd::prelude::*;
use crate::builtin::Ty;
use crate::builtin::str_eq;
use crate::assoc::assoc_get;
use crate::assoc::assoc_put;
use crate::assoc::find_key;
use crate::assoc::lemma_keys_agree;
use crate::path::clone_path;
use crate::path::lemma_first_index;
use crate::path::lemma_no_index;
use crate::syntax_tree::FieldDecl;
use crate::syntax_tree::FnDecl;
use crate::syntax_tree::Item;
use crate::syntax_tree::TypeShape;
use vstd::string::StringExecFns;

verus! {

/// Whether a type of this name is a primitive.
pub open spec fn is_primitive_name(name: Seq<char>) -> bool {
    ||| name == "i32"@
    ||| name == "bool"@
    ||| name == "char"@
    ||| name == "f32"@
    ||| name == "f64"@
    ||| name == "i16"@
    ||| name == "i64"@
    ||| name == "i8"@
    ||| name == "isize"@
    ||| name == "u16"@
    ||| name == "u32"@
    ||| name == "u64"@
    ||| name == "u8"@
    ||| name == "usize"@
    ||| name == "i128"@
    ||| name == "u128"@
}

/// The classification of a value of the written type.
pub open spec fn classify_spec(ty: TypeShape) -> Ty
    decreases ty,
{
    match ty {
        TypeShape::Named(name) => if is_primitive_name(name@) {
            Ty::Primitive
        } else {
            Ty::NonPrimitive
        },
        TypeShape::Reference | TypeShape::Pointer => Ty::Ref,
        TypeShape::Slice(inner) => classify_spec(*inner),
        TypeShape::Array(inner) => classify_spec(*inner),
        TypeShape::Other => Ty::NonPrimitive,
    }
}

fn primitive_name(name: &str) -> (yes: bool)
    ensures
        yes == is_primitive_name(name@),
{
    str_eq(name, "i32") || str_eq(name, "bool") || str_eq(name, "char") || str_eq(name, "f32")
        || str_eq(name, "f64") || str_eq(name, "i16") || str_eq(name, "i64") || str_eq(
        name,
        "i8",
    ) || str_eq(name, "isize") || str_eq(name, "u16") || str_eq(name, "u32") || str_eq(
        name,
        "u64",
    ) || str_eq(name, "u8") || str_eq(name, "usize") || str_eq(name, "i128") || str_eq(
        name,
        "u128",
    )
}

/// Classifies a written type: a path by its name, references and pointers as
/// references, slices and arrays by their element, anything else as owned.
pub fn classify(re_ty: &TypeShape) -> (ty: Ty)
    ensures
        ty == classify_spec(*re_ty),
    decreases re_ty,
{
    match re_ty {
        TypeShape::Named(name) => {
            if primitive_name(name.as_str()) {
                Ty::Primitive
            } else {
                Ty::NonPrimitive
            }
        },
        TypeShape::Reference => Ty::Ref,
        TypeShape::Pointer => Ty::Ref,
        TypeShape::Slice(inner) => classify(inner),
        TypeShape::Array(inner) => classify(inner),
        TypeShape::Other => Ty::NonPrimitive,
    }
}

/// What the catalog holds of one function.
#[derive(Clone, Copy, Debug, PartialEq, Eq)]
pub struct FnInfo {
    /// The classification of what the function returns, where it declares a return type.
    pub output: Option<Ty>,
    /// How many parameters the function declares, a receiver not counted.
    pub input: usize,
}

/// The catalog of a program's declarations: functions, enums and record types, each
/// list in the order in which its names were first recorded. A name stands for the
/// first entry that bears it.
#[derive(Debug)]
pub struct PreRecord {
    /// Each function's name with its signature.
    pub fun_record: Vec<(String, FnInfo)>,
    /// Each enum's name with the names of its variants.
    pub enum_record: Vec<(String, Vec<String>)>,
    /// Each record type's name with its fields, each a name and a classification.
    pub struct_record: Vec<(String, Vec<(String, Ty)>)>,
}

/// The catalog as the contracts see it.
pub struct CatalogModel {
    /// Each function's name with its signature.
    pub funs: Seq<(Seq<char>, FnInfo)>,
    /// Each enum's name with the names of its variants.
    pub enums: Seq<(Seq<char>, Seq<Seq<char>>)>,
    /// Each record type's name with its fields, each a name and a classification.
    pub structs: Seq<(Seq<char>, Seq<(Seq<char>, Ty)>)>,
}

/// The fields of a record type as the contracts see them.
pub open spec fn layout_view(fields: Seq<(String, Ty)>) -> Seq<(Seq<char>, Ty)> {
    Seq::new(fields.len(), |i: int| (fields[i].0@, fields[i].1))
}

impl View for PreRecord {
    type V = CatalogModel;

    open spec fn view(&self) -> CatalogModel {
        CatalogModel {
            funs: Seq::new(
                self.fun_record@.len(),
                |i: int| (self.fun_record@[i].0@, self.fun_record@[i].1),
            ),
            enums: Seq::new(
                self.enum_record@.len(),
                |i: int| (self.enum_record@[i].0@, self.enum_record@[i].1.deep_view()),
            ),
            structs: Seq::new(
                self.struct_record@.len(),
                |i: int| (self.struct_record@[i].0@, layout_view(self.struct_record@[i].1@)),
            ),
        }
    }
}

/// The name of the function that builds a record of the type `name`.
pub open spec fn constructor_name(name: Seq<char>) -> Seq<char> {
    name + "new"@
}

/// The signature under which the function that builds a record is recorded.
pub open spec fn constructor_info() -> FnInfo {
    FnInfo { output: Some(Ty::NonPrimitive), input: 0 }
}

impl CatalogModel {
    /// The catalog that holds nothing.
    pub open spec fn empty() -> CatalogModel {
        CatalogModel { funs: Seq::empty(), enums: Seq::empty(), structs: Seq::empty() }
    }

    /// The catalog after the function `name` is recorded.
    pub open spec fn with_fn(self, name: Seq<char>, info: FnInfo) -> CatalogModel {
        CatalogModel { funs: assoc_put(self.funs, name, info), ..self }
    }

    /// The catalog after the enum `name` is recorded.
    pub open spec fn with_enum(self, name: Seq<char>, variants: Seq<Seq<char>>) -> CatalogModel {
        CatalogModel { enums: assoc_put(self.enums, name, variants), ..self }
    }

    /// The catalog after the record type `name` is recorded, and with it the function
    /// that builds such a record.
    pub open spec fn with_struct(
        self,
        name: Seq<char>,
        fields: Seq<(Seq<char>, Ty)>,
    ) -> CatalogModel {
        CatalogModel {
            structs: assoc_put(self.structs, name, fields),
            funs: assoc_put(self.funs, constructor_name(name), constructor_info()),
            ..self
        }
    }

    /// For each record type, in order, the name of the function that builds it.
    pub open spec fn builders(self) -> Seq<Seq<char>> {
        self.structs.map_values(|e: (Seq<char>, Seq<(Seq<char>, Ty)>)| constructor_name(e.0))
    }

    /// The place of the first record type that the function `fname` builds.
    pub open spec fn built_by(self, fname: Seq<char>) -> Option<int> {
        self.builders().index_of_first(fname)
    }

    /// Whether `fname` names the function that builds some record type.
    pub open spec fn is_constructor(self, fname: Seq<char>) -> bool {
        self.built_by(fname) is Some
    }

    /// Whether the enum `name` is recorded with a variant `variant`.
    pub open spec fn has_variant(self, name: Seq<char>, variant: Seq<char>) -> bool {
        match assoc_get(self.enums, name) {
            Some(variants) => variants.contains(variant),
            None => false,
        }
    }
}

/// The name under which a field is recorded: its own, or a blank where it has none.
pub open spec fn field_name(decl: FieldDecl) -> Seq<char> {
    match decl.name {
        Some(n) => n@,
        None => " "@,
    }
}

/// The layout that a list of field declarations gives, a later field of a name
/// replacing an earlier one.
pub open spec fn layout_of(decls: Seq<FieldDecl>) -> Seq<(Seq<char>, Ty)>
    decreases decls.len(),
{
    if decls.len() == 0 {
        Seq::empty()
    } else {
        assoc_put(
            layout_of(decls.drop_last()),
            field_name(decls.last()),
            classify_spec(decls.last().ty),
        )
    }
}

/// The signature that a function declaration gives: a receiver is not counted among
/// the parameters.
pub open spec fn signature_of(decl: FnDecl) -> FnInfo {
    FnInfo {
        output: match decl.output {
            Some(t) => Some(classify_spec(t)),
            None => None,
        },
        input: if decl.receiver && decl.inputs > 0 {
            (decl.inputs - 1) as usize
        } else {
            decl.inputs
        },
    }
}

/// The catalog after one more declaration.
pub open spec fn record_item(catalog: CatalogModel, item: Item) -> CatalogModel {
    match item {
        Item::Enum(name, variants) => catalog.with_enum(name@, variants.deep_view()),
        Item::Struct(name, fields) => catalog.with_struct(name@, layout_of(fields@)),
        Item::Fn(decl) => catalog.with_fn(decl.name@, signature_of(decl)),
        Item::Other => catalog,
    }
}

/// The catalog of a list of declarations, recorded in order.
pub open spec fn records_of(items: Seq<Item>) -> CatalogModel
    decreases items.len(),
{
    if items.len() == 0 {
        CatalogModel::empty()
    } else {
        record_item(records_of(items.drop_last()), items.last())
    }
}

fn put_layout(fields: &mut Vec<(String, Ty)>, name: String, ty: Ty)
    ensures
        layout_view(final(fields)@) == assoc_put(layout_view(old(fields)@), name@, ty),
{
    proof {
        lemma_keys_agree(fields@, layout_view(fields@));
    }
    match find_key(fields, name.as_str()) {
        Some(i) => {
            fields[i] = (name, ty);
            assert(layout_view(fields@) =~= assoc_put(layout_view(old(fields)@), name@, ty));
        },
        None => {
            fields.push((name, ty));
            assert(layout_view(fields@) =~= assoc_put(layout_view(old(fields)@), name@, ty));
        },
    }
}

impl PreRecord {
    /// A catalog that holds nothing.
    pub fn new() -> (catalog: PreRecord)
        ensures
            catalog@ == CatalogModel::empty(),
    {
        let catalog = PreRecord {
            fun_record: Vec::new(),
            enum_record: Vec::new(),
            struct_record: Vec::new(),
        };
        assert(catalog@.funs =~= Seq::empty());
        assert(catalog@.enums =~= Seq::empty());
        assert(catalog@.structs =~= Seq::empty());
        catalog
    }

    /// Records a function under its name, in place of an earlier one of that name.
    pub fn insert_fn(&mut self, name: String, info: FnInfo)
        ensures
            final(self)@ == old(self)@.with_fn(name@, info),
    {
        proof {
            lemma_keys_agree(self.fun_record@, self@.funs);
        }
        match find_key(&self.fun_record, name.as_str()) {
            Some(i) => {
                self.fun_record[i] = (name, info);
            },
            None => {
                self.fun_record.push((name, info));
            },
        }
        assert(self@.funs =~= old(self)@.with_fn(name@, info).funs);
        assert(self@.enums =~= old(self)@.enums);
        assert(self@.structs =~= old(self)@.structs);
    }

    /// Records an enum under its name, in place of an earlier one of that name.
    pub fn insert_enum(&mut self, name: String, variants: Vec<String>)
        ensures
            final(self)@ == old(self)@.with_enum(name@, variants.deep_view()),
    {
        proof {
            lemma_keys_agree(self.enum_record@, self@.enums);
        }
        match find_key(&self.enum_record, name.as_str()) {
            Some(i) => {
                self.enum_record[i] = (name, variants);
            },
            None => {
                self.enum_record.push((name, variants));
            },
        }
        assert(self@.enums =~= old(self)@.with_enum(name@, variants.deep_view()).enums);
        assert(self@.funs =~= old(self)@.funs);
        assert(self@.structs =~= old(self)@.structs);
    }

    /// Records a record type under its name, in place of an earlier one of that name,
    /// and the function that builds it.
    pub fn insert_struct(&mut self, name: String, fields: Vec<(String, Ty)>)
        ensures
            final(self)@ == old(self)@.with_struct(name@, layout_view(fields@)),
    {
        let builder = name.clone().concat("new");
        proof {
            lemma_keys_agree(self.struct_record@, self@.structs);
        }
        match find_key(&self.struct_record, name.as_str()) {
            Some(i) => {
                self.struct_record[i] = (name, fields);
            },
            None => {
                self.struct_record.push((name, fields));
            },
        }
        assert(self@.structs =~= old(self)@.with_struct(name@, layout_view(fields@)).structs);
        assert(self@.funs =~= old(self)@.funs);
        assert(self@.enums =~= old(self)@.enums);
        self.insert_fn(builder, FnInfo { output: Some(Ty::NonPrimitive), input: 0 });
    }

    /// The signature recorded for the function `name`.
    pub fn find_fn(&self, name: &str) -> (info: Option<FnInfo>)
        ensures
            info == assoc_get(self@.funs, name@),
    {
        proof {
            lemma_keys_agree(self.fun_record@, self@.funs);
        }
        match find_key(&self.fun_record, name) {
            Some(i) => Some(self.fun_record[i].1),
            None => None,
        }
    }

    /// Whether the enum `name` is recorded with a variant `variant`.
    pub fn enum_has_variant(&self, name: &str, variant: &str) -> (yes: bool)
        ensures
            yes == self@.has_variant(name@, variant@),
    {
        proof {
            lemma_keys_agree(self.enum_record@, self@.enums);
        }
        match find_key(&self.enum_record, name) {
            Some(i) => {
                let variants = &self.enum_record[i].1;
                assert(self@.enums[i as int].1 == variants.deep_view());
                let mut k: usize = 0;
                while k < variants.len()
                    invariant
                        k <= variants.len(),
                        assoc_get(self@.enums, name@) == Some(variants.deep_view()),
                        forall|j: int| 0 <= j < k ==> variants.deep_view()[j] != variant@,
                    decreases variants.len() - k,
                {
                    if str_eq(variants[k].as_str(), variant) {
                        assert(variants.deep_view()[k as int] == variant@);
                        return true;
                    }
                    k += 1;
                }
                false
            },
            None => false,
        }
    }

    /// The first record type that the function `fname` builds.
    pub fn constructor_of(&self, fname: &str) -> (found: Option<usize>)
        ensures
            match found {
                Some(i) => i < self.struct_record.len() && self@.built_by(fname@) == Some(i as int),
                None => self@.built_by(fname@) is None,
            },
    {
        let ghost names = self@.builders();
        let mut i: usize = 0;
        while i < self.struct_record.len()
            invariant
                i <= self.struct_record.len(),
                names == self@.builders(),
                forall|j: int| 0 <= j < i ==> names[j] != fname@,
            decreases self.struct_record.len() - i,
        {
            let builder = self.struct_record[i].0.clone().concat("new");
            assert(names[i as int] == builder@);
            if str_eq(builder.as_str(), fname) {
                proof {
                    lemma_first_index(names, fname@, i as int);
                }
                return Some(i);
            }
            i += 1;
        }
        proof {
            lemma_no_index(names, fname@);
        }
        None
    }

    /// The fields of the record type at place `i`.
    pub fn layout(&self, i: usize) -> (fields: &Vec<(String, Ty)>)
        requires
            i < self@.structs.len(),
        ensures
            layout_view(fields@) == self@.structs[i as int].1,
    {
        &self.struct_record[i].1
    }
}

fn layout_from(decls: &Vec<FieldDecl>) -> (fields: Vec<(String, Ty)>)
    ensures
        layout_view(fields@) == layout_of(decls@),
{
    let mut fields: Vec<(String, Ty)> = Vec::new();
    let mut i: usize = 0;
    assert(layout_view(fields@) =~= layout_of(decls@.take(0)));
    while i < decls.len()
        invariant
            i <= decls.len(),
            layout_view(fields@) == layout_of(decls@.take(i as int)),
        decreases decls.len() - i,
    {
        let name = match &decls[i].name {
            Some(n) => n.clone(),
            None => " ".to_string(),
        };
        let ty = classify(&decls[i].ty);
        assert(decls@.take(i as int + 1).drop_last() =~= decls@.take(i as int));
        put_layout(&mut fields, name, ty);
        i += 1;
    }
    assert(decls@.take(decls.len() as int) =~= decls@);
    fields
}

fn signature_from(decl: &FnDecl) -> (info: FnInfo)
    ensures
        info == signature_of(*decl),
{
    let output = match &decl.output {
        Some(t) => Some(classify(t)),
        None => None,
    };
    let input = if decl.receiver && decl.inputs > 0 {
        decl.inputs - 1
    } else {
        decl.inputs
    };
    FnInfo { output, input }
}

/// Builds the catalog of a program from its declarations, taken in the order in which
/// the program is walked.
pub fn get_records(items: &Vec<Item>) -> (catalog: PreRecord)
    ensures
        catalog@ == records_of(items@),
{
    let mut catalog = PreRecord::new();
    let mut i: usize = 0;
    assert(items@.take(0) =~= Seq::empty());
    while i < items.len()
        invariant
            i <= items.len(),
            catalog@ == records_of(items@.take(i as int)),
        decreases items.len() - i,
    {
        assert(items@.take(i as int + 1).drop_last() =~= items@.take(i as int));
        match &items[i] {
            Item::Enum(name, variants) => {
                catalog.insert_enum(name.clone(), clone_path(variants));
            },
            Item::Struct(name, fields) => {
                catalog.insert_struct(name.clone(), layout_from(fields));
            },
            Item::Fn(decl) => {
                catalog.insert_fn(decl.name.clone(), signature_from(decl));
            },
            Item::Other => {},
        }
        i += 1;
    }
    assert(items@.take(items.len() as int) =~= items@);
    catalog
}

} // verus!
