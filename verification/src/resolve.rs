use vstd::prelude::*;
use crate::assoc::assoc_get;
use crate::assoc::assoc_put;
use crate::assoc::find_key;
use crate::assoc::lemma_keys_agree;
use crate::builtin::func_rety;
use crate::builtin::get_func_rety;
use crate::builtin::str_eq;
use crate::builtin::Ty;
use crate::error::AdvisorError;
use crate::model::TableModel;
use crate::path::child_path;
use crate::path::path_opt_view;
use crate::path::root_path;
use crate::path::PathModel;
use crate::pre_record::classify;
use crate::pre_record::classify_spec;
use crate::pre_record::layout_view;
use crate::symbol_table::SymbolTable;
use crate::syntax_tree::Block;
use crate::syntax_tree::Expr;
use vstd::string::StringExecFns;

verus! {

/// What an expression resolves to.
#[derive(Debug, PartialEq, Eq)]
pub struct Resolver {
    /// The path of the binding that the expression names, where it names one.
    pub var_name: Option<Vec<String>>,
    /// The classification of the expression's value, where one is known.
    pub var_type: Option<Ty>,
    /// The path of the binding that the value refers to, where it is a reference to one.
    pub ref_to: Option<Vec<String>>,
    /// For a record-shaped value, each field's name with what its value resolves to.
    /// A name stands for the first field that bears it.
    pub structure: Vec<(String, Resolver)>,
}

/// What an expression resolves to, as the contracts see it.
pub struct Descriptor {
    /// The path of the binding that the expression names, where it names one.
    pub identity: Option<PathModel>,
    /// The classification of the expression's value, where one is known.
    pub classification: Option<Ty>,
    /// The path of the binding that the value refers to, where it is a reference to one.
    pub alias_target: Option<PathModel>,
    /// For a record-shaped value, each field's name with what its value resolves to.
    pub fields: Seq<(Seq<char>, Descriptor)>,
}

/// The view of a resolver.
pub open spec fn resolver_view(r: Resolver) -> Descriptor
    decreases r,
{
    Descriptor {
        identity: path_opt_view(r.var_name),
        classification: r.var_type,
        alias_target: path_opt_view(r.ref_to),
        fields: fields_view(r.structure@),
    }
}

/// The view of the fields of a resolver.
pub open spec fn fields_view(fields: Seq<(String, Resolver)>) -> Seq<(Seq<char>, Descriptor)>
    decreases fields,
{
    if fields.len() == 0 {
        Seq::empty()
    } else {
        fields_view(fields.drop_last()).push((fields.last().0@, resolver_view(fields.last().1)))
    }
}

impl View for Resolver {
    type V = Descriptor;

    open spec fn view(&self) -> Descriptor {
        resolver_view(*self)
    }
}

/// The view of a list of fields agrees with the list, place by place.
pub proof fn lemma_fields_view(fields: Seq<(String, Resolver)>)
    ensures
        fields_view(fields).len() == fields.len(),
        forall|i: int|
            0 <= i < fields.len() ==> (#[trigger] fields_view(fields)[i]) == (
                fields[i].0@,
                fields[i].1@,
            ),
    decreases fields.len(),
{
    if fields.len() > 0 {
        lemma_fields_view(fields.drop_last());
    }
}

impl Descriptor {
    /// The descriptor of an expression of which nothing is known.
    pub open spec fn unknown() -> Descriptor {
        Descriptor {
            identity: None,
            classification: None,
            alias_target: None,
            fields: Seq::empty(),
        }
    }

    /// The descriptor of a value of which only the classification is known.
    pub open spec fn of_type(ty: Ty) -> Descriptor {
        Descriptor { classification: Some(ty), ..Descriptor::unknown() }
    }
}

impl Resolver {
    /// The resolver of an expression of which nothing is known.
    pub fn new() -> (r: Resolver)
        ensures
            r@ == Descriptor::unknown(),
    {
        Resolver { var_name: None, var_type: None, ref_to: None, structure: Vec::new() }
    }

    /// The resolver of a value of which only the classification is known.
    pub fn of_type(ty: Ty) -> (r: Resolver)
        ensures
            r@ == Descriptor::of_type(ty),
    {
        Resolver { var_name: None, var_type: Some(ty), ref_to: None, structure: Vec::new() }
    }
}

/// The names of a path written one after the other.
pub open spec fn joined(path: PathModel) -> Seq<char>
    decreases path.len(),
{
    if path.len() == 0 {
        Seq::empty()
    } else {
        joined(path.drop_last()) + path.last()
    }
}

/// The fields of a record built by its constructor: each of its declared
/// classification, and nothing more known of it.
pub open spec fn layout_fields(layout: Seq<(Seq<char>, Ty)>) -> Seq<(Seq<char>, Descriptor)> {
    layout.map_values(|f: (Seq<char>, Ty)| (f.0, Descriptor::of_type(f.1)))
}

impl Descriptor {
    /// The descriptor of a value that is no binding itself.
    pub open spec fn anonymous(self) -> Descriptor {
        Descriptor { identity: None, ..self }
    }

    /// The descriptor of a borrow of the value: a borrow of a binding refers to it; a
    /// borrow of an unnamed owned value is an unnamed reference.
    pub open spec fn borrowed(self) -> Descriptor {
        match self.identity {
            Some(path) => Descriptor {
                identity: None,
                classification: Some(Ty::Ref),
                alias_target: Some(path),
                fields: self.fields,
            },
            None => Descriptor {
                classification: if self.classification == Some(Ty::NonPrimitive) {
                    Some(Ty::Ref)
                } else {
                    self.classification
                },
                ..self
            },
        }
    }

    /// The descriptor of the binding at `path`, of the given classification.
    pub open spec fn binding(path: PathModel, ty: Ty) -> Descriptor {
        Descriptor { identity: Some(path), classification: Some(ty), ..Descriptor::unknown() }
    }

    /// The descriptor of what a function of the given recorded return type returns.
    pub open spec fn returned(output: Option<Ty>) -> Descriptor {
        match output {
            Some(ty) => Descriptor::of_type(ty),
            None => Descriptor::unknown(),
        }
    }
}

/// What a path expression resolves to: a single name is the binding of that name, if
/// one is in scope, and `None` is a primitive; two names are an owned value if they
/// are an enum and one of its variants; anything else is unknown.
pub open spec fn resolve_path_spec(t: TableModel, s: int, path: PathModel) -> Descriptor {
    if path.len() == 1 {
        if path[0] == "None"@ {
            Descriptor::of_type(Ty::Primitive)
        } else {
            match t.resolve(s, seq![path[0]]) {
                Ok(b) => Descriptor::binding(seq![path[0]], b.classification),
                Err(_) => Descriptor::unknown(),
            }
        }
    } else if path.len() == 2 {
        if t.catalog.has_variant(path[0], path[1]) {
            Descriptor::of_type(Ty::NonPrimitive)
        } else {
            Descriptor::unknown()
        }
    } else {
        Descriptor::unknown()
    }
}

/// What a call of the free function at `callee` resolves to: for a cataloged
/// function, a record with its declared fields if the function builds one, else a
/// value of the declared return type; for any other function, what the builtin table
/// gives for its name.
pub open spec fn resolve_callee_spec(t: TableModel, callee: PathModel) -> Descriptor {
    let fname = joined(callee);
    match assoc_get(t.catalog.funs, fname) {
        Some(info) => match t.catalog.built_by(fname) {
            Some(i) => Descriptor {
                classification: Some(Ty::NonPrimitive),
                fields: layout_fields(t.catalog.structs[i].1),
                ..Descriptor::unknown()
            },
            None => Descriptor::returned(info.output),
        },
        None => Descriptor::of_type(func_rety(fname, None)),
    }
}

/// What a call of the method `name` resolves to, on a receiver of the given
/// classification.
pub open spec fn resolve_method_spec(
    t: TableModel,
    name: Seq<char>,
    receiver: Option<Ty>,
) -> Descriptor {
    match assoc_get(t.catalog.funs, name) {
        Some(info) => Descriptor::returned(info.output),
        None => Descriptor::of_type(func_rety(name, receiver)),
    }
}

/// Whether a call is the wrapper that denotes a present optional value.
pub open spec fn is_some_wrapper(callee: PathModel, args: int) -> bool {
    callee.len() > 0 && callee[0] == "Some"@ && args == 1
}

/// What the expression `ex` resolves to in the scope `s`.
pub open spec fn resolve_spec(t: TableModel, s: int, ex: Expr) -> Result<Descriptor, AdvisorError>
    decreases ex,
{
    match ex {
        Expr::Path(path) => Ok(resolve_path_spec(t, s, path.deep_view())),
        Expr::AddrOf(inner) => match resolve_spec(t, s, *inner) {
            Ok(d) => Ok(d.borrowed()),
            Err(e) => Err(e),
        },
        Expr::Lit => Ok(Descriptor::of_type(Ty::Primitive)),
        Expr::Call(callee, args) => match *callee {
            Expr::Path(path) => if is_some_wrapper(path.deep_view(), args@.len() as int) {
                resolve_spec(t, s, args@[0])
            } else {
                Ok(resolve_callee_spec(t, path.deep_view()))
            },
            _ => Ok(Descriptor::unknown()),
        },
        Expr::MethodCall(name, receiver, _) => match resolve_spec(t, s, *receiver) {
            Ok(d) => Ok(resolve_method_spec(t, name@, d.classification)),
            Err(e) => Err(e),
        },
        Expr::Array(elements) => if elements@.len() == 0 {
            Ok(Descriptor::unknown())
        } else {
            match resolve_spec(t, s, elements@[0]) {
                Ok(d) => Ok(d.anonymous()),
                Err(e) => Err(e),
            }
        },
        Expr::Repeat(element) => match resolve_spec(t, s, *element) {
            Ok(d) => Ok(d.anonymous()),
            Err(e) => Err(e),
        },
        Expr::If(block) => resolve_block_spec(t, s, block),
        Expr::Block(block) => resolve_block_spec(t, s, block),
        Expr::Binary(comparison, left, _) => if comparison {
            Ok(Descriptor::of_type(Ty::Primitive))
        } else {
            resolve_spec(t, s, *left)
        },
        Expr::Unary(deref, operand) => if !deref {
            Ok(Descriptor::of_type(Ty::Primitive))
        } else {
            match resolve_spec(t, s, *operand) {
                Ok(d) => match d.alias_target {
                    Some(target) => match t.resolve(s, target) {
                        Ok(b) => Ok(
                            Descriptor {
                                identity: None,
                                classification: Some(b.classification),
                                ..d
                            },
                        ),
                        Err(e) => Err(e),
                    },
                    None => Err(AdvisorError::Undereferenceable),
                },
                Err(e) => Err(e),
            }
        },
        Expr::Cast(ty) => Ok(Descriptor::of_type(classify_spec(ty))),
        Expr::Index(indexed) => resolve_spec(t, s, *indexed),
        Expr::Struct(inits) => match resolve_inits_spec(t, s, inits@) {
            Ok(fields) => Ok(
                Descriptor {
                    classification: Some(Ty::NonPrimitive),
                    fields,
                    ..Descriptor::unknown()
                },
            ),
            Err(e) => Err(e),
        },
        Expr::Field(base, name) => match resolve_spec(t, s, *base) {
            Ok(d) => match d.identity {
                Some(path) => match t.resolve(s, path.push(name@)) {
                    Ok(b) => Ok(Descriptor::binding(path.push(name@), b.classification)),
                    Err(e) => Err(e),
                },
                None => Ok(Descriptor::unknown()),
            },
            Err(e) => Err(e),
        },
        _ => Ok(Descriptor::unknown()),
    }
}

/// What a block resolves to when used as a value: its final expression, which is no
/// binding itself; nothing is known of a block without one.
pub open spec fn resolve_block_spec(t: TableModel, s: int, block: Block) -> Result<
    Descriptor,
    AdvisorError,
>
    decreases block,
{
    match block.tail {
        Some(tail) => match resolve_spec(t, s, *tail) {
            Ok(d) => Ok(d.anonymous()),
            Err(e) => Err(e),
        },
        None => Ok(Descriptor::unknown()),
    }
}

/// What the field initializers of a record literal resolve to, in order: each field
/// is no binding itself, and a later initializer of a name replaces an earlier one.
pub open spec fn resolve_inits_spec(t: TableModel, s: int, inits: Seq<(String, Expr)>) -> Result<
    Seq<(Seq<char>, Descriptor)>,
    AdvisorError,
>
    decreases inits,
{
    if inits.len() == 0 {
        Ok(Seq::empty())
    } else {
        match resolve_inits_spec(t, s, inits.drop_last()) {
            Ok(fields) => match resolve_spec(t, s, inits.last().1) {
                Ok(d) => Ok(assoc_put(fields, inits.last().0@, d.anonymous())),
                Err(e) => Err(e),
            },
            Err(e) => Err(e),
        }
    }
}

/// Writes the names of a path one after the other.
fn join(path: &Vec<String>) -> (name: String)
    ensures
        name@ == joined(path.deep_view()),
{
    let mut name = String::new();
    let mut i: usize = 0;
    assert(path.deep_view().take(0) =~= Seq::empty());
    while i < path.len()
        invariant
            i <= path.len(),
            name@ == joined(path.deep_view().take(i as int)),
        decreases path.len() - i,
    {
        assert(path.deep_view().take(i as int + 1).drop_last() =~= path.deep_view().take(
            i as int,
        ));
        name.append(path[i].as_str());
        i += 1;
    }
    assert(path.deep_view().take(path.len() as int) =~= path.deep_view());
    name
}

/// Sets the field `name` of a record to `value`, in place of an earlier field of
/// that name.
fn put_field(fields: &mut Vec<(String, Resolver)>, name: String, value: Resolver)
    ensures
        fields_view(final(fields)@) == assoc_put(fields_view(old(fields)@), name@, value@),
{
    proof {
        lemma_fields_view(fields@);
        lemma_keys_agree(fields@, fields_view(fields@));
    }
    match find_key(fields, name.as_str()) {
        Some(i) => {
            fields[i] = (name, value);
        },
        None => {
            fields.push((name, value));
        },
    }
    proof {
        lemma_fields_view(fields@);
        assert(fields_view(fields@) =~= assoc_put(fields_view(old(fields)@), name@, value@));
    }
}

/// The fields of a record built by its constructor.
fn constructed_fields(layout: &Vec<(String, Ty)>) -> (fields: Vec<(String, Resolver)>)
    ensures
        fields_view(fields@) == layout_fields(layout_view(layout@)),
{
    let mut fields: Vec<(String, Resolver)> = Vec::new();
    let mut i: usize = 0;
    while i < layout.len()
        invariant
            i <= layout.len(),
            fields.len() == i,
            forall|j: int|
                0 <= j < i ==> (#[trigger] fields@[j]).0@ == layout@[j].0@ && fields@[j].1@
                    == Descriptor::of_type(layout@[j].1),
        decreases layout.len() - i,
    {
        fields.push((layout[i].0.clone(), Resolver::of_type(layout[i].1)));
        i += 1;
    }
    proof {
        lemma_fields_view(fields@);
        assert(fields_view(fields@) =~= layout_fields(layout_view(layout@)));
    }
    fields
}

fn returned(output: Option<Ty>) -> (r: Resolver)
    ensures
        r@ == Descriptor::returned(output),
{
    match output {
        Some(ty) => Resolver::of_type(ty),
        None => Resolver::new(),
    }
}

/// Resolves a path expression.
pub fn resolve_path_for_var(path: &Vec<String>, symbol_table: &SymbolTable, scope: usize) -> (r:
    Resolver)
    requires
        symbol_table.wf(),
        symbol_table.has_scope(scope),
    ensures
        r@ == resolve_path_spec(symbol_table@, scope as int, path.deep_view()),
{
    if path.len() == 1 {
        assert(path.deep_view()[0] == path@[0]@);
        if str_eq(path[0].as_str(), "None") {
            Resolver::of_type(Ty::Primitive)
        } else {
            let var = root_path(path[0].as_str());
            match symbol_table.resolve(scope, &var) {
                Ok(b) => Resolver {
                    var_name: Some(var),
                    var_type: Some(b.classification),
                    ref_to: None,
                    structure: Vec::new(),
                },
                Err(_) => Resolver::new(),
            }
        }
    } else if path.len() == 2 {
        assert(path.deep_view()[0] == path@[0]@);
        assert(path.deep_view()[1] == path@[1]@);
        if symbol_table.records().enum_has_variant(path[0].as_str(), path[1].as_str()) {
            Resolver::of_type(Ty::NonPrimitive)
        } else {
            Resolver::new()
        }
    } else {
        Resolver::new()
    }
}

/// Resolves a call of the free function at `callee`.
fn resolve_callee(callee: &Vec<String>, symbol_table: &SymbolTable) -> (r: Resolver)
    ensures
        r@ == resolve_callee_spec(symbol_table@, callee.deep_view()),
{
    let function_name = join(callee);
    let records = symbol_table.records();
    match records.find_fn(function_name.as_str()) {
        Some(info) => match records.constructor_of(function_name.as_str()) {
            Some(i) => Resolver {
                var_name: None,
                var_type: Some(Ty::NonPrimitive),
                ref_to: None,
                structure: constructed_fields(records.layout(i)),
            },
            None => returned(info.output),
        },
        None => Resolver::of_type(get_func_rety(function_name.as_str(), None)),
    }
}

/// Resolves a call of the method `name` on a receiver of the given classification.
fn resolve_method(name: &String, receiver: Option<Ty>, symbol_table: &SymbolTable) -> (r: Resolver)
    ensures
        r@ == resolve_method_spec(symbol_table@, name@, receiver),
{
    match symbol_table.records().find_fn(name.as_str()) {
        Some(info) => returned(info.output),
        None => Resolver::of_type(get_func_rety(name.as_str(), receiver)),
    }
}

/// The resolver of a value that is no binding itself.
fn anonymous(r: Resolver) -> (a: Resolver)
    ensures
        a@ == r@.anonymous(),
{
    Resolver { var_name: None, var_type: r.var_type, ref_to: r.ref_to, structure: r.structure }
}

/// The resolver of a borrow of the value.
fn borrowed(r: Resolver) -> (a: Resolver)
    ensures
        a@ == r@.borrowed(),
{
    match r.var_name {
        Some(path) => Resolver {
            var_name: None,
            var_type: Some(Ty::Ref),
            ref_to: Some(path),
            structure: r.structure,
        },
        None => {
            let var_type = match r.var_type {
                Some(Ty::NonPrimitive) => Some(Ty::Ref),
                other => other,
            };
            Resolver { var_name: None, var_type, ref_to: r.ref_to, structure: r.structure }
        },
    }
}

/// Whether a call is the wrapper that denotes a present optional value.
pub fn some_wrapper(callee: &Vec<String>, args: usize) -> (yes: bool)
    ensures
        yes == is_some_wrapper(callee.deep_view(), args as int),
{
    if callee.len() > 0 {
        assert(callee.deep_view()[0] == callee@[0]@);
        str_eq(callee[0].as_str(), "Some") && args == 1
    } else {
        false
    }
}

/// Resolves a block used as a value: only a block whose final statement is an
/// expression has one.
pub fn resolve_block_for_var(block: &Block, symbol_table: &SymbolTable, scope: usize) -> (r:
    Result<Resolver, AdvisorError>)
    requires
        symbol_table.wf(),
        symbol_table.has_scope(scope),
    ensures
        match resolve_block_spec(symbol_table@, scope as int, *block) {
            Ok(d) => r matches Ok(x) && x@ == d,
            Err(e) => r matches Err(x) && x == e,
        },
    decreases block,
{
    match &block.tail {
        Some(tail) => match resolve_expr_for_var(tail, symbol_table, scope) {
            Ok(r) => Ok(anonymous(r)),
            Err(e) => Err(e),
        },
        None => Ok(Resolver::new()),
    }
}

/// Resolves an expression of any kind.
pub fn resolve_expr_for_var(ex: &Expr, symbol_table: &SymbolTable, scope: usize) -> (r: Result<
    Resolver,
    AdvisorError,
>)
    requires
        symbol_table.wf(),
        symbol_table.has_scope(scope),
    ensures
        match resolve_spec(symbol_table@, scope as int, *ex) {
            Ok(d) => r matches Ok(x) && x@ == d,
            Err(e) => r matches Err(x) && x == e,
        },
    decreases ex,
{
    match ex {
        Expr::Path(path) => Ok(resolve_path_for_var(path, symbol_table, scope)),
        Expr::AddrOf(inner) => match resolve_expr_for_var(inner, symbol_table, scope) {
            Ok(r) => Ok(borrowed(r)),
            Err(e) => Err(e),
        },
        Expr::Lit => Ok(Resolver::of_type(Ty::Primitive)),
        Expr::Call(callee, args) => match &**callee {
            Expr::Path(path) => {
                if some_wrapper(path, args.len()) {
                    proof {
                        assert(decreases_to!(args@ => args@[0]));
                        assert(decreases_to!(*ex => ex->Call_1));
                    }
                    resolve_expr_for_var(&args[0], symbol_table, scope)
                } else {
                    Ok(resolve_callee(path, symbol_table))
                }
            },
            _ => Ok(Resolver::new()),
        },
        Expr::MethodCall(name, receiver, _) => match resolve_expr_for_var(
            receiver,
            symbol_table,
            scope,
        ) {
            Ok(r) => Ok(resolve_method(name, r.var_type, symbol_table)),
            Err(e) => Err(e),
        },
        Expr::Array(elements) => {
            if elements.len() == 0 {
                Ok(Resolver::new())
            } else {
                proof {
                    assert(decreases_to!(elements@ => elements@[0]));
                    assert(decreases_to!(*ex => ex->Array_0));
                }
                match resolve_expr_for_var(&elements[0], symbol_table, scope) {
                    Ok(r) => Ok(anonymous(r)),
                    Err(e) => Err(e),
                }
            }
        },
        Expr::Repeat(element) => match resolve_expr_for_var(element, symbol_table, scope) {
            Ok(r) => Ok(anonymous(r)),
            Err(e) => Err(e),
        },
        Expr::If(block) => resolve_block_for_var(block, symbol_table, scope),
        Expr::Block(block) => resolve_block_for_var(block, symbol_table, scope),
        Expr::Binary(comparison, left, _) => {
            if *comparison {
                Ok(Resolver::of_type(Ty::Primitive))
            } else {
                resolve_expr_for_var(left, symbol_table, scope)
            }
        },
        Expr::Unary(deref, operand) => {
            if !*deref {
                Ok(Resolver::of_type(Ty::Primitive))
            } else {
                match resolve_expr_for_var(operand, symbol_table, scope) {
                    Ok(r) => {
                        let target_type = match &r.ref_to {
                            Some(target) => match symbol_table.resolve(scope, target) {
                                Ok(b) => Ok(b.classification),
                                Err(e) => Err(e),
                            },
                            None => Err(AdvisorError::Undereferenceable),
                        };
                        match target_type {
                            Ok(ty) => Ok(
                                Resolver {
                                    var_name: None,
                                    var_type: Some(ty),
                                    ref_to: r.ref_to,
                                    structure: r.structure,
                                },
                            ),
                            Err(e) => Err(e),
                        }
                    },
                    Err(e) => Err(e),
                }
            }
        },
        Expr::Cast(ty) => Ok(Resolver::of_type(classify(ty))),
        Expr::Index(indexed) => resolve_expr_for_var(indexed, symbol_table, scope),
        Expr::Struct(inits) => {
            let mut structure: Vec<(String, Resolver)> = Vec::new();
            let mut i: usize = 0;
            assert(inits@.take(0) =~= Seq::empty());
            while i < inits.len()
                invariant
                    i <= inits.len(),
                    symbol_table.wf(),
                    symbol_table.has_scope(scope),
                    *ex == Expr::Struct(*inits),
                    resolve_inits_spec(symbol_table@, scope as int, inits@.take(i as int)) == Ok::<
                        Seq<(Seq<char>, Descriptor)>,
                        AdvisorError,
                    >(fields_view(structure@)),
                decreases inits.len() - i,
            {
                proof {
                    assert(inits@.take(i as int + 1).drop_last() =~= inits@.take(i as int));
                    assert(decreases_to!(inits@ => inits@[i as int]));
                    assert(decreases_to!(*ex => ex->Struct_0));
                }
                match resolve_expr_for_var(&inits[i].1, symbol_table, scope) {
                    Ok(r) => {
                        put_field(&mut structure, inits[i].0.clone(), anonymous(r));
                    },
                    Err(e) => {
                        proof {
                            lemma_inits_error(symbol_table@, scope as int, inits@, i as int + 1);
                        }
                        return Err(e);
                    },
                }
                i += 1;
            }
            assert(inits@.take(inits.len() as int) =~= inits@);
            Ok(
                Resolver {
                    var_name: None,
                    var_type: Some(Ty::NonPrimitive),
                    ref_to: None,
                    structure,
                },
            )
        },
        Expr::Field(base, name) => match resolve_expr_for_var(base, symbol_table, scope) {
            Ok(r) => match &r.var_name {
                Some(path) => {
                    let whole = child_path(path, name.as_str());
                    match symbol_table.resolve(scope, &whole) {
                        Ok(b) => Ok(
                            Resolver {
                                var_name: Some(whole),
                                var_type: Some(b.classification),
                                ref_to: None,
                                structure: Vec::new(),
                            },
                        ),
                        Err(e) => Err(e),
                    }
                },
                None => Ok(Resolver::new()),
            },
            Err(e) => Err(e),
        },
        _ => Ok(Resolver::new()),
    }
}

/// An error among the first `k` initializers of a record literal is the error of the
/// whole literal.
pub proof fn lemma_inits_error(t: TableModel, s: int, inits: Seq<(String, Expr)>, k: int)
    requires
        0 <= k <= inits.len(),
        resolve_inits_spec(t, s, inits.take(k)) is Err,
    ensures
        resolve_inits_spec(t, s, inits) == resolve_inits_spec(t, s, inits.take(k)),
    decreases inits.len() - k,
{
    if k < inits.len() {
        assert(inits.take(k + 1).drop_last() =~= inits.take(k));
        lemma_inits_error(t, s, inits, k + 1);
    } else {
        assert(inits.take(k) =~= inits);
    }
}

/// Resolves an expression in `scope`: what it names, how its value behaves, what it
/// refers to, and the fields of a record-shaped value.
pub fn resolve_expr(ex: &Expr, symbol_table: &SymbolTable, scope: usize) -> (r: Result<
    Resolver,
    AdvisorError,
>)
    requires
        symbol_table.wf(),
        symbol_table.has_scope(scope),
    ensures
        match resolve_spec(symbol_table@, scope as int, *ex) {
            Ok(d) => r matches Ok(x) && x@ == d,
            Err(e) => r matches Err(x) && x == e,
        },
{
    resolve_expr_for_var(ex, symbol_table, scope)
}

} // verus!
