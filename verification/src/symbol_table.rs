use vstd::prelude::*;
use crate::builtin::str_eq;
use crate::builtin::Ty;
use crate::error::AdvisorError;
use crate::model::find_entry;
use crate::model::all_sound;
use crate::model::carried;
use crate::model::lemma_planted_sound;
use crate::model::lemma_with_alias;
use crate::model::with_alias;
use crate::model::lemma_without_below_sound;
use crate::model::sound;
use crate::model::fresh_binding;
use crate::model::nested_bindings;
use crate::model::paths_of;
use crate::model::planted_bindings;
use crate::model::without_below;
use crate::model::widen_binding;
use crate::model::widen_call;
use crate::model::BindingModel;
use crate::model::CallModel;
use crate::model::ScopeModel;
use crate::model::TableModel;
use crate::path::child_path;
use crate::path::clone_path;
use crate::path::clone_path_opt;
use crate::path::contains_path;
use crate::path::has_prefix;
use crate::path::root_path;
use crate::resolve::fields_view;
use crate::resolve::lemma_fields_view;
use crate::resolve::Resolver;
use crate::path::lemma_first_index;
use crate::path::lemma_no_index;
use crate::path::path_eq;
use crate::path::path_opt_view;
use crate::path::PathModel;
use crate::pre_record::PreRecord;

verus! {

/// One declared name, or one field of a record-shaped binding, within one scope.
#[derive(Debug, PartialEq, Eq)]
pub struct Binding {
    /// The root name, then the fields that lead to this binding.
    pub path: Vec<String>,
    /// The line of the declaration.
    pub declared_at: u32,
    /// How the value behaves when used.
    pub classification: Ty,
    /// The line of the last use, where there was one.
    pub last_used_at: Option<u32>,
    /// Whether the value was moved out of the binding.
    pub moved: bool,
    /// For a reference, the path of the binding that it refers to.
    pub alias_target: Option<Vec<String>>,
    /// The paths of the bindings that refer to this one.
    pub aliased_by: Vec<Vec<String>>,
    /// The line on which the scope of the binding ends.
    pub scope_exit_at: u32,
    /// Whether the binding is record-shaped. Its fields stand in the same scope, under
    /// their full paths.
    pub record: bool,
}

/// One observed call of a cataloged function.
#[derive(Debug, PartialEq, Eq)]
pub struct CallRecord {
    /// The name of the function.
    pub function_name: String,
    /// The path of the receiver, where the call is a method call on a binding.
    pub receiver: Option<Vec<String>>,
    /// For each argument, in order, the path of the binding that it names or refers
    /// to; absent for an argument that is no binding and refers to none.
    pub arguments: Vec<Option<Vec<String>>>,
    /// The line of the call.
    pub call_site_line: u32,
}

/// One lexical block.
#[derive(Debug, PartialEq, Eq)]
pub struct Scope {
    /// The enclosing scope; absent for the root.
    pub parent: Option<usize>,
    /// The first line of the block.
    pub start: u32,
    /// The last line of the block.
    pub end: u32,
    /// The bindings of the block. A path stands for the first binding that bears it.
    pub bindings: Vec<Binding>,
    /// The calls observed in the block, in program order.
    pub calls: Vec<CallRecord>,
    /// The blocks nested directly in this one, in program order.
    pub children: Vec<usize>,
    /// Whether the walk gave the block up: what it holds then gives no advice.
    pub abandoned: bool,
}

/// The scoped symbol table of a program: a tree of scopes, each addressed by a handle,
/// together with the catalog of the program's declarations.
#[derive(Debug)]
pub struct SymbolTable {
    scopes: Vec<Scope>,
    records: PreRecord,
}

/// The view of a line that may be absent.
pub open spec fn line_view(line: Option<u32>) -> Option<nat> {
    match line {
        Some(l) => Some(l as nat),
        None => None,
    }
}

/// The view of a handle that may be absent.
pub open spec fn handle_view(handle: Option<usize>) -> Option<int> {
    match handle {
        Some(h) => Some(h as int),
        None => None,
    }
}

impl View for Binding {
    type V = BindingModel;

    open spec fn view(&self) -> BindingModel {
        BindingModel {
            path: self.path.deep_view(),
            declared_at: self.declared_at as nat,
            classification: self.classification,
            last_used_at: line_view(self.last_used_at),
            moved: self.moved,
            alias_target: path_opt_view(self.alias_target),
            aliased_by: self.aliased_by.deep_view(),
            scope_exit_at: self.scope_exit_at as nat,
            record: self.record,
        }
    }
}

/// The view of the arguments of a call.
pub open spec fn arguments_view(arguments: Seq<Option<Vec<String>>>) -> Seq<Option<PathModel>> {
    arguments.map_values(|a: Option<Vec<String>>| path_opt_view(a))
}

impl View for CallRecord {
    type V = CallModel;

    open spec fn view(&self) -> CallModel {
        CallModel {
            function: self.function_name@,
            receiver: path_opt_view(self.receiver),
            arguments: arguments_view(self.arguments@),
            line: self.call_site_line as nat,
        }
    }
}

/// The view of a list of bindings.
pub open spec fn bindings_view(bindings: Seq<Binding>) -> Seq<BindingModel> {
    bindings.map_values(|b: Binding| b@)
}

/// The view of a list of calls.
pub open spec fn calls_view(calls: Seq<CallRecord>) -> Seq<CallModel> {
    calls.map_values(|c: CallRecord| c@)
}

impl View for Scope {
    type V = ScopeModel;

    open spec fn view(&self) -> ScopeModel {
        ScopeModel {
            parent: handle_view(self.parent),
            start: self.start as nat,
            end: self.end as nat,
            entries: bindings_view(self.bindings@),
            calls: calls_view(self.calls@),
            children: self.children@.map_values(|c: usize| c as int),
            abandoned: self.abandoned,
        }
    }
}

impl View for SymbolTable {
    type V = TableModel;

    closed spec fn view(&self) -> TableModel {
        TableModel { scopes: self.scopes@.map_values(|s: Scope| s@), catalog: self.records@ }
    }
}

/// Finds the first binding of `path` in a list.
pub fn find_binding(bindings: &Vec<Binding>, path: &Vec<String>) -> (found: Option<usize>)
    ensures
        match found {
            Some(i) => i < bindings.len() && find_entry(
                bindings_view(bindings@),
                path.deep_view(),
            ) == Some(i as int),
            None => find_entry(bindings_view(bindings@), path.deep_view()) is None,
        },
{
    let ghost keys = paths_of(bindings_view(bindings@));
    let mut i: usize = 0;
    while i < bindings.len()
        invariant
            i <= bindings.len(),
            keys == paths_of(bindings_view(bindings@)),
            forall|j: int| 0 <= j < i ==> keys[j] != path.deep_view(),
        decreases bindings.len() - i,
    {
        if path_eq(&bindings[i].path, path) {
            proof {
                lemma_first_index(keys, path.deep_view(), i as int);
            }
            return Some(i);
        }
        i += 1;
    }
    proof {
        lemma_no_index(keys, path.deep_view());
    }
    None
}

/// Finds the first binding of the root name `name` in a list.
pub fn find_root(bindings: &Vec<Binding>, name: &str) -> (found: Option<usize>)
    ensures
        match found {
            Some(i) => i < bindings.len() && find_entry(bindings_view(bindings@), seq![name@])
                == Some(i as int),
            None => find_entry(bindings_view(bindings@), seq![name@]) is None,
        },
{
    let ghost keys = paths_of(bindings_view(bindings@));
    let mut i: usize = 0;
    while i < bindings.len()
        invariant
            i <= bindings.len(),
            keys == paths_of(bindings_view(bindings@)),
            forall|j: int| 0 <= j < i ==> keys[j] != seq![name@],
        decreases bindings.len() - i,
    {
        if bindings[i].path.len() == 1 && str_eq(bindings[i].path[0].as_str(), name) {
            proof {
                assert(keys[i as int] =~= seq![name@]);
                lemma_first_index(keys, seq![name@], i as int);
            }
            return Some(i);
        }
        proof {
            if keys[i as int] == seq![name@] {
                assert(keys[i as int].len() == 1);
                assert(keys[i as int][0] == name@);
            }
        }
        i += 1;
    }
    proof {
        lemma_no_index(keys, seq![name@]);
    }
    None
}

/// A tree of the shape of a well-formed tree is well formed if its bindings are
/// sound: the shape is each scope's parent and children.
pub proof fn lemma_same_shape(before: TableModel, after: TableModel)
    requires
        before.wf(),
        after.scopes.len() == before.scopes.len(),
        forall|i: int|
            0 <= i < before.scopes.len() ==> (#[trigger] after.scopes[i]).parent
                == before.scopes[i].parent && after.scopes[i].children
                == before.scopes[i].children,
        forall|i: int|
            0 <= i < after.scopes.len() ==> all_sound((#[trigger] after.scopes[i]).entries),
    ensures
        after.wf(),
{
    assert forall|i: int, k: int|
        #![trigger after.scopes[i].children[k]]
        after.has_scope(i) && 0 <= k < after.scopes[i].children.len() implies {
        &&& i < after.scopes[i].children[k] < after.scopes.len()
        &&& after.scopes[after.scopes[i].children[k]].parent == Some(i)
    } by {
        let c = before.scopes[i].children[k];
        assert(after.scopes[c].parent == before.scopes[c].parent);
    }
    assert forall|i: int|
        #![trigger after.scopes[i]]
        0 < i < after.scopes.len() implies match after.scopes[i].parent {
        Some(p) => 0 <= p < i && after.scopes[p].children.contains(i),
        None => false,
    } by {
        assert(after.scopes[i].parent == before.scopes[i].parent);
        let p = before.scopes[i].parent->Some_0;
        assert(after.scopes[p].children == before.scopes[p].children);
    }
    assert(after.scopes[0].parent == before.scopes[0].parent);
}

/// A tree that differs from a well-formed tree in one binding is well formed if the
/// new binding is sound.
pub proof fn lemma_set_binding_wf(before: TableModel, o: int, i: int, b: BindingModel)
    requires
        before.wf(),
        before.has_scope(o),
        0 <= i < before.scopes[o].entries.len(),
        sound(b),
    ensures
        before.set_binding(o, i, b).wf(),
{
    let after = before.set_binding(o, i, b);
    assert forall|x: int| 0 <= x < after.scopes.len() implies all_sound(
        (#[trigger] after.scopes[x]).entries,
    ) by {
        assert(all_sound(before.scopes[x].entries));
        if x == o {
            assert forall|j: int| 0 <= j < after.scopes[x].entries.len() implies sound(
                #[trigger] after.scopes[x].entries[j],
            ) by {
                if j != i {
                    assert(sound(before.scopes[x].entries[j]));
                }
            }
        }
    }
    lemma_same_shape(before, after);
}

/// A tree that differs from a well-formed tree in the bindings of one scope is well
/// formed if the new bindings are sound.
pub proof fn lemma_set_entries_wf(before: TableModel, o: int, entries: Seq<BindingModel>)
    requires
        before.wf(),
        before.has_scope(o),
        all_sound(entries),
    ensures
        before.set_entries(o, entries).wf(),
{
    let after = before.set_entries(o, entries);
    assert forall|x: int| 0 <= x < after.scopes.len() implies all_sound(
        (#[trigger] after.scopes[x]).entries,
    ) by {
        assert(all_sound(before.scopes[x].entries));
    }
    lemma_same_shape(before, after);
}

impl SymbolTable {
    /// Whether the table is well formed.
    pub open spec fn wf(&self) -> bool {
        self@.wf()
    }

    /// Whether `scope` is a handle of this table.
    pub open spec fn spec_has_scope(&self, scope: usize) -> bool {
        self@.has_scope(scope as int)
    }

    /// A table that holds the root scope alone.
    pub fn new(start: u32, end: u32, records: PreRecord) -> (table: SymbolTable)
        ensures
            table.wf(),
            table@ == TableModel::root(start as nat, end as nat, records@),
            table@.nothing_given_up(),
    {
        let mut scopes: Vec<Scope> = Vec::new();
        scopes.push(
            Scope {
                parent: None,
                start,
                end,
                bindings: Vec::new(),
                calls: Vec::new(),
                children: Vec::new(),
                abandoned: false,
            },
        );
        let table = SymbolTable { scopes, records };
        proof {
            let root = TableModel::root(start as nat, end as nat, records@);
            assert(table@.scopes[0].entries =~= root.scopes[0].entries);
            assert(table@.scopes[0].calls =~= root.scopes[0].calls);
            assert(table@.scopes[0].children =~= root.scopes[0].children);
            assert(table@.scopes =~= root.scopes);
        }
        table
    }

    /// The handle of the root scope.
    pub fn root(&self) -> (scope: usize)
        ensures
            scope == 0,
    {
        0
    }

    /// How many scopes the table holds.
    pub fn scope_count(&self) -> (n: usize)
        ensures
            n == self@.scopes.len(),
    {
        self.scopes.len()
    }

    /// Whether `scope` is a handle of this table.
    #[verifier::when_used_as_spec(spec_has_scope)]
    pub fn has_scope(&self, scope: usize) -> (yes: bool)
        ensures
            yes == self@.has_scope(scope as int),
    {
        scope < self.scopes.len()
    }

    /// The scope behind a handle.
    pub fn scope(&self, scope: usize) -> (s: &Scope)
        requires
            self@.has_scope(scope as int),
        ensures
            s@ == self@.scopes[scope as int],
    {
        &self.scopes[scope]
    }

    /// The catalog that the table was made with.
    pub fn records(&self) -> (records: &PreRecord)
        ensures
            records@ == self@.catalog,
    {
        &self.records
    }

    /// The nearest scope, from `scope` outwards, that binds the root name `name`.
    pub fn owner_of(&self, scope: usize, name: &str) -> (owner: Option<usize>)
        requires
            self.wf(),
            self.has_scope(scope),
        ensures
            handle_view(owner) == self@.owner(scope as int, name@),
            owner matches Some(o) ==> self.has_scope(o),
    {
        let mut cur = scope;
        loop
            invariant
                self.wf(),
                cur < self.scopes.len(),
                self@.owner(scope as int, name@) == self@.owner(cur as int, name@),
            decreases cur,
        {
            if find_root(&self.scopes[cur].bindings, name).is_some() {
                return Some(cur);
            }
            assert(self@.scopes[cur as int].parent == handle_view(self.scopes[cur as int].parent));
            match self.scopes[cur].parent {
                Some(p) => {
                    cur = p;
                },
                None => {
                    return None;
                },
            }
        }
    }

    /// Resolves `path` from `scope`: the scope that owns its root name, and the place
    /// of its binding there.
    pub fn locate(&self, scope: usize, path: &Vec<String>) -> (at: Result<
        (usize, usize),
        AdvisorError,
    >)
        requires
            self.wf(),
            self.has_scope(scope),
        ensures
            match self@.locate(scope as int, path.deep_view()) {
                Ok(place) => at matches Ok(p) && p.0 == place.0 && p.1 == place.1
                    && self.has_scope(p.0) && p.1 < self@.scopes[place.0].entries.len(),
                Err(e) => at == Err::<(usize, usize), AdvisorError>(e),
            },
    {
        if path.len() == 0 {
            return Err(AdvisorError::PathNotFound);
        }
        assert(path.deep_view()[0] == path@[0]@);
        match self.owner_of(scope, path[0].as_str()) {
            None => Err(AdvisorError::PathNotFound),
            Some(o) => match find_binding(&self.scopes[o].bindings, path) {
                Some(i) => Ok((o, i)),
                None => Err(AdvisorError::UnresolvedField),
            },
        }
    }

    /// The binding that `path` resolves to from `scope`.
    pub fn resolve(&self, scope: usize, path: &Vec<String>) -> (found: Result<
        &Binding,
        AdvisorError,
    >)
        requires
            self.wf(),
            self.has_scope(scope),
        ensures
            match self@.resolve(scope as int, path.deep_view()) {
                Ok(b) => found matches Ok(x) && x@ == b,
                Err(e) => found matches Err(x) && x == e,
            },
    {
        match self.locate(scope, path) {
            Ok(at) => Ok(&self.scopes[at.0].bindings[at.1]),
            Err(e) => Err(e),
        }
    }

    /// Whether `var` resolves to a binding from `scope`.
    pub fn check_var(&self, scope: usize, var: &Vec<String>) -> (yes: bool)
        requires
            self.wf(),
            self.has_scope(scope),
        ensures
            yes == self@.resolve(scope as int, var.deep_view()) is Ok,
    {
        self.locate(scope, var).is_ok()
    }

    /// The classification of the binding that `var` resolves to from `scope`.
    pub fn get_var_type(&self, scope: usize, var: &Vec<String>) -> (ty: Result<Ty, AdvisorError>)
        requires
            self.wf(),
            self.has_scope(scope),
        ensures
            match self@.resolve(scope as int, var.deep_view()) {
                Ok(b) => ty == Ok::<Ty, AdvisorError>(b.classification),
                Err(e) => ty == Err::<Ty, AdvisorError>(e),
            },
    {
        match self.resolve(scope, var) {
            Ok(b) => Ok(b.classification),
            Err(e) => Err(e),
        }
    }

    /// The line of the last use of the binding that `var` resolves to from `scope`,
    /// where it was used at all.
    pub fn get_last_used(&self, scope: usize, var: &Vec<String>) -> (line: Result<
        Option<u32>,
        AdvisorError,
    >)
        requires
            self.wf(),
            self.has_scope(scope),
        ensures
            match self@.resolve(scope as int, var.deep_view()) {
                Ok(b) => line matches Ok(l) && line_view(l) == b.last_used_at,
                Err(e) => line matches Err(x) && x == e,
            },
    {
        match self.resolve(scope, var) {
            Ok(b) => Ok(b.last_used_at),
            Err(e) => Err(e),
        }
    }

    fn mark(&mut self, o: usize, i: usize, line: u32, moved: bool)
        requires
            old(self).wf(),
            old(self).has_scope(o),
            i < old(self)@.scopes[o as int].entries.len(),
        ensures
            final(self).wf(),
            final(self)@.scopes.len() == old(self)@.scopes.len(),
            final(self)@ == old(self)@.set_binding(
                o as int,
                i as int,
                BindingModel {
                    moved,
                    last_used_at: Some(line as nat),
                    ..old(self)@.scopes[o as int].entries[i as int]
                },
            ),
    {
        self.scopes[o].bindings[i].last_used_at = Some(line);
        self.scopes[o].bindings[i].moved = moved;
        proof {
            let goal = old(self)@.set_binding(
                o as int,
                i as int,
                BindingModel {
                    moved,
                    last_used_at: Some(line as nat),
                    ..old(self)@.scopes[o as int].entries[i as int]
                },
            );
            assert(self@.scopes[o as int].entries =~= goal.scopes[o as int].entries);
            assert(self@.scopes =~= goal.scopes);
            assert(sound(old(self)@.scopes[o as int].entries[i as int]));
            lemma_set_binding_wf(
                old(self)@,
                o as int,
                i as int,
                BindingModel {
                    moved,
                    last_used_at: Some(line as nat),
                    ..old(self)@.scopes[o as int].entries[i as int]
                },
            );
        }
    }

    /// A value at `path` is consumed on `line`: an owned binding is moved, and may not
    /// have been moved before; a reference is used; a primitive is left as it is.
    pub fn record_use(&mut self, scope: usize, path: &Vec<String>, line: u32) -> (done: Result<
        (),
        AdvisorError,
    >)
        requires
            old(self).wf(),
            old(self).has_scope(scope),
        ensures
            final(self).wf(),
            final(self)@.scopes.len() == old(self)@.scopes.len(),
            match old(self)@.record_use(scope as int, path.deep_view(), line as nat) {
                Ok(after) => done is Ok && final(self)@ == after,
                Err(e) => done == Err::<(), AdvisorError>(e) && final(self)@ == old(self)@,
            },
    {
        match self.locate(scope, path) {
            Err(e) => Err(e),
            Ok(at) => {
                let moved = self.scopes[at.0].bindings[at.1].moved;
                match self.scopes[at.0].bindings[at.1].classification {
                    Ty::NonPrimitive => {
                        if moved {
                            Err(AdvisorError::UseAfterMove)
                        } else {
                            self.mark(at.0, at.1, line, true);
                            Ok(())
                        }
                    },
                    Ty::Ref => {
                        self.mark(at.0, at.1, line, moved);
                        Ok(())
                    },
                    Ty::Primitive => Ok(()),
                }
            },
        }
    }

    /// The binding at `path` is read on `line` without being consumed; it may not
    /// have been moved before.
    pub fn record_last_used(&mut self, scope: usize, path: &Vec<String>, line: u32) -> (done:
        Result<(), AdvisorError>)
        requires
            old(self).wf(),
            old(self).has_scope(scope),
        ensures
            final(self).wf(),
            final(self)@.scopes.len() == old(self)@.scopes.len(),
            match old(self)@.record_last_used(scope as int, path.deep_view(), line as nat) {
                Ok(after) => done is Ok && final(self)@ == after,
                Err(e) => done == Err::<(), AdvisorError>(e) && final(self)@ == old(self)@,
            },
    {
        match self.locate(scope, path) {
            Err(e) => Err(e),
            Ok(at) => {
                if self.scopes[at.0].bindings[at.1].moved {
                    Err(AdvisorError::UseAfterMove)
                } else {
                    self.mark(at.0, at.1, line, false);
                    Ok(())
                }
            },
        }
    }

    /// Records that the binding at `target_path` is referred to by the binding at
    /// `aliasing_path`.
    pub fn register_alias(
        &mut self,
        scope: usize,
        target_path: &Vec<String>,
        aliasing_path: &Vec<String>,
    ) -> (done: Result<(), AdvisorError>)
        requires
            old(self).wf(),
            old(self).has_scope(scope),
        ensures
            final(self).wf(),
            final(self)@.scopes.len() == old(self)@.scopes.len(),
            match old(self)@.register_alias(
                scope as int,
                target_path.deep_view(),
                aliasing_path.deep_view(),
            ) {
                Ok(after) => done is Ok && final(self)@ == after,
                Err(e) => done == Err::<(), AdvisorError>(e) && final(self)@ == old(self)@,
            },
    {
        match self.locate(scope, target_path) {
            Err(e) => Err(e),
            Ok(at) => {
                proof {
                    let before = old(self)@.scopes[at.0 as int].entries[at.1 as int];
                    assert(sound(before));
                    lemma_with_alias(before.aliased_by, aliasing_path.deep_view());
                    assert(old(self)@.set_binding(at.0 as int, at.1 as int, before).scopes
                        =~= old(self)@.scopes) by {
                        assert(old(self)@.scopes[at.0 as int].entries.update(at.1 as int, before)
                            =~= old(self)@.scopes[at.0 as int].entries);
                    }
                }
                if !contains_path(&self.scopes[at.0].bindings[at.1].aliased_by, aliasing_path) {
                    let alias = clone_path(aliasing_path);
                    self.scopes[at.0].bindings[at.1].aliased_by.push(alias);
                    proof {
                        let before = old(self)@.scopes[at.0 as int].entries[at.1 as int];
                        let after = BindingModel {
                            aliased_by: with_alias(before.aliased_by, aliasing_path.deep_view()),
                            ..before
                        };
                        let goal = old(self)@.set_binding(at.0 as int, at.1 as int, after);
                        assert(self@.scopes[at.0 as int].entries[at.1 as int].aliased_by
                            =~= before.aliased_by.push(aliasing_path.deep_view()));
                        assert(self@.scopes[at.0 as int].entries
                            =~= goal.scopes[at.0 as int].entries);
                        assert(self@.scopes =~= goal.scopes);
                        lemma_set_binding_wf(old(self)@, at.0 as int, at.1 as int, after);
                    }
                }
                Ok(())
            },
        }
    }

    /// Opens a scope below `parent` and returns its handle.
    pub fn open_scope(&mut self, parent: usize, start: u32, end: u32) -> (child: usize)
        requires
            old(self).wf(),
            old(self).has_scope(parent),
        ensures
            final(self).wf(),
            final(self).has_scope(child),
            child == old(self)@.scopes.len(),
            final(self)@ == old(self)@.open_scope(parent as int, start as nat, end as nat),
    {
        let child = self.scopes.len();
        self.scopes[parent].children.push(child);
        self.scopes.push(
            Scope {
                parent: Some(parent),
                start,
                end,
                bindings: Vec::new(),
                calls: Vec::new(),
                children: Vec::new(),
                abandoned: false,
            },
        );
        proof {
            let goal = old(self)@.open_scope(parent as int, start as nat, end as nat);
            assert(self@.scopes[parent as int].children =~= goal.scopes[parent as int].children);
            assert(self@.scopes[child as int].children =~= goal.scopes[child as int].children);
            assert(self@.scopes[child as int].entries =~= goal.scopes[child as int].entries);
            assert(self@.scopes[child as int].calls =~= goal.scopes[child as int].calls);
            assert(self@.scopes =~= goal.scopes);
            lemma_open_scope_wf(old(self)@, parent as int, start as nat, end as nat);
        }
        child
    }

    /// Records a call observed in `scope`.
    pub fn record_call(
        &mut self,
        scope: usize,
        name: String,
        receiver: Option<Vec<String>>,
        arguments: Vec<Option<Vec<String>>>,
        line: u32,
    )
        requires
            old(self).wf(),
            old(self).has_scope(scope),
        ensures
            final(self).wf(),
            final(self)@.scopes.len() == old(self)@.scopes.len(),
            final(self)@ == old(self)@.record_call(
                scope as int,
                CallModel {
                    function: name@,
                    receiver: path_opt_view(receiver),
                    arguments: arguments_view(arguments@),
                    line: line as nat,
                },
            ),
    {
        let call = CallRecord { function_name: name, receiver, arguments, call_site_line: line };
        self.scopes[scope].calls.push(call);
        proof {
            let goal = old(self)@.record_call(scope as int, call@);
            assert(self@.scopes[scope as int].calls =~= goal.scopes[scope as int].calls);
            assert(self@.scopes =~= goal.scopes);
            lemma_same_shape(old(self)@, self@);
        }
    }
}

/// Widens each binding of a list with the region `start..=end`.
fn widen_bindings(bindings: &mut Vec<Binding>, start: u32, end: u32)
    ensures
        bindings_view(final(bindings)@) == bindings_view(old(bindings)@).map_values(
            |b: BindingModel| widen_binding(b, start as nat, end as nat),
        ),
{
    let ghost goal = bindings_view(old(bindings)@).map_values(
        |b: BindingModel| widen_binding(b, start as nat, end as nat),
    );
    let mut i: usize = 0;
    while i < bindings.len()
        invariant
            i <= bindings.len(),
            bindings.len() == old(bindings).len(),
            goal == bindings_view(old(bindings)@).map_values(
                |b: BindingModel| widen_binding(b, start as nat, end as nat),
            ),
            forall|j: int| 0 <= j < i ==> (#[trigger] bindings@[j])@ == goal[j],
            forall|j: int|
                i <= j < bindings.len() ==> (#[trigger] bindings@[j]) == old(bindings)@[j],
        decreases bindings.len() - i,
    {
        let declared = bindings[i].declared_at;
        match bindings[i].last_used_at {
            Some(l) => {
                if start <= l && l <= end && declared < start {
                    bindings[i].last_used_at = Some(end);
                }
            },
            None => {},
        }
        i += 1;
    }
    assert(bindings_view(bindings@) =~= goal);
}

/// Widens each call of a list with the region `start..=end`.
fn widen_calls(calls: &mut Vec<CallRecord>, start: u32, end: u32)
    ensures
        calls_view(final(calls)@) == calls_view(old(calls)@).map_values(
            |c: CallModel| widen_call(c, start as nat, end as nat),
        ),
{
    let ghost goal = calls_view(old(calls)@).map_values(
        |c: CallModel| widen_call(c, start as nat, end as nat),
    );
    let mut i: usize = 0;
    while i < calls.len()
        invariant
            i <= calls.len(),
            calls.len() == old(calls).len(),
            goal == calls_view(old(calls)@).map_values(
                |c: CallModel| widen_call(c, start as nat, end as nat),
            ),
            forall|j: int| 0 <= j < i ==> (#[trigger] calls@[j])@ == goal[j],
            forall|j: int| i <= j < calls.len() ==> (#[trigger] calls@[j]) == old(calls)@[j],
        decreases calls.len() - i,
    {
        let l = calls[i].call_site_line;
        if start <= l && l <= end {
            calls[i].call_site_line = end;
        }
        i += 1;
    }
    assert(calls_view(calls@) =~= goal);
}

/// Marks a scope as given up.
fn give_up(scope: &mut Scope)
    ensures
        final(scope)@ == (ScopeModel { abandoned: true, ..old(scope)@ }),
{
    scope.abandoned = true;
}

/// Which scopes enclose which depends on the shape of the tree alone.
pub proof fn lemma_in_chain_shape(a: TableModel, b: TableModel, s: int, x: int, depth: nat)
    requires
        a.scopes.len() == b.scopes.len(),
        forall|i: int|
            0 <= i < a.scopes.len() ==> (#[trigger] a.scopes[i]).parent == b.scopes[i].parent,
    ensures
        a.in_chain(s, x, depth) == b.in_chain(s, x, depth),
    decreases depth,
{
    if depth > 0 && a.has_scope(s) && x != s {
        match a.scopes[s].parent {
            Some(p) => lemma_in_chain_shape(a, b, p, x, (depth - 1) as nat),
            None => {},
        }
    }
}

/// Which scopes lie inside which depends on the shape of the tree alone.
pub proof fn lemma_within_shape(a: TableModel, b: TableModel, x: int, s: int)
    requires
        a.scopes.len() == b.scopes.len(),
        forall|i: int|
            0 <= i < a.scopes.len() ==> (#[trigger] a.scopes[i]).parent == b.scopes[i].parent,
    ensures
        a.within(x, s) == b.within(x, s),
    decreases x,
{
    if a.has_scope(x) && x != s {
        match a.scopes[x].parent {
            Some(p) => if 0 <= p < x {
                lemma_within_shape(a, b, p, s);
            },
            None => {},
        }
    }
}

impl SymbolTable {
    /// Whether `x` is among the `depth` nearest scopes that enclose a region of `scope`.
    pub fn chain_has(&self, scope: usize, x: usize, depth: usize) -> (yes: bool)
        requires
            self.wf(),
            self.has_scope(scope),
        ensures
            yes == self@.in_chain(scope as int, x as int, depth as nat),
    {
        let mut cur = scope;
        let mut left = depth;
        loop
            invariant
                self.wf(),
                cur < self.scopes.len(),
                self@.in_chain(scope as int, x as int, depth as nat) == self@.in_chain(
                    cur as int,
                    x as int,
                    left as nat,
                ),
            decreases left,
        {
            if left == 0 {
                return false;
            }
            if cur == x {
                return true;
            }
            assert(self@.scopes[cur as int].parent == handle_view(self.scopes[cur as int].parent));
            match self.scopes[cur].parent {
                Some(p) => {
                    cur = p;
                    left = left - 1;
                },
                None => {
                    return false;
                },
            }
        }
    }

    /// Whether the scope `x` is `scope` or lies inside it.
    pub fn is_within(&self, x: usize, scope: usize) -> (yes: bool)
        requires
            self.wf(),
            self.has_scope(x),
        ensures
            yes == self@.within(x as int, scope as int),
    {
        let mut cur = x;
        loop
            invariant
                self.wf(),
                cur < self.scopes.len(),
                self@.within(x as int, scope as int) == self@.within(cur as int, scope as int),
            decreases cur,
        {
            if cur == scope {
                return true;
            }
            assert(self@.scopes[cur as int].parent == handle_view(self.scopes[cur as int].parent));
            match self.scopes[cur].parent {
                Some(p) => {
                    cur = p;
                },
                None => {
                    return false;
                },
            }
        }
    }

    /// A region `start_line..=end_line` of `scope` has been walked: each binding of
    /// the `ancestor_depth` nearest enclosing scopes that was declared before the
    /// region and last used inside it counts as used until the region's end.
    pub fn widen_last_use(
        &mut self,
        scope: usize,
        start_line: u32,
        end_line: u32,
        ancestor_depth: usize,
    )
        requires
            old(self).wf(),
            old(self).has_scope(scope),
        ensures
            final(self).wf(),
            final(self)@.scopes.len() == old(self)@.scopes.len(),
            final(self)@ == old(self)@.widen_last_use(
                scope as int,
                start_line as nat,
                end_line as nat,
                ancestor_depth as nat,
            ),
    {
        let ghost goal = old(self)@.widen_last_use(
            scope as int,
            start_line as nat,
            end_line as nat,
            ancestor_depth as nat,
        );
        let n = self.scopes.len();
        let mut x: usize = 0;
        while x < n
            invariant
                x <= n,
                n == self.scopes.len(),
                n == old(self).scopes.len(),
                old(self).wf(),
                old(self).has_scope(scope),
                self.records == old(self).records,
                goal == old(self)@.widen_last_use(
                    scope as int,
                    start_line as nat,
                    end_line as nat,
                    ancestor_depth as nat,
                ),
                forall|y: int| 0 <= y < x ==> (#[trigger] self.scopes@[y])@ == goal.scopes[y],
                forall|y: int| x <= y < n ==> (#[trigger] self.scopes@[y]) == old(self).scopes@[y],
            decreases n - x,
        {
            proof {
                assert forall|i: int| 0 <= i < n implies (#[trigger] self@.scopes[i]).parent == old(
                    self,
                )@.scopes[i].parent && self@.scopes[i].children == old(self)@.scopes[i].children by {
                    if i < x {
                        assert(self.scopes@[i]@ == goal.scopes[i]);
                    } else {
                        assert(self.scopes@[i] == old(self).scopes@[i]);
                    }
                }
                lemma_same_shape(old(self)@, self@);
                lemma_in_chain_shape(
                    old(self)@,
                    self@,
                    scope as int,
                    x as int,
                    ancestor_depth as nat,
                );
            }
            if self.chain_has(scope, x, ancestor_depth) {
                widen_bindings(&mut self.scopes[x].bindings, start_line, end_line);
            }
            x += 1;
        }
        proof {
            assert(self@.scopes =~= goal.scopes);
            lemma_same_shape(old(self)@, self@);
        }
    }

    /// Marks the beginning of a declaration that the walk meets in `scope`. A
    /// declaration at the top level, met in the root scope, is what the walk gives up
    /// as a whole if a part of it cannot be represented: for it the mark is the count
    /// of scopes before it, to hand to `abandon_since` if the walk fails. A declaration
    /// nested in a block belongs to the declaration around it and has no mark.
    pub fn begin_declaration(&self, scope: usize) -> (mark: Option<usize>)
        ensures
            mark == (if scope == 0 {
                Some(self@.scopes.len() as usize)
            } else {
                None
            }),
    {
        if scope == 0 {
            Some(self.scopes.len())
        } else {
            None
        }
    }

    /// Gives up every scope that was opened since the table held `first` scopes, so
    /// that a declaration that could not be represented gives no advice. The scopes
    /// keep what they hold and their place in the tree.
    pub fn abandon_since(&mut self, first: usize)
        requires
            old(self).wf(),
        ensures
            final(self).wf(),
            final(self)@.scopes.len() == old(self)@.scopes.len(),
            final(self)@ == old(self)@.abandon_since(first as int),
    {
        let ghost goal = old(self)@.abandon_since(first as int);
        let n = self.scopes.len();
        let mut x: usize = 0;
        while x < n
            invariant
                x <= n,
                n == self.scopes.len(),
                n == old(self).scopes.len(),
                old(self).wf(),
                self.records == old(self).records,
                goal == old(self)@.abandon_since(first as int),
                forall|y: int| 0 <= y < x ==> (#[trigger] self.scopes@[y])@ == goal.scopes[y],
                forall|y: int| x <= y < n ==> (#[trigger] self.scopes@[y]) == old(self).scopes@[y],
            decreases n - x,
        {
            if x >= first {
                give_up(&mut self.scopes[x]);
            }
            x += 1;
        }
        proof {
            assert(self@.scopes =~= goal.scopes);
            lemma_same_shape(old(self)@, self@);
        }
    }

    /// A region `start_line..=end_line` of `scope` has been walked: each call made
    /// inside it counts as made at the region's end. The calls concerned are those of
    /// the `ancestor_depth` nearest enclosing scopes and of the scopes opened inside
    /// `scope`.
    pub fn widen_call_sites(
        &mut self,
        scope: usize,
        start_line: u32,
        end_line: u32,
        ancestor_depth: usize,
    )
        requires
            old(self).wf(),
            old(self).has_scope(scope),
        ensures
            final(self).wf(),
            final(self)@.scopes.len() == old(self)@.scopes.len(),
            final(self)@ == old(self)@.widen_call_sites(
                scope as int,
                start_line as nat,
                end_line as nat,
                ancestor_depth as nat,
            ),
    {
        let ghost goal = old(self)@.widen_call_sites(
            scope as int,
            start_line as nat,
            end_line as nat,
            ancestor_depth as nat,
        );
        let n = self.scopes.len();
        let mut x: usize = 0;
        while x < n
            invariant
                x <= n,
                n == self.scopes.len(),
                n == old(self).scopes.len(),
                old(self).wf(),
                old(self).has_scope(scope),
                self.records == old(self).records,
                goal == old(self)@.widen_call_sites(
                    scope as int,
                    start_line as nat,
                    end_line as nat,
                    ancestor_depth as nat,
                ),
                forall|y: int| 0 <= y < x ==> (#[trigger] self.scopes@[y])@ == goal.scopes[y],
                forall|y: int| x <= y < n ==> (#[trigger] self.scopes@[y]) == old(self).scopes@[y],
            decreases n - x,
        {
            proof {
                assert forall|i: int| 0 <= i < n implies (#[trigger] self@.scopes[i]).parent == old(
                    self,
                )@.scopes[i].parent && self@.scopes[i].children == old(self)@.scopes[i].children by {
                    if i < x {
                        assert(self.scopes@[i]@ == goal.scopes[i]);
                    } else {
                        assert(self.scopes@[i] == old(self).scopes@[i]);
                    }
                }
                lemma_same_shape(old(self)@, self@);
                lemma_in_chain_shape(
                    old(self)@,
                    self@,
                    scope as int,
                    x as int,
                    ancestor_depth as nat,
                );
                lemma_within_shape(old(self)@, self@, x as int, scope as int);
            }
            if self.chain_has(scope, x, ancestor_depth) || self.is_within(x, scope) {
                widen_calls(&mut self.scopes[x].calls, start_line, end_line);
            }
            x += 1;
        }
        proof {
            assert(self@.scopes =~= goal.scopes);
            lemma_same_shape(old(self)@, self@);
        }
    }
}

/// The outcome of an operation as the contracts see it.
pub open spec fn outcome(error: Option<AdvisorError>) -> Result<(), AdvisorError> {
    match error {
        Some(e) => Err(e),
        None => Ok(()),
    }
}

/// Removes from a list the bindings that stand at `path` or below it.
fn remove_below(bindings: &mut Vec<Binding>, path: &Vec<String>)
    ensures
        bindings_view(final(bindings)@) == without_below(
            bindings_view(old(bindings)@),
            path.deep_view(),
        ),
{
    let ghost orig = old(bindings)@;
    let ghost whole = bindings_view(orig);
    let ghost mut k: int = 0;
    let mut i: usize = 0;
    assert(whole.take(0) =~= Seq::empty());
    while i < bindings.len()
        invariant
            0 <= i <= bindings.len(),
            0 <= k <= orig.len(),
            bindings.len() - i == orig.len() - k,
            orig == old(bindings)@,
            whole == bindings_view(orig),
            bindings_view(bindings@).take(i as int) == without_below(
                whole.take(k),
                path.deep_view(),
            ),
            forall|j: int| i <= j < bindings.len() ==> (#[trigger] bindings@[j]) == orig[j + k - i],
        decreases bindings.len() - i,
    {
        proof {
            assert(bindings@[i as int] == orig[k]);
            assert(whole.take(k + 1).drop_last() =~= whole.take(k));
            assert(whole.take(k + 1).last() == orig[k]@);
        }
        if has_prefix(&bindings[i].path, path) {
            let ghost before = bindings@;
            bindings.remove(i);
            proof {
                assert(bindings_view(bindings@).take(i as int) =~= bindings_view(before).take(
                    i as int,
                ));
                assert forall|j: int| i <= j < bindings.len() implies (#[trigger] bindings@[j])
                    == orig[j + k + 1 - i] by {
                    assert(bindings@[j] == before[j + 1]);
                }
                k = k + 1;
            }
        } else {
            proof {
                assert(bindings_view(bindings@).take(i as int + 1) =~= bindings_view(
                    bindings@,
                ).take(i as int).push(orig[k]@));
                k = k + 1;
            }
            i += 1;
        }
    }
    assert(bindings_view(bindings@).take(i as int) =~= bindings_view(bindings@));
    assert(whole.take(k) =~= whole);
}

/// A binding as it is when declared.
fn fresh(
    path: Vec<String>,
    classification: Ty,
    alias_target: Option<Vec<String>>,
    record: bool,
    line: u32,
    exit: u32,
) -> (b: Binding)
    ensures
        b@ == fresh_binding(
            path.deep_view(),
            classification,
            path_opt_view(alias_target),
            record,
            line as nat,
            exit as nat,
        ),
{
    let b = Binding {
        path,
        declared_at: line,
        classification,
        last_used_at: None,
        moved: false,
        alias_target,
        aliased_by: Vec::new(),
        scope_exit_at: exit,
        record,
    };
    assert(b@.aliased_by =~= Seq::empty());
    b
}

/// Appends the bindings of the fields below `prefix`, each followed by those of its
/// own fields.
fn nest(
    out: &mut Vec<Binding>,
    prefix: &Vec<String>,
    fields: &Vec<(String, Resolver)>,
    line: u32,
    exit: u32,
)
    ensures
        bindings_view(final(out)@) == bindings_view(old(out)@) + nested_bindings(
            prefix.deep_view(),
            fields_view(fields@),
            line as nat,
            exit as nat,
        ),
    decreases fields, 0int,
{
    let mut i: usize = 0;
    proof {
        assert(fields@.take(0) =~= Seq::empty());
        assert(bindings_view(out@) =~= bindings_view(old(out)@) + Seq::empty());
    }
    while i < fields.len()
        invariant
            i <= fields.len(),
            bindings_view(out@) == bindings_view(old(out)@) + nested_bindings(
                prefix.deep_view(),
                fields_view(fields@.take(i as int)),
                line as nat,
                exit as nat,
            ),
        decreases fields.len() - i,
    {
        let ghost sofar = fields_view(fields@.take(i as int));
        let ghost next = fields_view(fields@.take(i as int + 1));
        proof {
            assert(fields@.take(i as int + 1).drop_last() =~= fields@.take(i as int));
            assert(next.drop_last() =~= sofar);
            assert(next.last() == (fields@[i as int].0@, fields@[i as int].1@));
            assert(decreases_to!(fields@ => fields@[i as int]));
        }
        let field = &fields[i];
        match field.1.var_type {
            Some(ty) => {
                let path = child_path(prefix, field.0.as_str());
                plant_into(out, &path, ty, &field.1.ref_to, &field.1.structure, line, exit);
                proof {
                    assert(bindings_view(out@) =~= bindings_view(old(out)@) + nested_bindings(
                        prefix.deep_view(),
                        next,
                        line as nat,
                        exit as nat,
                    ));
                }
            },
            None => {
                proof {
                    assert(bindings_view(out@) =~= bindings_view(old(out)@) + nested_bindings(
                        prefix.deep_view(),
                        next,
                        line as nat,
                        exit as nat,
                    ));
                }
            },
        }
        i += 1;
    }
    assert(fields@.take(fields.len() as int) =~= fields@);
}

/// Appends the bindings that a declaration of `path` brings: its own, then those of
/// its fields if it is owned.
fn plant_into(
    out: &mut Vec<Binding>,
    path: &Vec<String>,
    classification: Ty,
    alias_target: &Option<Vec<String>>,
    fields: &Vec<(String, Resolver)>,
    line: u32,
    exit: u32,
)
    ensures
        bindings_view(final(out)@) == bindings_view(old(out)@) + planted_bindings(
            path.deep_view(),
            classification,
            path_opt_view(*alias_target),
            fields_view(fields@),
            line as nat,
            exit as nat,
        ),
    decreases fields, 1int,
{
    let owned = match classification {
        Ty::NonPrimitive => true,
        _ => false,
    };
    proof {
        lemma_fields_view(fields@);
    }
    let ghost before = out@;
    out.push(
        fresh(
            clone_path(path),
            classification,
            clone_path_opt(alias_target),
            owned && fields.len() > 0,
            line,
            exit,
        ),
    );
    let ghost head = fresh_binding(
        path.deep_view(),
        classification,
        path_opt_view(*alias_target),
        carried(classification, fields_view(fields@)).len() > 0,
        line as nat,
        exit as nat,
    );
    assert(bindings_view(out@) =~= bindings_view(before).push(head));
    if owned {
        nest(out, path, fields, line, exit);
    }
    assert(bindings_view(out@) =~= bindings_view(old(out)@) + planted_bindings(
        path.deep_view(),
        classification,
        path_opt_view(*alias_target),
        fields_view(fields@),
        line as nat,
        exit as nat,
    ));
}

impl SymbolTable {
    /// Replaces the bindings at and below `path` in the scope `o` by `planted`.
    fn install(&mut self, o: usize, path: &Vec<String>, planted: Vec<Binding>)
        requires
            old(self).wf(),
            old(self).has_scope(o),
            all_sound(bindings_view(planted@)),
        ensures
            final(self).wf(),
            final(self)@.scopes.len() == old(self)@.scopes.len(),
            final(self)@ == old(self)@.install(
                o as int,
                path.deep_view(),
                bindings_view(planted@),
            ),
    {
        let ghost news = bindings_view(planted@);
        let mut planted = planted;
        remove_below(&mut self.scopes[o].bindings, path);
        self.scopes[o].bindings.append(&mut planted);
        proof {
            let goal = old(self)@.install(o as int, path.deep_view(), news);
            assert(self@.scopes[o as int].entries =~= goal.scopes[o as int].entries);
            assert(self@.scopes =~= goal.scopes);
            let kept = without_below(old(self)@.scopes[o as int].entries, path.deep_view());
            lemma_without_below_sound(old(self)@.scopes[o as int].entries, path.deep_view());
            assert(all_sound(kept + news)) by {
                assert forall|j: int| 0 <= j < (kept + news).len() implies sound(
                    #[trigger] (kept + news)[j],
                ) by {
                    if j < kept.len() {
                        assert(sound(kept[j]));
                    } else {
                        assert(sound(news[j - kept.len()]));
                    }
                }
            }
            lemma_set_entries_wf(old(self)@, o as int, kept + news);
        }
    }

    /// Registers each of `planted` that is a reference with the binding it refers to.
    fn register_all(&mut self, scope: usize, planted: &Vec<Binding>) -> (done: Result<
        (),
        AdvisorError,
    >)
        requires
            old(self).wf(),
            old(self).has_scope(scope),
        ensures
            final(self).wf(),
            final(self)@.scopes.len() == old(self)@.scopes.len(),
            final(self)@ == old(self)@.register_all(scope as int, bindings_view(planted@), 0).0,
            done == outcome(
                old(self)@.register_all(scope as int, bindings_view(planted@), 0).1,
            ),
    {
        let ghost list = bindings_view(planted@);
        let mut k: usize = 0;
        while k < planted.len()
            invariant
                k <= planted.len(),
                self.wf(),
                self.has_scope(scope),
                self@.scopes.len() == old(self)@.scopes.len(),
                list == bindings_view(planted@),
                old(self)@.register_all(scope as int, list, 0) == self@.register_all(
                    scope as int,
                    list,
                    k as int,
                ),
            decreases planted.len() - k,
        {
            assert(list[k as int] == planted@[k as int]@);
            match &planted[k].alias_target {
                Some(target) => {
                    match self.register_alias(scope, target, &planted[k].path) {
                        Err(e) => {
                            return Err(e);
                        },
                        Ok(()) => {},
                    }
                },
                None => {},
            }
            k += 1;
        }
        Ok(())
    }

    /// Declares `path` in the scope `o`, seen from `scope`.
    fn plant(
        &mut self,
        scope: usize,
        o: usize,
        path: &Vec<String>,
        classification: Ty,
        alias_target: &Option<Vec<String>>,
        fields: &Vec<(String, Resolver)>,
        line: u32,
    ) -> (done: Result<(), AdvisorError>)
        requires
            old(self).wf(),
            old(self).has_scope(scope),
            old(self).has_scope(o),
            path.len() > 0,
        ensures
            final(self).wf(),
            final(self)@.scopes.len() == old(self)@.scopes.len(),
            final(self)@ == old(self)@.plant(
                scope as int,
                o as int,
                path.deep_view(),
                classification,
                path_opt_view(*alias_target),
                fields_view(fields@),
                line as nat,
            ).0,
            done == outcome(
                old(self)@.plant(
                    scope as int,
                    o as int,
                    path.deep_view(),
                    classification,
                    path_opt_view(*alias_target),
                    fields_view(fields@),
                    line as nat,
                ).1,
            ),
    {
        let exit = self.scopes[o].end;
        let mut planted: Vec<Binding> = Vec::new();
        plant_into(&mut planted, path, classification, alias_target, fields, line, exit);
        proof {
            lemma_planted_sound(
                path.deep_view(),
                classification,
                path_opt_view(*alias_target),
                fields_view(fields@),
                line as nat,
                exit as nat,
            );
            assert(bindings_view(planted@) =~= planted_bindings(
                path.deep_view(),
                classification,
                path_opt_view(*alias_target),
                fields_view(fields@),
                line as nat,
                exit as nat,
            ));
        }
        match self.register_all(scope, &planted) {
            Err(e) => Err(e),
            Ok(()) => {
                self.install(o, path, planted);
                Ok(())
            },
        }
    }

    /// Declares the binding `name` in `scope`, in place of an earlier one of that
    /// name in the same scope. The bindings that the declaration brings (its own and
    /// those of its fields) are first registered with the bindings they refer to; the
    /// first target that does not resolve ends the declaration with its error.
    pub fn declare(
        &mut self,
        scope: usize,
        name: &str,
        classification: Ty,
        alias_target: &Option<Vec<String>>,
        fields: &Vec<(String, Resolver)>,
        at_line: u32,
    ) -> (done: Result<(), AdvisorError>)
        requires
            old(self).wf(),
            old(self).has_scope(scope),
        ensures
            final(self).wf(),
            final(self)@.scopes.len() == old(self)@.scopes.len(),
            final(self)@ == old(self)@.declare(
                scope as int,
                name@,
                classification,
                path_opt_view(*alias_target),
                fields_view(fields@),
                at_line as nat,
            ).0,
            done == outcome(
                old(self)@.declare(
                    scope as int,
                    name@,
                    classification,
                    path_opt_view(*alias_target),
                    fields_view(fields@),
                    at_line as nat,
                ).1,
            ),
    {
        let path = root_path(name);
        self.plant(scope, scope, &path, classification, alias_target, fields, at_line)
    }

    /// Assigns to `path`, seen from `scope`: the binding that `path` resolves to is
    /// declared anew in the scope that holds it; a root name that is bound nowhere is
    /// declared in `scope`; any other path that does not resolve is an error.
    pub fn assign(
        &mut self,
        scope: usize,
        path: &Vec<String>,
        classification: Ty,
        alias_target: &Option<Vec<String>>,
        fields: &Vec<(String, Resolver)>,
        at_line: u32,
    ) -> (done: Result<(), AdvisorError>)
        requires
            old(self).wf(),
            old(self).has_scope(scope),
        ensures
            final(self).wf(),
            final(self)@.scopes.len() == old(self)@.scopes.len(),
            final(self)@ == old(self)@.assign(
                scope as int,
                path.deep_view(),
                classification,
                path_opt_view(*alias_target),
                fields_view(fields@),
                at_line as nat,
            ).0,
            done == outcome(
                old(self)@.assign(
                    scope as int,
                    path.deep_view(),
                    classification,
                    path_opt_view(*alias_target),
                    fields_view(fields@),
                    at_line as nat,
                ).1,
            ),
    {
        match self.locate(scope, path) {
            Ok(at) => self.plant(scope, at.0, path, classification, alias_target, fields, at_line),
            Err(e) => {
                if path.len() == 1 {
                    self.plant(scope, scope, path, classification, alias_target, fields, at_line)
                } else {
                    Err(e)
                }
            },
        }
    }

    /// Uses a resolved value on `line`: a named binding is consumed; the target of an
    /// unnamed reference is read; any other value leaves the table as it is.
    pub fn change_and_used(&mut self, scope: usize, resolver: &Resolver, line: u32) -> (done:
        Result<(), AdvisorError>)
        requires
            old(self).wf(),
            old(self).has_scope(scope),
        ensures
            final(self).wf(),
            final(self)@.scopes.len() == old(self)@.scopes.len(),
            match old(self)@.use_value(scope as int, resolver@, line as nat) {
                Ok(after) => done is Ok && final(self)@ == after,
                Err(e) => done == Err::<(), AdvisorError>(e) && final(self)@ == old(self)@,
            },
    {
        match &resolver.var_name {
            Some(path) => self.record_use(scope, path, line),
            None => match &resolver.ref_to {
                Some(target) => {
                    match resolver.var_type {
                        Some(Ty::Ref) => self.record_last_used(scope, target, line),
                        _ => Ok(()),
                    }
                },
                None => Ok(()),
            },
        }
    }
}

/// Opening a scope keeps the tree well formed.
pub proof fn lemma_open_scope_wf(before: TableModel, parent: int, start: nat, end: nat)
    requires
        before.wf(),
        before.has_scope(parent),
    ensures
        before.open_scope(parent, start, end).wf(),
{
    let after = before.open_scope(parent, start, end);
    let n = before.scopes.len() as int;
    assert(after.scopes[0].parent is None) by {
        assert(after.scopes[0].parent == before.scopes[0].parent);
    }
    assert forall|i: int|
        #![trigger after.scopes[i]]
        0 < i < after.scopes.len() implies match after.scopes[i].parent {
        Some(p) => 0 <= p < i && after.scopes[p].children.contains(i),
        None => false,
    } by {
        if i < n {
            assert(after.scopes[i].parent == before.scopes[i].parent);
            let p = before.scopes[i].parent->Some_0;
            let k = choose|k: int|
                0 <= k < before.scopes[p].children.len() && before.scopes[p].children[k] == i;
            assert(after.scopes[p].children[k] == i);
        } else {
            let last = before.scopes[parent].children.len() as int;
            assert(after.scopes[parent].children[last] == i);
        }
    }
    assert forall|i: int, k: int|
        #![trigger after.scopes[i].children[k]]
        after.has_scope(i) && 0 <= k < after.scopes[i].children.len() implies {
        &&& i < after.scopes[i].children[k] < after.scopes.len()
        &&& after.scopes[after.scopes[i].children[k]].parent == Some(i)
    } by {
        if i == parent {
            if k < before.scopes[i].children.len() {
                let c = before.scopes[i].children[k];
                assert(after.scopes[i].children[k] == c);
                assert(after.scopes[c].parent == before.scopes[c].parent);
            }
        } else if i < n {
            let c = before.scopes[i].children[k];
            assert(after.scopes[c].parent == before.scopes[c].parent);
        }
    }
}

} // verus!
