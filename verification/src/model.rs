use vstd::prelude::*;
use crate::builtin::Ty;
use crate::error::AdvisorError;
use crate::path::PathModel;
use crate::pre_record::CatalogModel;
use crate::resolve::Descriptor;

verus! {

/// One declared name, or one field of a record-shaped binding, within one scope.
pub struct BindingModel {
    /// The root name, then the fields that lead to this binding.
    pub path: PathModel,
    /// The line of the declaration.
    pub declared_at: nat,
    /// How the value behaves when used.
    pub classification: Ty,
    /// The line of the last use, where there was one.
    pub last_used_at: Option<nat>,
    /// Whether the value was moved out of the binding.
    pub moved: bool,
    /// For a reference, the path of the binding that it refers to.
    pub alias_target: Option<PathModel>,
    /// The paths of the bindings that refer to this one.
    pub aliased_by: Seq<PathModel>,
    /// The line on which the scope of the binding ends.
    pub scope_exit_at: nat,
    /// Whether the binding is record-shaped, and so has fields.
    pub record: bool,
}

/// One observed call of a cataloged function.
pub struct CallModel {
    /// The name of the function.
    pub function: Seq<char>,
    /// The path of the receiver, where the call is a method call on a binding.
    pub receiver: Option<PathModel>,
    /// For each argument, in order, the path of the binding that it names or refers
    /// to; absent for an argument that is no binding and refers to none.
    pub arguments: Seq<Option<PathModel>>,
    /// The line of the call.
    pub line: nat,
}

/// One lexical block.
pub struct ScopeModel {
    /// The enclosing scope; absent for the root.
    pub parent: Option<int>,
    /// The first line of the block.
    pub start: nat,
    /// The last line of the block.
    pub end: nat,
    /// The bindings of this scope. The fields of a record-shaped binding stand in the
    /// same list under their full paths. A path stands for the first binding that
    /// bears it.
    pub entries: Seq<BindingModel>,
    /// The calls observed in the block, in program order.
    pub calls: Seq<CallModel>,
    /// The blocks nested directly in this one, in program order.
    pub children: Seq<int>,
    /// Whether the walk gave the block up: what it holds then gives no advice.
    pub abandoned: bool,
}

/// The tree of scopes, each addressed by its place in `scopes`; the root is at 0.
pub struct TableModel {
    /// The scopes, in the order in which they were opened.
    pub scopes: Seq<ScopeModel>,
    /// The catalog of the program's declarations.
    pub catalog: CatalogModel,
}

/// Whether a binding is sound: it has a name, it is record-shaped only if it owns its
/// value, and no path is listed twice among those that refer to it.
pub open spec fn sound(b: BindingModel) -> bool {
    &&& b.path.len() > 0
    &&& b.record ==> b.classification == Ty::NonPrimitive
    &&& b.aliased_by.no_duplicates()
}

/// The paths that refer to a binding, after `aliasing` is registered with it.
pub open spec fn with_alias(aliased_by: Seq<PathModel>, aliasing: PathModel) -> Seq<PathModel> {
    if aliased_by.contains(aliasing) {
        aliased_by
    } else {
        aliased_by.push(aliasing)
    }
}

/// Registering a path keeps the list free of duplicates.
pub proof fn lemma_with_alias(aliased_by: Seq<PathModel>, aliasing: PathModel)
    requires
        aliased_by.no_duplicates(),
    ensures
        with_alias(aliased_by, aliasing).no_duplicates(),
        with_alias(aliased_by, aliasing).contains(aliasing),
{
    if !aliased_by.contains(aliasing) {
        let after = aliased_by.push(aliasing);
        assert(after[aliased_by.len() as int] == aliasing);
        assert forall|i: int, j: int|
            0 <= i < after.len() && 0 <= j < after.len() && i != j implies after[i]
            != after[j] by {
            if i < aliased_by.len() && j < aliased_by.len() {
                assert(aliased_by[i] != aliased_by[j]);
            } else if i < aliased_by.len() {
                assert(aliased_by.contains(aliased_by[i]));
            } else {
                assert(aliased_by.contains(aliased_by[j]));
            }
        }
    }
}

/// Whether every binding of a list is sound.
pub open spec fn all_sound(entries: Seq<BindingModel>) -> bool {
    forall|j: int| 0 <= j < entries.len() ==> sound(#[trigger] entries[j])
}

/// The paths of a list of bindings, in order.
pub open spec fn paths_of(entries: Seq<BindingModel>) -> Seq<PathModel> {
    entries.map_values(|b: BindingModel| b.path)
}

/// Where the binding of `path` stands in a list of bindings.
pub open spec fn find_entry(entries: Seq<BindingModel>, path: PathModel) -> Option<int> {
    paths_of(entries).index_of_first(path)
}

/// The binding with its last use widened to the end of the region `start..=end`,
/// where it was declared before the region and last used inside it.
pub open spec fn widen_binding(b: BindingModel, start: nat, end: nat) -> BindingModel {
    match b.last_used_at {
        Some(l) => if start <= l <= end && b.declared_at < start {
            BindingModel { last_used_at: Some(end), ..b }
        } else {
            b
        },
        None => b,
    }
}

/// The call with its line widened to the end of the region `start..=end`, where it
/// was made inside the region.
pub open spec fn widen_call(c: CallModel, start: nat, end: nat) -> CallModel {
    if start <= c.line <= end {
        CallModel { line: end, ..c }
    } else {
        c
    }
}

/// The bindings of a list that stand neither at `path` nor below it, in order.
pub open spec fn without_below(entries: Seq<BindingModel>, path: PathModel) -> Seq<BindingModel>
    decreases entries.len(),
{
    if entries.len() == 0 {
        Seq::empty()
    } else if path.is_prefix_of(entries.last().path) {
        without_below(entries.drop_last(), path)
    } else {
        without_below(entries.drop_last(), path).push(entries.last())
    }
}

/// A binding as it is when declared.
pub open spec fn fresh_binding(
    path: PathModel,
    classification: Ty,
    alias_target: Option<PathModel>,
    record: bool,
    line: nat,
    exit: nat,
) -> BindingModel {
    BindingModel {
        path,
        declared_at: line,
        classification,
        last_used_at: None,
        moved: false,
        alias_target,
        aliased_by: Seq::empty(),
        scope_exit_at: exit,
        record,
    }
}

/// The fields that a value of the given classification carries: those it was built
/// with if it is owned, none otherwise.
pub open spec fn carried(classification: Ty, fields: Seq<(Seq<char>, Descriptor)>) -> Seq<
    (Seq<char>, Descriptor),
> {
    if classification == Ty::NonPrimitive {
        fields
    } else {
        Seq::empty()
    }
}

/// The bindings of the fields below `prefix`, each followed by those of its own
/// fields. A field of unknown classification is left out, and its fields with it;
/// only an owned field has fields of its own.
pub open spec fn nested_bindings(
    prefix: PathModel,
    fields: Seq<(Seq<char>, Descriptor)>,
    line: nat,
    exit: nat,
) -> Seq<BindingModel>
    decreases fields, 0int,
{
    if fields.len() == 0 {
        Seq::empty()
    } else {
        let field = fields.last();
        nested_bindings(prefix, fields.drop_last(), line, exit) + (match field.1.classification {
            Some(ty) => planted_bindings(
                prefix.push(field.0),
                ty,
                field.1.alias_target,
                field.1.fields,
                line,
                exit,
            ),
            None => Seq::empty(),
        })
    }
}

/// The bindings that a declaration of `path` brings: its own, then those of its
/// fields if it is owned and record-shaped.
pub open spec fn planted_bindings(
    path: PathModel,
    classification: Ty,
    alias_target: Option<PathModel>,
    fields: Seq<(Seq<char>, Descriptor)>,
    line: nat,
    exit: nat,
) -> Seq<BindingModel>
    decreases fields, 1int,
{
    seq![
        fresh_binding(
            path,
            classification,
            alias_target,
            carried(classification, fields).len() > 0,
            line,
            exit,
        ),
    ] + (if classification == Ty::NonPrimitive {
        nested_bindings(path, fields, line, exit)
    } else {
        Seq::empty()
    })
}

impl TableModel {
    /// The tree that holds a root scope alone.
    pub open spec fn root(start: nat, end: nat, catalog: CatalogModel) -> TableModel {
        TableModel {
            scopes: seq![
                ScopeModel {
                    parent: None,
                    start,
                    end,
                    entries: Seq::empty(),
                    calls: Seq::empty(),
                    children: Seq::empty(),
                    abandoned: false,
                },
            ],
            catalog,
        }
    }

    /// Whether `s` addresses a scope of the tree.
    pub open spec fn has_scope(self, s: int) -> bool {
        0 <= s < self.scopes.len()
    }

    /// The tree is well formed: the root comes first and has no parent; every other
    /// scope comes after its parent and is listed among its parent's children; each
    /// scope's children come after it and name it as their parent; and every binding
    /// is sound.
    pub open spec fn wf(self) -> bool {
        &&& self.scopes.len() > 0
        &&& forall|i: int|
            0 <= i < self.scopes.len() ==> all_sound((#[trigger] self.scopes[i]).entries)
        &&& self.scopes[0].parent is None
        &&& forall|i: int| #![trigger self.scopes[i]]
            0 < i < self.scopes.len() ==> match self.scopes[i].parent {
                Some(p) => 0 <= p < i && self.scopes[p].children.contains(i),
                None => false,
            }
        &&& forall|i: int, k: int| #![trigger self.scopes[i].children[k]]
            self.has_scope(i) && 0 <= k < self.scopes[i].children.len() ==> {
                &&& i < self.scopes[i].children[k] < self.scopes.len()
                &&& self.scopes[self.scopes[i].children[k]].parent == Some(i)
            }
    }

    /// The nearest scope, from `s` outwards, that binds the root name `name`.
    pub open spec fn owner(self, s: int, name: Seq<char>) -> Option<int>
        decreases s,
    {
        if !self.has_scope(s) {
            None
        } else if find_entry(self.scopes[s].entries, seq![name]) is Some {
            Some(s)
        } else {
            match self.scopes[s].parent {
                Some(p) => if 0 <= p < s {
                    self.owner(p, name)
                } else {
                    None
                },
                None => None,
            }
        }
    }

    /// Resolves `path` from the scope `s`: the scope that owns its root name, and the
    /// place of its binding there.
    pub open spec fn locate(self, s: int, path: PathModel) -> Result<(int, int), AdvisorError> {
        if path.len() == 0 {
            Err(AdvisorError::PathNotFound)
        } else {
            match self.owner(s, path[0]) {
                None => Err(AdvisorError::PathNotFound),
                Some(o) => match find_entry(self.scopes[o].entries, path) {
                    Some(i) => Ok((o, i)),
                    None => Err(AdvisorError::UnresolvedField),
                },
            }
        }
    }

    /// The binding that `path` resolves to from the scope `s`.
    pub open spec fn resolve(self, s: int, path: PathModel) -> Result<BindingModel, AdvisorError> {
        match self.locate(s, path) {
            Ok(at) => Ok(self.scopes[at.0].entries[at.1]),
            Err(e) => Err(e),
        }
    }

    /// The tree with the binding at place `i` of scope `o` replaced by `b`.
    pub open spec fn set_binding(self, o: int, i: int, b: BindingModel) -> TableModel {
        TableModel {
            scopes: self.scopes.update(
                o,
                ScopeModel { entries: self.scopes[o].entries.update(i, b), ..self.scopes[o] },
            ),
            ..self
        }
    }

    /// The tree with the bindings of scope `o` replaced by `entries`.
    pub open spec fn set_entries(self, o: int, entries: Seq<BindingModel>) -> TableModel {
        TableModel {
            scopes: self.scopes.update(o, ScopeModel { entries, ..self.scopes[o] }),
            ..self
        }
    }

    /// The tree with a new scope below `parent`; the new scope is the last of `scopes`.
    pub open spec fn open_scope(self, parent: int, start: nat, end: nat) -> TableModel {
        TableModel {
            scopes: self.scopes.update(
                parent,
                ScopeModel {
                    children: self.scopes[parent].children.push(self.scopes.len() as int),
                    ..self.scopes[parent]
                },
            ).push(
                ScopeModel {
                    parent: Some(parent),
                    start,
                    end,
                    entries: Seq::empty(),
                    calls: Seq::empty(),
                    children: Seq::empty(),
                    abandoned: false,
                },
            ),
            ..self
        }
    }

    /// A value at `path` is consumed on `line`: an owned binding is moved, and may not
    /// have been moved before; a reference is used; a primitive is left as it is.
    pub open spec fn record_use(self, s: int, path: PathModel, line: nat) -> Result<
        TableModel,
        AdvisorError,
    > {
        match self.locate(s, path) {
            Err(e) => Err(e),
            Ok(at) => {
                let b = self.scopes[at.0].entries[at.1];
                match b.classification {
                    Ty::NonPrimitive => if b.moved {
                        Err(AdvisorError::UseAfterMove)
                    } else {
                        Ok(
                            self.set_binding(
                                at.0,
                                at.1,
                                BindingModel { moved: true, last_used_at: Some(line), ..b },
                            ),
                        )
                    },
                    Ty::Ref => Ok(
                        self.set_binding(
                            at.0,
                            at.1,
                            BindingModel { last_used_at: Some(line), ..b },
                        ),
                    ),
                    Ty::Primitive => Ok(self),
                }
            },
        }
    }

    /// The binding at `path` is read on `line` without being consumed; it may not
    /// have been moved before.
    pub open spec fn record_last_used(self, s: int, path: PathModel, line: nat) -> Result<
        TableModel,
        AdvisorError,
    > {
        match self.locate(s, path) {
            Err(e) => Err(e),
            Ok(at) => {
                let b = self.scopes[at.0].entries[at.1];
                if b.moved {
                    Err(AdvisorError::UseAfterMove)
                } else {
                    Ok(
                        self.set_binding(
                            at.0,
                            at.1,
                            BindingModel { last_used_at: Some(line), ..b },
                        ),
                    )
                }
            },
        }
    }

    /// The binding at `target` is now referred to by the binding at `aliasing`; a path
    /// that is registered already is not registered again.
    pub open spec fn register_alias(self, s: int, target: PathModel, aliasing: PathModel) -> Result<
        TableModel,
        AdvisorError,
    > {
        match self.locate(s, target) {
            Err(e) => Err(e),
            Ok(at) => {
                let b = self.scopes[at.0].entries[at.1];
                Ok(
                    self.set_binding(
                        at.0,
                        at.1,
                        BindingModel { aliased_by: with_alias(b.aliased_by, aliasing), ..b },
                    ),
                )
            },
        }
    }

    /// The tree with one more call observed in the scope `s`.
    pub open spec fn record_call(self, s: int, call: CallModel) -> TableModel {
        TableModel {
            scopes: self.scopes.update(
                s,
                ScopeModel { calls: self.scopes[s].calls.push(call), ..self.scopes[s] },
            ),
            ..self
        }
    }

    /// Whether `x` is among the `depth` nearest scopes that enclose a region of the
    /// scope `s`: `s` itself, its parent, and so on outwards.
    pub open spec fn in_chain(self, s: int, x: int, depth: nat) -> bool
        decreases depth,
    {
        if depth == 0 || !self.has_scope(s) {
            false
        } else if x == s {
            true
        } else {
            match self.scopes[s].parent {
                Some(p) => self.in_chain(p, x, (depth - 1) as nat),
                None => false,
            }
        }
    }

    /// Whether the scope `x` is `s` or lies inside it.
    pub open spec fn within(self, x: int, s: int) -> bool
        decreases x,
    {
        if !self.has_scope(x) {
            false
        } else if x == s {
            true
        } else {
            match self.scopes[x].parent {
                Some(p) => if 0 <= p < x {
                    self.within(p, s)
                } else {
                    false
                },
                None => false,
            }
        }
    }

    /// A region `start..=end` of the scope `s` has been walked: each binding of the
    /// `depth` nearest enclosing scopes that was declared before the region and last
    /// used inside it counts as used until the region's end.
    pub open spec fn widen_last_use(self, s: int, start: nat, end: nat, depth: nat) -> TableModel {
        TableModel {
            scopes: Seq::new(
                self.scopes.len(),
                |x: int|
                    if self.in_chain(s, x, depth) {
                        ScopeModel {
                            entries: self.scopes[x].entries.map_values(
                                |b: BindingModel| widen_binding(b, start, end),
                            ),
                            ..self.scopes[x]
                        }
                    } else {
                        self.scopes[x]
                    },
            ),
            ..self
        }
    }

    /// Whether the calls recorded in the scope `x` are widened with a region of the
    /// scope `s`: those of the `depth` nearest enclosing scopes, and those of the
    /// scopes opened inside `s`.
    pub open spec fn call_scope(self, s: int, x: int, depth: nat) -> bool {
        self.in_chain(s, x, depth) || self.within(x, s)
    }

    /// A region `start..=end` of the scope `s` has been walked: each call made inside
    /// it counts as made at the region's end.
    pub open spec fn widen_call_sites(
        self,
        s: int,
        start: nat,
        end: nat,
        depth: nat,
    ) -> TableModel {
        TableModel {
            scopes: Seq::new(
                self.scopes.len(),
                |x: int|
                    if self.call_scope(s, x, depth) {
                        ScopeModel {
                            calls: self.scopes[x].calls.map_values(
                                |c: CallModel| widen_call(c, start, end),
                            ),
                            ..self.scopes[x]
                        }
                    } else {
                        self.scopes[x]
                    },
            ),
            ..self
        }
    }

    /// Whether no scope of the tree was given up.
    pub open spec fn nothing_given_up(self) -> bool {
        forall|x: int| 0 <= x < self.scopes.len() ==> !(#[trigger] self.scopes[x]).abandoned
    }

    /// The tree in which every scope that was opened since the tree held `first`
    /// scopes is given up: the scopes keep what they hold and their place in the tree,
    /// and give no advice any more.
    pub open spec fn abandon_since(self, first: int) -> TableModel {
        TableModel {
            scopes: Seq::new(
                self.scopes.len(),
                |x: int|
                    if x >= first {
                        ScopeModel { abandoned: true, ..self.scopes[x] }
                    } else {
                        self.scopes[x]
                    },
            ),
            ..self
        }
    }

    /// The tree in which the bindings at and below `path` in the scope `o` are
    /// replaced by `planted`, which come last.
    pub open spec fn install(
        self,
        o: int,
        path: PathModel,
        planted: Seq<BindingModel>,
    ) -> TableModel {
        self.set_entries(o, without_below(self.scopes[o].entries, path) + planted)
    }

    /// Registers, from the scope `s`, each of `planted[k..]` that is a reference with
    /// the binding it refers to. Stops at the first target that does not resolve.
    pub open spec fn register_all(self, s: int, planted: Seq<BindingModel>, k: int) -> (
        TableModel,
        Option<AdvisorError>,
    )
        decreases planted.len() - k,
    {
        if k < 0 || k >= planted.len() {
            (self, None)
        } else {
            match planted[k].alias_target {
                None => self.register_all(s, planted, k + 1),
                Some(target) => match self.register_alias(s, target, planted[k].path) {
                    Err(e) => (self, Some(e)),
                    Ok(next) => next.register_all(s, planted, k + 1),
                },
            }
        }
    }

    /// Declares `path` in the scope `o`, seen from the scope `s`: the bindings that
    /// the declaration brings are registered with the bindings they refer to, and then
    /// take the place of what `path` held in `o`.
    pub open spec fn plant(
        self,
        s: int,
        o: int,
        path: PathModel,
        classification: Ty,
        alias_target: Option<PathModel>,
        fields: Seq<(Seq<char>, Descriptor)>,
        line: nat,
    ) -> (TableModel, Option<AdvisorError>) {
        let planted = planted_bindings(
            path,
            classification,
            alias_target,
            fields,
            line,
            self.scopes[o].end,
        );
        let registered = self.register_all(s, planted, 0);
        match registered.1 {
            Some(e) => registered,
            None => (registered.0.install(o, path, planted), None),
        }
    }

    /// Declares `name` in the scope `s`, in place of what the name held there. Gives
    /// the tree after it, and the error, if any, that ended the declaration early.
    pub open spec fn declare(
        self,
        s: int,
        name: Seq<char>,
        classification: Ty,
        alias_target: Option<PathModel>,
        fields: Seq<(Seq<char>, Descriptor)>,
        line: nat,
    ) -> (TableModel, Option<AdvisorError>) {
        self.plant(s, s, seq![name], classification, alias_target, fields, line)
    }

    /// Assigns to `path`, seen from the scope `s`: the binding that `path` resolves to
    /// is declared anew where it stands; a root name that is bound nowhere is declared
    /// in `s`; any other path that does not resolve is an error.
    pub open spec fn assign(
        self,
        s: int,
        path: PathModel,
        classification: Ty,
        alias_target: Option<PathModel>,
        fields: Seq<(Seq<char>, Descriptor)>,
        line: nat,
    ) -> (TableModel, Option<AdvisorError>) {
        match self.locate(s, path) {
            Ok(at) => self.plant(s, at.0, path, classification, alias_target, fields, line),
            Err(e) => if path.len() == 1 {
                self.plant(s, s, path, classification, alias_target, fields, line)
            } else {
                (self, Some(e))
            },
        }
    }

    /// What using a resolved value on `line` does: a named binding is consumed; the
    /// target of an unnamed reference is read.
    pub open spec fn use_value(self, s: int, d: Descriptor, line: nat) -> Result<
        TableModel,
        AdvisorError,
    > {
        match d.identity {
            Some(path) => self.record_use(s, path, line),
            None => match d.alias_target {
                Some(target) => if d.classification == Some(Ty::Ref) {
                    self.record_last_used(s, target, line)
                } else {
                    Ok(self)
                },
                None => Ok(self),
            },
        }
    }
}

/// The scope that owns a name is a scope of the tree.
pub proof fn lemma_owner_in_range(t: TableModel, s: int, name: Seq<char>)
    ensures
        t.owner(s, name) matches Some(o) ==> t.has_scope(o) && o <= s,
    decreases s,
{
    if t.has_scope(s) && !(find_entry(t.scopes[s].entries, seq![name]) is Some) {
        match t.scopes[s].parent {
            Some(p) => if 0 <= p < s {
                lemma_owner_in_range(t, p, name);
            },
            None => {},
        }
    }
}

/// What is left of a list of sound bindings is sound.
pub proof fn lemma_without_below_sound(entries: Seq<BindingModel>, path: PathModel)
    requires
        all_sound(entries),
    ensures
        all_sound(without_below(entries, path)),
    decreases entries.len(),
{
    if entries.len() > 0 {
        assert(all_sound(entries.drop_last())) by {
            assert forall|j: int| 0 <= j < entries.drop_last().len() implies sound(
                #[trigger] entries.drop_last()[j],
            ) by {
                assert(sound(entries[j]));
            }
        }
        lemma_without_below_sound(entries.drop_last(), path);
        assert(sound(entries[entries.len() - 1]));
    }
}

/// The bindings that a declaration brings are sound.
pub proof fn lemma_planted_sound(
    path: PathModel,
    classification: Ty,
    alias_target: Option<PathModel>,
    fields: Seq<(Seq<char>, Descriptor)>,
    line: nat,
    exit: nat,
)
    requires
        path.len() > 0,
    ensures
        all_sound(planted_bindings(path, classification, alias_target, fields, line, exit)),
    decreases fields, 1int,
{
    if classification == Ty::NonPrimitive {
        lemma_nested_sound(path, fields, line, exit);
    }
}

/// The bindings of the fields of a declaration are sound.
pub proof fn lemma_nested_sound(
    prefix: PathModel,
    fields: Seq<(Seq<char>, Descriptor)>,
    line: nat,
    exit: nat,
)
    ensures
        all_sound(nested_bindings(prefix, fields, line, exit)),
    decreases fields, 0int,
{
    if fields.len() > 0 {
        let field = fields.last();
        lemma_nested_sound(prefix, fields.drop_last(), line, exit);
        match field.1.classification {
            Some(ty) => {
                lemma_planted_sound(
                    prefix.push(field.0),
                    ty,
                    field.1.alias_target,
                    field.1.fields,
                    line,
                    exit,
                );
            },
            None => {},
        }
    }
}

} // verus!
