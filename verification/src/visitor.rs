use vstd::prelude::*;
use crate::assoc::assoc_get;
use crate::error::AdvisorError;
use crate::model::CallModel;
use crate::model::TableModel;
use crate::path::path_opt_view;
use crate::path::root_path;
use crate::path::PathModel;
use crate::resolve::is_some_wrapper;
use crate::resolve::resolve_expr;
use crate::resolve::some_wrapper;
use crate::resolve::Resolver;
use crate::symbol_table::arguments_view;
use crate::resolve::resolve_spec;
use crate::resolve::Descriptor;
use crate::symbol_table::outcome;
use crate::symbol_table::SymbolTable;
use crate::syntax_tree::Expr;
use crate::syntax_tree::Pattern;
use crate::syntax_tree::Stmt;

verus! {

/// The path under which an argument is recorded with a call: the binding that the
/// argument names, else the binding that it refers to.
pub open spec fn argument_path(d: Descriptor) -> Option<PathModel> {
    match d.identity {
        Some(path) => Some(path),
        None => d.alias_target,
    }
}

/// Whether the walk into the expression uses, at one of its nodes, the value that the
/// expression resolves to: an operation that is no comparison uses its operands, the
/// wrapper of a present optional value uses its argument, and an index expression
/// leads to what is indexed. What holds such an expression leaves the use to that
/// node, so that the value is used once.
pub open spec fn uses_own_value(ex: Expr) -> bool
    decreases ex,
{
    match ex {
        Expr::Binary(comparison, _, _) => !comparison,
        Expr::Call(callee, args) => match *callee {
            Expr::Path(path) => is_some_wrapper(path.deep_view(), args@.len() as int),
            _ => false,
        },
        Expr::Index(indexed) => uses_own_value(*indexed),
        _ => false,
    }
}

/// The name under which a call of a free function is looked up: the callee's name
/// where the callee is a path of a single name, else the empty name.
pub open spec fn callee_name(callee: Expr) -> Seq<char> {
    match callee {
        Expr::Path(path) => if path@.len() == 1 {
            path@[0]@
        } else {
            Seq::empty()
        },
        _ => Seq::empty(),
    }
}

/// The outcome of a step of the traversal that asks to walk on into the node.
pub open spec fn walk_on(step: (TableModel, Option<AdvisorError>)) -> (
    TableModel,
    Result<bool, AdvisorError>,
) {
    match step.1 {
        Some(e) => (step.0, Err(e)),
        None => (step.0, Ok(true)),
    }
}

impl TableModel {
    /// The value of the expression `ex`, which resolves to `d`, is used on `line` by
    /// what holds the expression, unless the walk into the expression uses it.
    pub open spec fn use_once(self, s: int, ex: Expr, d: Descriptor, line: nat) -> Result<
        TableModel,
        AdvisorError,
    > {
        if uses_own_value(ex) {
            Ok(self)
        } else {
            self.use_value(s, d, line)
        }
    }

    /// The expression `ex` is evaluated and its value used on `line`.
    pub open spec fn use_expr(self, s: int, ex: Expr, line: nat) -> Result<
        TableModel,
        AdvisorError,
    > {
        match resolve_spec(self, s, ex) {
            Ok(d) => self.use_once(s, ex, d, line),
            Err(e) => Err(e),
        }
    }

    /// The arguments of a call are evaluated and used in order, each on `line`. Gives,
    /// for each argument, the path under which it is recorded, if it has one; or the
    /// first error, with the tree as it stands then.
    pub open spec fn observe_args(self, s: int, args: Seq<Expr>, line: nat) -> (
        TableModel,
        Result<Seq<Option<PathModel>>, AdvisorError>,
    )
        decreases args.len(),
    {
        if args.len() == 0 {
            (self, Ok(Seq::empty()))
        } else {
            let before = self.observe_args(s, args.drop_last(), line);
            match before.1 {
                Err(e) => before,
                Ok(paths) => match resolve_spec(before.0, s, args.last()) {
                    Err(e) => (before.0, Err(e)),
                    Ok(d) => match before.0.use_once(s, args.last(), d, line) {
                        Err(e) => (before.0, Err(e)),
                        Ok(after) => (after, Ok(paths.push(argument_path(d)))),
                    },
                },
            }
        }
    }

    /// A call of `name` is observed on `line`: its arguments are used, and the call is
    /// recorded, with one place for each argument, if the catalog holds the function.
    pub open spec fn observe_call(
        self,
        s: int,
        name: Seq<char>,
        receiver: Option<PathModel>,
        args: Seq<Expr>,
        line: nat,
    ) -> (TableModel, Option<AdvisorError>) {
        let seen = self.observe_args(s, args, line);
        match seen.1 {
            Err(e) => (seen.0, Some(e)),
            Ok(paths) => if assoc_get(self.catalog.funs, name) is Some {
                (
                    seen.0.record_call(
                        s,
                        CallModel { function: name, receiver, arguments: paths, line },
                    ),
                    None,
                )
            } else {
                (seen.0, None)
            },
        }
    }

    /// A `let` is walked: its initializer is evaluated and, unless the walk into it
    /// uses its value, used on `line`; if the value's classification is known and the
    /// pattern is a single name, the name is declared.
    pub open spec fn visit_local(self, s: int, pattern: Pattern, init: Expr, line: nat) -> (
        TableModel,
        Option<AdvisorError>,
    ) {
        match resolve_spec(self, s, init) {
            Err(e) => (self, Some(e)),
            Ok(d) => match self.use_once(s, init, d, line) {
                Err(e) => (self, Some(e)),
                Ok(used) => match (d.classification, pattern) {
                    (Some(ty), Pattern::Ident(name, at)) => used.declare(
                        s,
                        name@,
                        ty,
                        d.alias_target,
                        d.fields,
                        at as nat,
                    ),
                    _ => (used, None),
                },
            },
        }
    }

    /// A statement is walked.
    pub open spec fn visit_stmt(self, s: int, stmt: Stmt) -> (TableModel, Option<AdvisorError>) {
        match stmt {
            Stmt::Local(pattern, init, line) => self.visit_local(s, pattern, init, line as nat),
            Stmt::Other => (self, None),
        }
    }

    /// An assignment is walked: both sides are evaluated, the value is used on `hi`
    /// unless the walk into it uses it, and a target that is a binding, given a value
    /// of known classification, is assigned on `lo`.
    pub open spec fn visit_assign(self, s: int, target: Expr, value: Expr, lo: nat, hi: nat) -> (
        TableModel,
        Option<AdvisorError>,
    ) {
        match resolve_spec(self, s, target) {
            Err(e) => (self, Some(e)),
            Ok(td) => match resolve_spec(self, s, value) {
                Err(e) => (self, Some(e)),
                Ok(vd) => match self.use_once(s, value, vd, hi) {
                    Err(e) => (self, Some(e)),
                    Ok(used) => match (td.identity, vd.classification) {
                        (Some(path), Some(ty)) => used.assign(
                            s,
                            path,
                            ty,
                            vd.alias_target,
                            vd.fields,
                            lo,
                        ),
                        _ => (used, None),
                    },
                },
            },
        }
    }

    /// The operands of a binary operation are walked: both are evaluated, then both
    /// are used on `line`, the left one first. The walk does not go on into them.
    pub open spec fn visit_operands(self, s: int, left: Expr, right: Expr, line: nat) -> (
        TableModel,
        Option<AdvisorError>,
    ) {
        match resolve_spec(self, s, left) {
            Err(e) => (self, Some(e)),
            Ok(ld) => match resolve_spec(self, s, right) {
                Err(e) => (self, Some(e)),
                Ok(rd) => match self.use_value(s, ld, line) {
                    Err(e) => (self, Some(e)),
                    Ok(first) => match first.use_value(s, rd, line) {
                        Err(e) => (first, Some(e)),
                        Ok(second) => (second, None),
                    },
                },
            }
        }
    }

    /// The expression `ex`, which spans the lines `lo..=hi`, is entered. Gives the
    /// tree after the node's own effects, and whether the walk goes on into the node;
    /// on an error, the error and the tree as it stands then.
    pub open spec fn visit_expr(self, s: int, ex: Expr, lo: nat, hi: nat) -> (
        TableModel,
        Result<bool, AdvisorError>,
    ) {
        match ex {
            Expr::Match(scrutinee) => match self.use_expr(s, *scrutinee, hi) {
                Ok(used) => (used, Ok(true)),
                Err(e) => (self, Err(e)),
            },
            Expr::MethodCall(name, receiver, args) => match resolve_spec(self, s, *receiver) {
                Ok(d) => walk_on(self.observe_call(s, name@, d.identity, args@, hi)),
                Err(e) => (self, Err(e)),
            },
            Expr::Call(callee, args) => walk_on(
                self.observe_call(s, callee_name(*callee), None, args@, hi),
            ),
            Expr::Assign(target, value) => walk_on(self.visit_assign(s, *target, *value, lo, hi)),
            Expr::Binary(comparison, left, right) => if comparison {
                (self, Ok(false))
            } else {
                match self.visit_operands(s, *left, *right, hi) {
                    (after, Some(e)) => (after, Err(e)),
                    (after, None) => (after, Ok(false)),
                }
            },
            _ => (self, Ok(true)),
        }
    }

    /// The expression `ex`, which spans the lines `lo..=hi`, is left: a conditional
    /// or a `while` widens the two nearest enclosing scopes to its end, a `loop` the
    /// nearest one.
    pub open spec fn leave_expr(self, s: int, ex: Expr, lo: nat, hi: nat) -> TableModel {
        match ex {
            Expr::If(_) => self.widen_last_use(s, lo, hi, 2).widen_call_sites(s, lo, hi, 2),
            Expr::While => self.widen_last_use(s, lo, hi, 2).widen_call_sites(s, lo, hi, 2),
            Expr::Loop => self.widen_call_sites(s, lo, hi, 1).widen_last_use(s, lo, hi, 1),
            _ => self,
        }
    }

    /// The names that stand in a macro invocation are read on `line`, in order. A name
    /// that is no binding in scope is passed over.
    pub open spec fn visit_mac(self, s: int, idents: Seq<Seq<char>>, line: nat) -> (
        TableModel,
        Option<AdvisorError>,
    )
        decreases idents.len(),
    {
        if idents.len() == 0 {
            (self, None)
        } else {
            let before = self.visit_mac(s, idents.drop_last(), line);
            match before.1 {
                Some(e) => before,
                None => match before.0.record_last_used(s, seq![idents.last()], line) {
                    Ok(after) => (after, None),
                    Err(e) => if e == AdvisorError::UseAfterMove {
                        (before.0, Some(e))
                    } else {
                        before
                    },
                },
            }
        }
    }
}

/// An error among the first `k` arguments of a call is the error of them all.
pub proof fn lemma_observe_args_error(t: TableModel, s: int, args: Seq<Expr>, line: nat, k: int)
    requires
        0 <= k <= args.len(),
        t.observe_args(s, args.take(k), line).1 is Err,
    ensures
        t.observe_args(s, args, line) == t.observe_args(s, args.take(k), line),
    decreases args.len() - k,
{
    if k < args.len() {
        assert(args.take(k + 1).drop_last() =~= args.take(k));
        lemma_observe_args_error(t, s, args, line, k + 1);
    } else {
        assert(args.take(k) =~= args);
    }
}

/// An error among the first `k` names of a macro invocation is the error of them all.
pub proof fn lemma_visit_mac_error(t: TableModel, s: int, idents: Seq<Seq<char>>, line: nat, k: int)
    requires
        0 <= k <= idents.len(),
        t.visit_mac(s, idents.take(k), line).1 is Some,
    ensures
        t.visit_mac(s, idents, line) == t.visit_mac(s, idents.take(k), line),
    decreases idents.len() - k,
{
    if k < idents.len() {
        assert(idents.take(k + 1).drop_last() =~= idents.take(k));
        lemma_visit_mac_error(t, s, idents, line, k + 1);
    } else {
        assert(idents.take(k) =~= idents);
    }
}

/// Whether the walk into the expression uses the value that the expression resolves to.
pub fn walk_uses_value(ex: &Expr) -> (yes: bool)
    ensures
        yes == uses_own_value(*ex),
    decreases ex,
{
    match ex {
        Expr::Binary(comparison, _, _) => !*comparison,
        Expr::Call(callee, args) => match &**callee {
            Expr::Path(path) => some_wrapper(path, args.len()),
            _ => false,
        },
        Expr::Index(indexed) => walk_uses_value(indexed),
        _ => false,
    }
}

/// The name under which a call of a free function is looked up.
fn name_of_callee(callee: &Expr) -> (name: String)
    ensures
        name@ == callee_name(*callee),
{
    match callee {
        Expr::Path(path) => {
            if path.len() == 1 {
                path[0].clone()
            } else {
                String::new()
            }
        },
        _ => String::new(),
    }
}

impl SymbolTable {
    /// Uses, on `line`, the value of the expression `ex`, which resolves to `resolver`,
    /// unless the walk into the expression uses it.
    pub fn use_once(&mut self, scope: usize, ex: &Expr, resolver: &Resolver, line: u32) -> (done:
        Result<(), AdvisorError>)
        requires
            old(self).wf(),
            old(self).has_scope(scope),
        ensures
            final(self).wf(),
            final(self)@.scopes.len() == old(self)@.scopes.len(),
            final(self)@.catalog == old(self)@.catalog,
            match old(self)@.use_once(scope as int, *ex, resolver@, line as nat) {
                Ok(after) => done is Ok && final(self)@ == after,
                Err(e) => done == Err::<(), AdvisorError>(e) && final(self)@ == old(self)@,
            },
    {
        if walk_uses_value(ex) {
            Ok(())
        } else {
            self.change_and_used(scope, resolver, line)
        }
    }

    /// Evaluates the arguments of a call in order and uses each on `line`.
    fn observe_args(&mut self, scope: usize, args: &Vec<Expr>, line: u32) -> (seen: Result<
        Vec<Option<Vec<String>>>,
        AdvisorError,
    >)
        requires
            old(self).wf(),
            old(self).has_scope(scope),
        ensures
            final(self).wf(),
            final(self)@.scopes.len() == old(self)@.scopes.len(),
            final(self)@.catalog == old(self)@.catalog,
            final(self)@ == old(self)@.observe_args(scope as int, args@, line as nat).0,
            match old(self)@.observe_args(scope as int, args@, line as nat).1 {
                Ok(paths) => seen matches Ok(v) && arguments_view(v@) == paths,
                Err(e) => seen matches Err(x) && x == e,
            },
    {
        let mut paths: Vec<Option<Vec<String>>> = Vec::new();
        let mut i: usize = 0;
        proof {
            assert(args@.take(0) =~= Seq::empty());
            assert(arguments_view(paths@) =~= Seq::empty());
        }
        while i < args.len()
            invariant
                i <= args.len(),
                self.wf(),
                self.has_scope(scope),
                self@.scopes.len() == old(self)@.scopes.len(),
                self@.catalog == old(self)@.catalog,
                old(self)@.observe_args(scope as int, args@.take(i as int), line as nat) == (
                    self@,
                    Ok::<Seq<Option<PathModel>>, AdvisorError>(arguments_view(paths@)),
                ),
            decreases args.len() - i,
        {
            proof {
                assert(args@.take(i as int + 1).drop_last() =~= args@.take(i as int));
            }
            let ghost before = arguments_view(paths@);
            match resolve_expr(&args[i], self, scope) {
                Err(e) => {
                    proof {
                        lemma_observe_args_error(
                            old(self)@,
                            scope as int,
                            args@,
                            line as nat,
                            i as int + 1,
                        );
                    }
                    return Err(e);
                },
                Ok(r) => {
                    match self.use_once(scope, &args[i], &r, line) {
                        Err(e) => {
                            proof {
                                lemma_observe_args_error(
                                    old(self)@,
                                    scope as int,
                                    args@,
                                    line as nat,
                                    i as int + 1,
                                );
                            }
                            return Err(e);
                        },
                        Ok(()) => {
                            let path = match r.var_name {
                                Some(path) => Some(path),
                                None => r.ref_to,
                            };
                            assert(path_opt_view(path) == argument_path(r@));
                            paths.push(path);
                            assert(arguments_view(paths@) =~= before.push(path_opt_view(path)));
                        },
                    }
                },
            }
            i += 1;
        }
        assert(args@.take(args.len() as int) =~= args@);
        Ok(paths)
    }

    /// Observes a call of `name` on `line`: the arguments are used, and the call is
    /// recorded if the catalog holds the function.
    pub fn observe_call(
        &mut self,
        scope: usize,
        name: String,
        receiver: Option<Vec<String>>,
        args: &Vec<Expr>,
        line: u32,
    ) -> (done: Result<(), AdvisorError>)
        requires
            old(self).wf(),
            old(self).has_scope(scope),
        ensures
            final(self).wf(),
            final(self)@.scopes.len() == old(self)@.scopes.len(),
            final(self)@ == old(self)@.observe_call(
                scope as int,
                name@,
                path_opt_view(receiver),
                args@,
                line as nat,
            ).0,
            done == outcome(
                old(self)@.observe_call(
                    scope as int,
                    name@,
                    path_opt_view(receiver),
                    args@,
                    line as nat,
                ).1,
            ),
    {
        match self.observe_args(scope, args, line) {
            Err(e) => Err(e),
            Ok(paths) => {
                if self.records().find_fn(name.as_str()).is_some() {
                    self.record_call(scope, name, receiver, paths, line);
                }
                Ok(())
            },
        }
    }

    /// Walks a statement: a `let` uses its initializer and declares its name.
    pub fn visit_stmt(&mut self, scope: usize, stmt: &Stmt) -> (done: Result<(), AdvisorError>)
        requires
            old(self).wf(),
            old(self).has_scope(scope),
        ensures
            final(self).wf(),
            final(self)@.scopes.len() == old(self)@.scopes.len(),
            final(self)@ == old(self)@.visit_stmt(scope as int, *stmt).0,
            done == outcome(old(self)@.visit_stmt(scope as int, *stmt).1),
    {
        match stmt {
            Stmt::Local(pattern, init, line) => {
                match resolve_expr(init, self, scope) {
                    Err(e) => Err(e),
                    Ok(r) => match self.use_once(scope, init, &r, *line) {
                        Err(e) => Err(e),
                        Ok(()) => match (r.var_type, pattern) {
                            (Some(ty), Pattern::Ident(name, at)) => self.declare(
                                scope,
                                name.as_str(),
                                ty,
                                &r.ref_to,
                                &r.structure,
                                *at,
                            ),
                            _ => Ok(()),
                        },
                    },
                }
            },
            Stmt::Other => Ok(()),
        }
    }

    /// Walks an assignment.
    fn visit_assign(
        &mut self,
        scope: usize,
        target: &Expr,
        value: &Expr,
        lo: u32,
        hi: u32,
    ) -> (done: Result<(), AdvisorError>)
        requires
            old(self).wf(),
            old(self).has_scope(scope),
        ensures
            final(self).wf(),
            final(self)@.scopes.len() == old(self)@.scopes.len(),
            final(self)@ == old(self)@.visit_assign(
                scope as int,
                *target,
                *value,
                lo as nat,
                hi as nat,
            ).0,
            done == outcome(
                old(self)@.visit_assign(scope as int, *target, *value, lo as nat, hi as nat).1,
            ),
    {
        match resolve_expr(target, self, scope) {
            Err(e) => Err(e),
            Ok(t) => match resolve_expr(value, self, scope) {
                Err(e) => Err(e),
                Ok(v) => match self.use_once(scope, value, &v, hi) {
                    Err(e) => Err(e),
                    Ok(()) => match (&t.var_name, v.var_type) {
                        (Some(path), Some(ty)) => self.assign(
                            scope,
                            path,
                            ty,
                            &v.ref_to,
                            &v.structure,
                            lo,
                        ),
                        _ => Ok(()),
                    },
                },
            },
        }
    }

    /// Walks the operands of a binary operation.
    fn visit_operands(&mut self, scope: usize, left: &Expr, right: &Expr, line: u32) -> (done:
        Result<(), AdvisorError>)
        requires
            old(self).wf(),
            old(self).has_scope(scope),
        ensures
            final(self).wf(),
            final(self)@.scopes.len() == old(self)@.scopes.len(),
            final(self)@ == old(self)@.visit_operands(scope as int, *left, *right, line as nat).0,
            done == outcome(
                old(self)@.visit_operands(scope as int, *left, *right, line as nat).1,
            ),
    {
        match resolve_expr(left, self, scope) {
            Err(e) => Err(e),
            Ok(l) => match resolve_expr(right, self, scope) {
                Err(e) => Err(e),
                Ok(r) => match self.change_and_used(scope, &l, line) {
                    Err(e) => Err(e),
                    Ok(()) => match self.change_and_used(scope, &r, line) {
                        Err(e) => Err(e),
                        Ok(()) => Ok(()),
                    },
                },
            },
        }
    }

    /// Enters an expression that spans the lines `lo..=hi`: performs the node's own
    /// effects and says whether the walk goes on into the node.
    pub fn visit_expr(&mut self, scope: usize, ex: &Expr, lo: u32, hi: u32) -> (walk: Result<
        bool,
        AdvisorError,
    >)
        requires
            old(self).wf(),
            old(self).has_scope(scope),
        ensures
            final(self).wf(),
            final(self)@.scopes.len() == old(self)@.scopes.len(),
            final(self)@ == old(self)@.visit_expr(scope as int, *ex, lo as nat, hi as nat).0,
            walk == old(self)@.visit_expr(scope as int, *ex, lo as nat, hi as nat).1,
    {
        match ex {
            Expr::Match(scrutinee) => match resolve_expr(scrutinee, self, scope) {
                Err(e) => Err(e),
                Ok(r) => match self.use_once(scope, scrutinee, &r, hi) {
                    Err(e) => Err(e),
                    Ok(()) => Ok(true),
                },
            },
            Expr::MethodCall(name, receiver, args) => match resolve_expr(receiver, self, scope) {
                Err(e) => Err(e),
                Ok(r) => match self.observe_call(scope, name.clone(), r.var_name, args, hi) {
                    Err(e) => Err(e),
                    Ok(()) => Ok(true),
                },
            },
            Expr::Call(callee, args) => match self.observe_call(
                scope,
                name_of_callee(callee),
                None,
                args,
                hi,
            ) {
                Err(e) => Err(e),
                Ok(()) => Ok(true),
            },
            Expr::Assign(target, value) => match self.visit_assign(scope, target, value, lo, hi) {
                Err(e) => Err(e),
                Ok(()) => Ok(true),
            },
            Expr::Binary(comparison, left, right) => {
                if *comparison {
                    Ok(false)
                } else {
                    match self.visit_operands(scope, left, right, hi) {
                        Err(e) => Err(e),
                        Ok(()) => Ok(false),
                    }
                }
            },
            _ => Ok(true),
        }
    }

    /// Leaves an expression that spans the lines `lo..=hi`, after the walk into it.
    pub fn leave_expr(&mut self, scope: usize, ex: &Expr, lo: u32, hi: u32)
        requires
            old(self).wf(),
            old(self).has_scope(scope),
        ensures
            final(self).wf(),
            final(self)@.scopes.len() == old(self)@.scopes.len(),
            final(self)@ == old(self)@.leave_expr(scope as int, *ex, lo as nat, hi as nat),
    {
        match ex {
            Expr::If(_) => {
                self.widen_last_use(scope, lo, hi, 2);
                self.widen_call_sites(scope, lo, hi, 2);
            },
            Expr::While => {
                self.widen_last_use(scope, lo, hi, 2);
                self.widen_call_sites(scope, lo, hi, 2);
            },
            Expr::Loop => {
                self.widen_call_sites(scope, lo, hi, 1);
                self.widen_last_use(scope, lo, hi, 1);
            },
            _ => {},
        }
    }

    /// Reads, on `line`, each name that stands in a macro invocation.
    pub fn visit_mac(&mut self, scope: usize, idents: &Vec<String>, line: u32) -> (done: Result<
        (),
        AdvisorError,
    >)
        requires
            old(self).wf(),
            old(self).has_scope(scope),
        ensures
            final(self).wf(),
            final(self)@.scopes.len() == old(self)@.scopes.len(),
            final(self)@ == old(self)@.visit_mac(scope as int, idents.deep_view(), line as nat).0,
            done == outcome(
                old(self)@.visit_mac(scope as int, idents.deep_view(), line as nat).1,
            ),
    {
        let ghost names = idents.deep_view();
        let mut i: usize = 0;
        assert(names.take(0) =~= Seq::empty());
        while i < idents.len()
            invariant
                i <= idents.len(),
                self.wf(),
                self.has_scope(scope),
                self@.scopes.len() == old(self)@.scopes.len(),
                names == idents.deep_view(),
                old(self)@.visit_mac(scope as int, names.take(i as int), line as nat) == (
                    self@,
                    None::<AdvisorError>,
                ),
            decreases idents.len() - i,
        {
            proof {
                assert(names.take(i as int + 1).drop_last() =~= names.take(i as int));
                assert(names.take(i as int + 1).last() == idents@[i as int]@);
            }
            let var = root_path(idents[i].as_str());
            match self.record_last_used(scope, &var, line) {
                Ok(()) => {},
                Err(e) => {
                    match e {
                        AdvisorError::UseAfterMove => {
                            proof {
                                lemma_visit_mac_error(
                                    old(self)@,
                                    scope as int,
                                    names,
                                    line as nat,
                                    i as int + 1,
                                );
                            }
                            return Err(e);
                        },
                        _ => {},
                    }
                },
            }
            i += 1;
        }
        assert(names.take(idents.len() as int) =~= names);
        Ok(())
    }

    /// Enters a block that spans the lines `start..=end` and lies in `scope`: opens
    /// its scope and returns the handle.
    pub fn visit_block(&mut self, scope: usize, start: u32, end: u32) -> (child: usize)
        requires
            old(self).wf(),
            old(self).has_scope(scope),
        ensures
            final(self).wf(),
            final(self).has_scope(child),
            child == old(self)@.scopes.len(),
            final(self)@ == old(self)@.open_scope(scope as int, start as nat, end as nat),
    {
        self.open_scope(scope, start, end)
    }
}

} // verus!
