use vstd::prelude::*;
use crate::builtin::str_eq;
use crate::builtin::Ty;
use crate::laws::lemma_by_line;
use crate::model::BindingModel;
use crate::model::CallModel;
use crate::model::TableModel;
use crate::path::contains_path;
use crate::path::lemma_first_index;
use crate::path::lemma_no_index;
use crate::path::path_eq;
use crate::path::path_opt_view;
use crate::symbol_table::bindings_view;
use crate::symbol_table::Binding;
use crate::symbol_table::SymbolTable;
use vstd::string::StringExecFns;

verus! {

/// The advice to release the owned value of the binding `name` on the line `line`.
#[derive(Debug, PartialEq, Eq)]
pub struct DropAdvice {
    /// The line before which the release can stand.
    pub line: u64,
    /// The name of the binding.
    pub name: String,
}

/// The advice to release a binding, as the contracts see it.
pub struct DropAdviceModel {
    /// The line before which the release can stand.
    pub line: nat,
    /// The name of the binding.
    pub name: Seq<char>,
}

impl View for DropAdvice {
    type V = DropAdviceModel;

    open spec fn view(&self) -> DropAdviceModel {
        DropAdviceModel { line: self.line as nat, name: self.name@ }
    }
}

/// The view of a list of advice.
pub open spec fn advice_view(list: Seq<DropAdvice>) -> Seq<DropAdviceModel> {
    list.map_values(|a: DropAdvice| a@)
}

/// For one function, which of its parameters could take ownership of their argument.
#[derive(Debug, PartialEq, Eq)]
pub struct FunctionAdvice {
    /// The name of the function.
    pub name: String,
    /// One flag for each declared parameter, in order.
    pub flags: Vec<bool>,
}

/// The view of a list of advice on functions.
pub open spec fn function_advice_view(list: Seq<FunctionAdvice>) -> Seq<(Seq<char>, Seq<bool>)> {
    list.map_values(|a: FunctionAdvice| (a.name@, a.flags@))
}

/// The advice to release bindings on one line.
#[derive(Debug, PartialEq, Eq)]
pub struct LineAdvice {
    /// The line before which the releases can stand.
    pub line: u64,
    /// The text of each advice for this line, in the order of the tree.
    pub texts: Vec<String>,
}

/// The advice to release bindings, line by line.
pub type LinesModel = Seq<(nat, Seq<Seq<char>>)>;

/// The view of the advice to release bindings, line by line.
pub open spec fn lines_view(lines: Seq<LineAdvice>) -> LinesModel {
    lines.map_values(|l: LineAdvice| (l.line as nat, l.texts.deep_view()))
}

/// What the analysis of a program gives.
#[derive(Debug, PartialEq, Eq)]
pub struct Report {
    /// The advice to release bindings early, ordered by line.
    pub drop_advice: Vec<LineAdvice>,
    /// The advice on which parameters could take ownership, in the catalog's order.
    pub function_advice: Vec<FunctionAdvice>,
}

/// What the analysis of a program gives, as the contracts see it.
pub struct ReportModel {
    /// The advice to release bindings early, ordered by line.
    pub drop_advice: LinesModel,
    /// The advice on which parameters could take ownership, in the catalog's order.
    pub function_advice: Seq<(Seq<char>, Seq<bool>)>,
}

impl View for Report {
    type V = ReportModel;

    open spec fn view(&self) -> ReportModel {
        ReportModel {
            drop_advice: lines_view(self.drop_advice@),
            function_advice: function_advice_view(self.function_advice@),
        }
    }
}

/// The text of the advice to release the binding `name`.
pub open spec fn advice_text(name: Seq<char>) -> Seq<char> {
    "drop( "@ + name + " ); // Adivice: a drop function can add here"@
}

/// The place of the first of `lines[p..]` that is not before `line`.
pub open spec fn place_of(lines: LinesModel, line: nat, p: int) -> int
    decreases lines.len() - p,
{
    if p < 0 || p >= lines.len() {
        lines.len() as int
    } else if lines[p].0 >= line {
        p
    } else {
        place_of(lines, line, p + 1)
    }
}

/// The advice, line by line, after one more advice: its text comes last among those
/// of its line; a line that is new comes before the first later line.
pub open spec fn add_advice(lines: LinesModel, a: DropAdviceModel) -> LinesModel {
    let p = place_of(lines, a.line, 0);
    if p < lines.len() && lines[p].0 == a.line {
        lines.update(p, (a.line, lines[p].1.push(advice_text(a.name))))
    } else {
        lines.insert(p, (a.line, seq![advice_text(a.name)]))
    }
}

/// The first `n` of the advice `emitted`, line by line.
pub open spec fn by_line(emitted: Seq<DropAdviceModel>, n: int) -> LinesModel
    decreases n,
{
    if n <= 0 {
        Seq::empty()
    } else {
        add_advice(by_line(emitted, n - 1), emitted[n - 1])
    }
}

/// The lines of a list of advice, in order.
pub open spec fn lines_of(lines: LinesModel) -> Seq<nat> {
    lines.map_values(|g: (nat, Seq<Seq<char>>)| g.0)
}

/// The texts of the advice for `line`: those of the first entry for that line.
pub open spec fn texts_for(lines: LinesModel, line: nat) -> Seq<Seq<char>> {
    match lines_of(lines).index_of_first(line) {
        Some(i) => lines[i].1,
        None => Seq::empty(),
    }
}

/// The first `n` lines of `source`, each preceded by the advice for it. Lines count
/// from 1.
pub open spec fn annotated(source: Seq<Seq<char>>, lines: LinesModel, n: int) -> Seq<Seq<char>>
    decreases n,
{
    if n <= 0 {
        Seq::empty()
    } else {
        annotated(source, lines, n - 1) + texts_for(lines, n as nat) + seq![source[n - 1]]
    }
}

/// The lines of a list of advice ascend strictly, and each has some advice.
pub open spec fn ordered(lines: LinesModel) -> bool {
    &&& forall|i: int, j: int| 0 <= i < j < lines.len() ==> (#[trigger] lines[i]).0 < (
    #[trigger] lines[j]).0
    &&& forall|i: int| 0 <= i < lines.len() ==> (#[trigger] lines[i]).1.len() > 0
}

/// The texts of those of the first `n` advice that are anchored at `line`, in order.
pub open spec fn texts_at(emitted: Seq<DropAdviceModel>, line: nat, n: int) -> Seq<Seq<char>>
    decreases n,
{
    if n <= 0 {
        Seq::empty()
    } else if emitted[n - 1].line == line {
        texts_at(emitted, line, n - 1).push(advice_text(emitted[n - 1].name))
    } else {
        texts_at(emitted, line, n - 1)
    }
}

impl DropAdvice {
    /// The text of the advice.
    pub fn text(&self) -> (text: String)
        ensures
            text@ == advice_text(self.name@),
    {
        let mut text = String::from_str("drop( ");
        text.append(self.name.as_str());
        text.append(" ); // Adivice: a drop function can add here");
        text
    }
}

/// Files one more advice under its line.
fn file_advice(lines: &mut Vec<LineAdvice>, advice: &DropAdvice)
    ensures
        lines_view(final(lines)@) == add_advice(lines_view(old(lines)@), advice@),
{
    let ghost before = lines_view(lines@);
    let mut p: usize = 0;
    while p < lines.len() && lines[p].line < advice.line
        invariant
            p <= lines.len(),
            before == lines_view(lines@),
            place_of(before, advice@.line, 0) == place_of(before, advice@.line, p as int),
        decreases lines.len() - p,
    {
        assert(before[p as int].0 == lines@[p as int].line);
        p += 1;
    }
    proof {
        if p < lines.len() {
            assert(before[p as int].0 == lines@[p as int].line);
        }
    }
    if p < lines.len() && lines[p].line == advice.line {
        let ghost texts = lines@[p as int].texts.deep_view();
        lines[p].texts.push(advice.text());
        proof {
            assert(lines@[p as int].texts.deep_view() =~= texts.push(advice_text(advice@.name)));
            assert(lines_view(lines@) =~= add_advice(before, advice@));
        }
    } else {
        let mut texts: Vec<String> = Vec::new();
        texts.push(advice.text());
        assert(texts.deep_view() =~= seq![advice_text(advice@.name)]);
        lines.insert(p, LineAdvice { line: advice.line, texts });
        proof {
            assert(lines_view(lines@) =~= add_advice(before, advice@));
        }
    }
}

/// The texts of the advice for `line`.
fn find_texts(advice: &Vec<LineAdvice>, line: u64) -> (found: Option<usize>)
    ensures
        match found {
            Some(i) => i < advice.len() && advice@[i as int].texts.deep_view() == texts_for(
                lines_view(advice@),
                line as nat,
            ),
            None => texts_for(lines_view(advice@), line as nat) == Seq::<Seq<char>>::empty(),
        },
{
    let ghost keys = lines_of(lines_view(advice@));
    let mut i: usize = 0;
    while i < advice.len()
        invariant
            i <= advice.len(),
            keys == lines_of(lines_view(advice@)),
            forall|j: int| 0 <= j < i ==> keys[j] != line as nat,
        decreases advice.len() - i,
    {
        if advice[i].line == line {
            proof {
                lemma_first_index(keys, line as nat, i as int);
            }
            return Some(i);
        }
        i += 1;
    }
    proof {
        lemma_no_index(keys, line as nat);
    }
    None
}

/// Writes the advice into the program: each line of `source` is preceded by the
/// advice for it. Lines count from 1; advice for a line that `source` does not have
/// is left out.
pub fn annotate(source: &Vec<String>, advice: &Vec<LineAdvice>) -> (out: Vec<String>)
    ensures
        out.deep_view() == annotated(
            source.deep_view(),
            lines_view(advice@),
            source.len() as int,
        ),
{
    let mut out: Vec<String> = Vec::new();
    let mut i: usize = 0;
    assert(out.deep_view() =~= annotated(source.deep_view(), lines_view(advice@), 0));
    while i < source.len()
        invariant
            i <= source.len(),
            out.deep_view() == annotated(source.deep_view(), lines_view(advice@), i as int),
        decreases source.len() - i,
    {
        let ghost sofar = out.deep_view();
        let ghost texts = texts_for(lines_view(advice@), (i + 1) as nat);
        match find_texts(advice, i as u64 + 1) {
            Some(g) => {
                let found = &advice[g].texts;
                let mut k: usize = 0;
                assert(out.deep_view() =~= sofar + texts.take(0));
                while k < found.len()
                    invariant
                        k <= found.len(),
                        found.deep_view() == texts,
                        out.deep_view() == sofar + texts.take(k as int),
                    decreases found.len() - k,
                {
                    let ghost before = out.deep_view();
                    out.push(found[k].clone());
                    assert(out.deep_view() =~= before.push(texts[k as int]));
                    assert(out.deep_view() =~= sofar + texts.take(k as int + 1));
                    k += 1;
                }
                assert(texts.take(found.len() as int) =~= texts);
            },
            None => {
                assert(out.deep_view() =~= sofar + texts);
            },
        }
        let ghost before = out.deep_view();
        out.push(source[i].clone());
        assert(out.deep_view() =~= before.push(source.deep_view()[i as int]));
        assert(out.deep_view() =~= annotated(
            source.deep_view(),
            lines_view(advice@),
            i as int + 1,
        ));
        i += 1;
    }
    out
}

/// Orders advice by line: the lines ascend strictly, and the advice listed for a line
/// is exactly the advice anchored at that line, in the order in which it was given.
pub fn group_by_line(emitted: &Vec<DropAdvice>) -> (lines: Vec<LineAdvice>)
    ensures
        lines_view(lines@) == by_line(advice_view(emitted@), emitted.len() as int),
        ordered(lines_view(lines@)),
        forall|line: nat| #[trigger]
            texts_for(lines_view(lines@), line) == texts_at(
                advice_view(emitted@),
                line,
                emitted.len() as int,
            ),
{
    let mut lines: Vec<LineAdvice> = Vec::new();
    let mut i: usize = 0;
    assert(lines_view(lines@) =~= by_line(advice_view(emitted@), 0));
    while i < emitted.len()
        invariant
            i <= emitted.len(),
            lines_view(lines@) == by_line(advice_view(emitted@), i as int),
        decreases emitted.len() - i,
    {
        file_advice(&mut lines, &emitted[i]);
        i += 1;
    }
    proof {
        lemma_by_line(advice_view(emitted@), emitted.len() as int);
    }
    lines
}

/// Whether `e` refers directly to `owner` and is registered with it.
pub open spec fn is_alias_of(e: BindingModel, owner: BindingModel) -> bool {
    owner.aliased_by.contains(e.path) && e.alias_target == Some(owner.path)
}

/// The latest line on which the scope of a direct alias of `owner` among `entries[..n]`
/// ends; 0 if there is none.
pub open spec fn horizon_in(entries: Seq<BindingModel>, owner: BindingModel, n: int) -> nat
    decreases n,
{
    if n <= 0 {
        0
    } else {
        let rest = horizon_in(entries, owner, n - 1);
        if is_alias_of(entries[n - 1], owner) && entries[n - 1].scope_exit_at > rest {
            entries[n - 1].scope_exit_at
        } else {
            rest
        }
    }
}

impl TableModel {
    /// Whether the binding of the root name `name` in the scope `x`, or a binding
    /// below it, was moved.
    pub open spec fn moved_within(self, x: int, name: Seq<char>) -> bool {
        exists|j: int|
            0 <= j < self.scopes[x].entries.len() && seq![name].is_prefix_of(
                (#[trigger] self.scopes[x].entries[j]).path,
            ) && self.scopes[x].entries[j].moved
    }

    /// The latest line on which the scope of a direct alias of `owner` ends, among
    /// the bindings of those of the scopes `0..n` that are the scope `x` or lie
    /// inside it; 0 if there is none.
    pub open spec fn horizon_upto(self, x: int, owner: BindingModel, n: int) -> nat
        decreases n,
    {
        if n <= 0 {
            0
        } else {
            let rest = self.horizon_upto(x, owner, n - 1);
            let here = horizon_in(
                self.scopes[n - 1].entries,
                owner,
                self.scopes[n - 1].entries.len() as int,
            );
            if self.within(n - 1, x) && here > rest {
                here
            } else {
                rest
            }
        }
    }

    /// The latest line on which the scope of a direct alias of `owner` ends, where
    /// `owner` is a binding of the scope `x`; 0 if it has no direct alias.
    pub open spec fn alias_horizon(self, x: int, owner: BindingModel) -> nat {
        self.horizon_upto(x, owner, self.scopes.len() as int)
    }

    /// The line on which the value of the binding `b` of the scope `x` could be
    /// released, if that is earlier than the end of its scope: after its last use
    /// where nothing refers to it, after the scope of its last direct alias where
    /// something does.
    pub open spec fn release_line(self, x: int, b: BindingModel) -> Option<nat> {
        if b.aliased_by.len() == 0 {
            match b.last_used_at {
                Some(l) => if l + 1 == b.scope_exit_at {
                    None
                } else {
                    Some(l + 1)
                },
                None => None,
            }
        } else {
            let m = self.alias_horizon(x, b);
            if m > 0 && m < b.scope_exit_at {
                Some(m + 1)
            } else {
                None
            }
        }
    }

    /// Whether the binding `b` of the scope `x` is a candidate for release: a root
    /// binding that owns its value and was not moved, in whole or in part, in a scope
    /// that was not given up.
    pub open spec fn releasable(self, x: int, b: BindingModel) -> bool {
        !self.scopes[x].abandoned && b.path.len() == 1 && b.classification == Ty::NonPrimitive
            && !self.moved_within(x, b.path[0])
    }

    /// The advice for the binding at place `j` of the scope `x`, if there is any.
    pub open spec fn drop_advice_of(self, x: int, j: int) -> Option<DropAdviceModel> {
        let b = self.scopes[x].entries[j];
        if self.releasable(x, b) {
            match self.release_line(x, b) {
                Some(line) => Some(DropAdviceModel { line, name: b.path[0] }),
                None => None,
            }
        } else {
            None
        }
    }

    /// The advice for the first `n` bindings of the scope `x`, in order.
    pub open spec fn scope_advice(self, x: int, n: int) -> Seq<DropAdviceModel>
        decreases n,
    {
        if n <= 0 {
            Seq::empty()
        } else {
            self.scope_advice(x, n - 1) + (match self.drop_advice_of(x, n - 1) {
                Some(a) => seq![a],
                None => Seq::empty(),
            })
        }
    }

    /// The advice for the scope `x` and all the scopes inside it: the scope's own,
    /// then that of each of its children in turn.
    pub open spec fn tree_advice(self, x: int) -> Seq<DropAdviceModel>
        decreases self.scopes.len() - x, 1int, 0int,
    {
        if !self.has_scope(x) {
            Seq::empty()
        } else {
            self.scope_advice(x, self.scopes[x].entries.len() as int) + self.children_advice(
                x,
                self.scopes[x].children.len() as int,
            )
        }
    }

    /// The advice for the first `k` children of the scope `x`.
    pub open spec fn children_advice(self, x: int, k: int) -> Seq<DropAdviceModel>
        decreases self.scopes.len() - x, 0int, k,
    {
        if !self.has_scope(x) || k <= 0 || k > self.scopes[x].children.len() {
            Seq::empty()
        } else {
            let c = self.scopes[x].children[k - 1];
            self.children_advice(x, k - 1) + (if x < c < self.scopes.len() {
                self.tree_advice(c)
            } else {
                Seq::empty()
            })
        }
    }

    /// All the advice to release bindings early, in the order of the tree.
    pub open spec fn drop_advice(self) -> Seq<DropAdviceModel> {
        self.tree_advice(0)
    }

    /// Whether the argument at place `k` of the call `c`, made in the scope `y`, was
    /// used on another line than that of the call. An argument that is no binding, or
    /// that the call does not have, was not.
    pub open spec fn reused_after(self, y: int, c: CallModel, k: int) -> bool {
        0 <= k < c.arguments.len() && match c.arguments[k] {
            Some(path) => match self.resolve(y, path) {
                Ok(b) => match b.last_used_at {
                    Some(l) => l != c.line,
                    None => false,
                },
                Err(_) => false,
            },
            None => false,
        }
    }

    /// Whether the parameter at place `k` of the function `f` could take ownership: at
    /// no call of `f`, in any scope that was not given up, was its argument used on
    /// another line.
    pub open spec fn can_own(self, f: Seq<char>, k: int) -> bool {
        forall|y: int, j: int|
            self.has_scope(y) && !self.scopes[y].abandoned && 0 <= j < self.scopes[y].calls.len()
                && (#[trigger] self.scopes[y].calls[j]).function == f ==> !self.reused_after(
                y,
                self.scopes[y].calls[j],
                k,
            )
    }

    /// Whether the function `f` gets no advice: the program's entry point, a
    /// function called `new`, and the function that builds a record.
    pub open spec fn exempt(self, f: Seq<char>) -> bool {
        f == "main"@ || f == "new"@ || self.catalog.is_constructor(f)
    }

    /// The flags of the function `f` with `input` parameters.
    pub open spec fn flags_of(self, f: Seq<char>, input: usize) -> Seq<bool> {
        Seq::new(input as nat, |k: int| self.can_own(f, k))
    }

    /// The advice on the first `n` functions of the catalog, in order.
    pub open spec fn function_advice_upto(self, n: int) -> Seq<(Seq<char>, Seq<bool>)>
        decreases n,
    {
        if n <= 0 {
            Seq::empty()
        } else {
            let f = self.catalog.funs[n - 1];
            self.function_advice_upto(n - 1) + (if self.exempt(f.0) {
                Seq::empty()
            } else {
                seq![(f.0, self.flags_of(f.0, f.1.input))]
            })
        }
    }

    /// The advice on the functions of the catalog, in its order.
    pub open spec fn function_advice(self) -> Seq<(Seq<char>, Seq<bool>)> {
        self.function_advice_upto(self.catalog.funs.len() as int)
    }

    /// What the analysis of the tree gives.
    pub open spec fn report(self) -> ReportModel {
        ReportModel {
            drop_advice: by_line(self.drop_advice(), self.drop_advice().len() as int),
            function_advice: self.function_advice(),
        }
    }
}

/// Whether `e` refers directly to `owner` and is registered with it.
fn alias_of(e: &Binding, owner: &Binding) -> (yes: bool)
    ensures
        yes == is_alias_of(e@, owner@),
{
    match &e.alias_target {
        Some(target) => path_eq(target, &owner.path) && contains_path(&owner.aliased_by, &e.path),
        None => false,
    }
}

/// The latest line on which the scope of a direct alias of `owner` among `bindings` ends.
fn horizon_of(bindings: &Vec<Binding>, owner: &Binding) -> (m: u32)
    ensures
        m == horizon_in(bindings_view(bindings@), owner@, bindings.len() as int),
{
    let mut m: u32 = 0;
    let mut i: usize = 0;
    while i < bindings.len()
        invariant
            i <= bindings.len(),
            m == horizon_in(bindings_view(bindings@), owner@, i as int),
        decreases bindings.len() - i,
    {
        if alias_of(&bindings[i], owner) && bindings[i].scope_exit_at > m {
            m = bindings[i].scope_exit_at;
        }
        i += 1;
    }
    m
}

impl SymbolTable {
    /// Whether the binding of the root name `var` in `scope`, or a binding below it,
    /// was moved.
    pub fn check_move(&self, scope: usize, var: &str) -> (yes: bool)
        requires
            self.has_scope(scope),
        ensures
            yes == self@.moved_within(scope as int, var@),
    {
        let bindings = &self.scope(scope).bindings;
        let mut j: usize = 0;
        while j < bindings.len()
            invariant
                j <= bindings.len(),
                self.has_scope(scope),
                bindings_view(bindings@) == self@.scopes[scope as int].entries,
                forall|i: int|
                    0 <= i < j ==> !(seq![var@].is_prefix_of(
                        (#[trigger] self@.scopes[scope as int].entries[i]).path,
                    ) && self@.scopes[scope as int].entries[i].moved),
            decreases bindings.len() - j,
        {
            let b = &bindings[j];
            assert(b@ == self@.scopes[scope as int].entries[j as int]);
            if b.moved && b.path.len() >= 1 && str_eq(b.path[0].as_str(), var) {
                assert(b@.path[0] == var@);
                assert(seq![var@] =~= b@.path.subrange(0, 1));
                return true;
            }
            proof {
                if seq![var@].is_prefix_of(b@.path) && b@.moved {
                    assert(b@.path.subrange(0, 1)[0] == var@);
                }
            }
            j += 1;
        }
        false
    }

    /// The latest line on which the scope of a direct alias of `owner` ends, among the
    /// bindings of `scope` and of the scopes inside it; 0 if there is none.
    pub fn get_when_drop(&self, scope: usize, owner: &Binding) -> (m: u32)
        requires
            self.wf(),
            self.has_scope(scope),
        ensures
            m == self@.alias_horizon(scope as int, owner@),
    {
        let n = self.scope_count();
        let mut m: u32 = 0;
        let mut y: usize = 0;
        while y < n
            invariant
                y <= n,
                n == self@.scopes.len(),
                self.wf(),
                m == self@.horizon_upto(scope as int, owner@, y as int),
            decreases n - y,
        {
            if self.is_within(y, scope) {
                let here = horizon_of(&self.scope(y).bindings, owner);
                if here > m {
                    m = here;
                }
            }
            y += 1;
        }
        m
    }

    /// The advice for the binding at place `j` of `scope`, if there is any.
    pub fn choice_one_drop(&self, scope: usize, j: usize) -> (advice: Option<DropAdvice>)
        requires
            self.wf(),
            self.has_scope(scope),
            j < self@.scopes[scope as int].entries.len(),
        ensures
            match self@.drop_advice_of(scope as int, j as int) {
                Some(a) => advice matches Some(x) && x@ == a,
                None => advice is None,
            },
    {
        let info = &self.scope(scope).bindings[j];
        assert(info@ == self@.scopes[scope as int].entries[j as int]);
        if self.scope(scope).abandoned || info.path.len() != 1 {
            return None;
        }
        assert(info@.path[0] == info.path@[0]@);
        match info.classification {
            Ty::NonPrimitive => {},
            _ => {
                return None;
            },
        }
        if self.check_move(scope, info.path[0].as_str()) {
            return None;
        }
        let exit = info.scope_exit_at as u64;
        if info.aliased_by.len() == 0 {
            match info.last_used_at {
                Some(line) => {
                    if line as u64 + 1 == exit {
                        None
                    } else {
                        Some(DropAdvice { line: line as u64 + 1, name: info.path[0].clone() })
                    }
                },
                None => None,
            }
        } else {
            let when_drop = self.get_when_drop(scope, info) as u64;
            if when_drop != 0 && when_drop < exit {
                Some(DropAdvice { line: when_drop + 1, name: info.path[0].clone() })
            } else {
                None
            }
        }
    }

    /// Appends the advice for `scope` and all the scopes inside it to `print_list`.
    pub fn drop_analyze_innerscope(&self, scope: usize, print_list: &mut Vec<DropAdvice>)
        requires
            self.wf(),
            self.has_scope(scope),
        ensures
            advice_view(final(print_list)@) == advice_view(old(print_list)@) + self@.tree_advice(
                scope as int,
            ),
        decreases self@.scopes.len() - scope,
    {
        let s = self.scope(scope);
        let mut j: usize = 0;
        assert(advice_view(print_list@) =~= advice_view(old(print_list)@) + self@.scope_advice(
            scope as int,
            0,
        ));
        while j < s.bindings.len()
            invariant
                j <= s.bindings.len(),
                self.wf(),
                self.has_scope(scope),
                s@ == self@.scopes[scope as int],
                advice_view(print_list@) == advice_view(old(print_list)@) + self@.scope_advice(
                    scope as int,
                    j as int,
                ),
            decreases s.bindings.len() - j,
        {
            let ghost before = print_list@;
            match self.choice_one_drop(scope, j) {
                Some(advice) => {
                    print_list.push(advice);
                    assert(advice_view(print_list@) =~= advice_view(before).push(advice@));
                    assert(advice_view(print_list@) =~= advice_view(old(print_list)@)
                        + self@.scope_advice(scope as int, j as int + 1));
                },
                None => {
                    assert(advice_view(print_list@) =~= advice_view(old(print_list)@)
                        + self@.scope_advice(scope as int, j as int + 1));
                },
            }
            j += 1;
        }
        let ghost own = self@.scope_advice(scope as int, s.bindings.len() as int);
        let mut k: usize = 0;
        assert(advice_view(print_list@) =~= advice_view(old(print_list)@) + own
            + self@.children_advice(scope as int, 0));
        while k < s.children.len()
            invariant
                k <= s.children.len(),
                self.wf(),
                self.has_scope(scope),
                s@ == self@.scopes[scope as int],
                own == self@.scope_advice(scope as int, s.bindings.len() as int),
                advice_view(print_list@) == advice_view(old(print_list)@) + own
                    + self@.children_advice(scope as int, k as int),
            decreases s.children.len() - k,
        {
            let child = s.children[k];
            assert(self@.scopes[scope as int].children[k as int] == child as int);
            let ghost before = advice_view(print_list@);
            self.drop_analyze_innerscope(child, print_list);
            assert(advice_view(print_list@) =~= advice_view(old(print_list)@) + own
                + self@.children_advice(scope as int, k as int + 1));
            k += 1;
        }
        assert(advice_view(print_list@) =~= advice_view(old(print_list)@) + self@.tree_advice(
            scope as int,
        ));
    }

    /// Whether the argument at place `k` of the call at place `j` of `scope` was used
    /// on another line than that of the call.
    fn argument_reused(&self, scope: usize, j: usize, k: usize) -> (yes: bool)
        requires
            self.wf(),
            self.has_scope(scope),
            j < self@.scopes[scope as int].calls.len(),
        ensures
            yes == self@.reused_after(
                scope as int,
                self@.scopes[scope as int].calls[j as int],
                k as int,
            ),
    {
        let info = &self.scope(scope).calls[j];
        assert(info@ == self@.scopes[scope as int].calls[j as int]);
        if k < info.arguments.len() {
            assert(info@.arguments[k as int] == path_opt_view(info.arguments@[k as int]));
            match &info.arguments[k] {
                Some(path) => match self.resolve(scope, path) {
                    Ok(b) => match b.last_used_at {
                        Some(l) => l != info.call_site_line,
                        None => false,
                    },
                    Err(_) => false,
                },
                None => false,
            }
        } else {
            false
        }
    }

    /// Whether the parameter at place `k` of the function `func_name` could take
    /// ownership: at no call of the function, in any scope, was its argument used on
    /// another line than that of the call.
    pub fn check_function_call(&self, func_name: &str, k: usize) -> (yes: bool)
        requires
            self.wf(),
        ensures
            yes == self@.can_own(func_name@, k as int),
    {
        let n = self.scope_count();
        let mut y: usize = 0;
        while y < n
            invariant
                y <= n,
                n == self@.scopes.len(),
                self.wf(),
                forall|a: int, b: int|
                    0 <= a < y && !self@.scopes[a].abandoned && 0 <= b
                        < self@.scopes[a].calls.len() && (
                    #[trigger] self@.scopes[a].calls[b]).function == func_name@
                        ==> !self@.reused_after(a, self@.scopes[a].calls[b], k as int),
            decreases n - y,
        {
            let calls = &self.scope(y).calls;
            let given_up = self.scope(y).abandoned;
            let mut j: usize = 0;
            while !given_up && j < calls.len()
                invariant
                    j <= calls.len(),
                    y < n,
                    n == self@.scopes.len(),
                    self.wf(),
                    given_up == self@.scopes[y as int].abandoned,
                    calls.len() == self@.scopes[y as int].calls.len(),
                    forall|b: int|
                        0 <= b < calls.len() ==> (#[trigger] calls@[b])@
                            == self@.scopes[y as int].calls[b],
                    forall|b: int|
                        0 <= b < j && (#[trigger] self@.scopes[y as int].calls[b]).function
                            == func_name@ ==> !self@.reused_after(
                            y as int,
                            self@.scopes[y as int].calls[b],
                            k as int,
                        ),
                decreases calls.len() - j,
            {
                assert(calls@[j as int]@ == self@.scopes[y as int].calls[j as int]);
                if str_eq(calls[j].function_name.as_str(), func_name) && self.argument_reused(
                    y,
                    j,
                    k,
                ) {
                    return false;
                }
                j += 1;
            }
            y += 1;
        }
        true
    }

    /// Whether the function `name` gets no advice.
    fn is_exempt(&self, name: &str) -> (yes: bool)
        ensures
            yes == self@.exempt(name@),
    {
        str_eq(name, "main") || str_eq(name, "new") || self.records().constructor_of(
            name,
        ).is_some()
    }

    /// For each function of the catalog but the entry point and the constructors,
    /// which of its parameters could take ownership.
    pub fn choice_two_function(&self) -> (print_list_func: Vec<FunctionAdvice>)
        requires
            self.wf(),
        ensures
            function_advice_view(print_list_func@) == self@.function_advice(),
    {
        let records = self.records();
        let mut out: Vec<FunctionAdvice> = Vec::new();
        let mut i: usize = 0;
        assert(function_advice_view(out@) =~= self@.function_advice_upto(0));
        while i < records.fun_record.len()
            invariant
                i <= records.fun_record.len(),
                self.wf(),
                records@ == self@.catalog,
                function_advice_view(out@) == self@.function_advice_upto(i as int),
            decreases records.fun_record.len() - i,
        {
            let name = &records.fun_record[i].0;
            let length = records.fun_record[i].1.input;
            assert(self@.catalog.funs[i as int] == (name@, records.fun_record@[i as int].1));
            let ghost before = out@;
            if !self.is_exempt(name.as_str()) {
                let mut print: Vec<bool> = Vec::new();
                let mut count: usize = 0;
                while count < length
                    invariant
                        count <= length,
                        self.wf(),
                        print.len() == count,
                        forall|k: int|
                            0 <= k < count ==> print@[k] == self@.can_own(name@, k),
                    decreases length - count,
                {
                    print.push(self.check_function_call(name.as_str(), count));
                    count += 1;
                }
                assert(print@ =~= self@.flags_of(name@, length));
                let advice = FunctionAdvice { name: name.clone(), flags: print };
                out.push(advice);
                assert(function_advice_view(out@) =~= function_advice_view(before).push(
                    (name@, print@),
                ));
                assert(function_advice_view(out@) =~= self@.function_advice_upto(i as int + 1));
            } else {
                assert(function_advice_view(out@) =~= self@.function_advice_upto(i as int + 1));
            }
            i += 1;
        }
        out
    }

    /// Analyzes the finished table: the advice to release bindings early, ordered by
    /// line, and the advice on which parameters could take ownership. The table is
    /// only read, so the analysis of one table always gives the same report.
    pub fn start_analyze(&self) -> (report: Report)
        requires
            self.wf(),
        ensures
            report@ == self@.report(),
            ordered(lines_view(report.drop_advice@)),
            forall|line: nat| #[trigger]
                texts_for(lines_view(report.drop_advice@), line) == texts_at(
                    self@.drop_advice(),
                    line,
                    self@.drop_advice().len() as int,
                ),
    {
        let mut print_list: Vec<DropAdvice> = Vec::new();
        self.drop_analyze_innerscope(self.root(), &mut print_list);
        assert(advice_view(print_list@) =~= self@.drop_advice());
        assert(print_list.len() == self@.drop_advice().len());
        Report {
            drop_advice: group_by_line(&print_list),
            function_advice: self.choice_two_function(),
        }
    }
}

} // verus!
