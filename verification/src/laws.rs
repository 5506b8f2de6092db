use vstd::prelude::*;
use crate::analyzer::add_advice;
use crate::analyzer::advice_text;
use crate::analyzer::by_line;
use crate::analyzer::horizon_in;
use crate::analyzer::lines_of;
use crate::analyzer::ordered;
use crate::analyzer::texts_at;
use crate::analyzer::place_of;
use crate::analyzer::texts_for;
use crate::analyzer::LinesModel;
use crate::analyzer::Report;
use crate::path::lemma_first_index;
use crate::path::lemma_no_index;
use crate::analyzer::is_alias_of;
use crate::analyzer::DropAdviceModel;
use crate::builtin::Ty;
use crate::model::carried;
use crate::model::find_entry;
use crate::model::nested_bindings;
use crate::model::fresh_binding;
use crate::model::paths_of;
use crate::model::planted_bindings;
use crate::model::without_below;
use crate::model::BindingModel;
use crate::model::TableModel;
use crate::path::PathModel;
use crate::resolve::resolve_spec;
use crate::resolve::Descriptor;
use crate::syntax_tree::Expr;
use crate::syntax_tree::Pattern;
use crate::syntax_tree::Stmt;

verus! {

/// An owned binding that nothing refers to, that was not moved, and whose last use
/// is on the line just before the end of its scope, gets no advice: the end of the
/// scope releases it as early as can be.
pub proof fn lemma_no_advice_at_natural_boundary(t: TableModel, x: int, j: int)
    requires
        t.has_scope(x),
        0 <= j < t.scopes[x].entries.len(),
        t.scopes[x].entries[j].classification == Ty::NonPrimitive,
        !t.scopes[x].entries[j].moved,
        t.scopes[x].entries[j].aliased_by.len() == 0,
        t.scopes[x].entries[j].last_used_at matches Some(l) && l + 1
            == t.scopes[x].entries[j].scope_exit_at,
    ensures
        t.drop_advice_of(x, j) is None,
{
}

/// A releasable binding that nothing refers to, and whose last use is not on the
/// line just before the end of its scope, gets the advice to release it on the line
/// after its last use: filed with the advice `lines` given so far, the advice comes
/// last under that line, and every other line is as it was.
pub proof fn lemma_advice_after_last_use(
    t: TableModel,
    x: int,
    j: int,
    l: nat,
    lines: LinesModel,
)
    requires
        t.has_scope(x),
        0 <= j < t.scopes[x].entries.len(),
        t.releasable(x, t.scopes[x].entries[j]),
        t.scopes[x].entries[j].aliased_by.len() == 0,
        t.scopes[x].entries[j].last_used_at == Some(l),
        l + 1 != t.scopes[x].entries[j].scope_exit_at,
        ordered(lines),
    ensures
        t.drop_advice_of(x, j) == Some(
            DropAdviceModel { line: l + 1, name: t.scopes[x].entries[j].path[0] },
        ),
        texts_for(add_advice(lines, t.drop_advice_of(x, j)->Some_0), l + 1) == texts_for(
            lines,
            l + 1,
        ).push(advice_text(t.scopes[x].entries[j].path[0])),
        forall|line: nat|
            line != l + 1 ==> #[trigger] texts_for(
                add_advice(lines, t.drop_advice_of(x, j)->Some_0),
                line,
            ) == texts_for(lines, line),
{
    lemma_add_advice(lines, t.drop_advice_of(x, j)->Some_0);
}

/// A releasable binding that something refers to gets the advice to release it on
/// the line after the scope of its last direct alias ends, if that is before the end
/// of its own scope, whatever the line of its last use is: filed with the advice
/// `lines` given so far, the advice comes last under that line, and every other line
/// is as it was.
pub proof fn lemma_advice_after_last_alias(t: TableModel, x: int, j: int, lines: LinesModel)
    requires
        t.has_scope(x),
        0 <= j < t.scopes[x].entries.len(),
        t.releasable(x, t.scopes[x].entries[j]),
        t.scopes[x].entries[j].aliased_by.len() > 0,
        0 < t.alias_horizon(x, t.scopes[x].entries[j]) < t.scopes[x].entries[j].scope_exit_at,
        ordered(lines),
    ensures
        t.drop_advice_of(x, j) == Some(
            DropAdviceModel {
                line: t.alias_horizon(x, t.scopes[x].entries[j]) + 1,
                name: t.scopes[x].entries[j].path[0],
            },
        ),
        texts_for(
            add_advice(lines, t.drop_advice_of(x, j)->Some_0),
            t.alias_horizon(x, t.scopes[x].entries[j]) + 1,
        ) == texts_for(lines, t.alias_horizon(x, t.scopes[x].entries[j]) + 1).push(
            advice_text(t.scopes[x].entries[j].path[0]),
        ),
        forall|line: nat|
            line != t.alias_horizon(x, t.scopes[x].entries[j]) + 1 ==> #[trigger] texts_for(
                add_advice(lines, t.drop_advice_of(x, j)->Some_0),
                line,
            ) == texts_for(lines, line),
{
    lemma_add_advice(lines, t.drop_advice_of(x, j)->Some_0);
}

/// A binding that was moved gets no advice.
pub proof fn lemma_move_suppresses_advice(t: TableModel, x: int, j: int)
    requires
        t.has_scope(x),
        0 <= j < t.scopes[x].entries.len(),
        t.scopes[x].entries[j].moved,
    ensures
        t.drop_advice_of(x, j) is None,
{
    let b = t.scopes[x].entries[j];
    if b.path.len() == 1 {
        assert(seq![b.path[0]] =~= b.path.subrange(0, 1));
        assert(seq![b.path[0]].is_prefix_of(t.scopes[x].entries[j].path));
        assert(t.moved_within(x, b.path[0]));
    }
}

/// Once the value of an owned binding is consumed, the binding gets no advice.
pub proof fn lemma_consumed_binding_gets_no_advice(
    t: TableModel,
    s: int,
    path: PathModel,
    line: nat,
)
    requires
        t.resolve(s, path) matches Ok(b) && b.classification == Ty::NonPrimitive,
        t.record_use(s, path, line) is Ok,
    ensures
        ({
            let at = t.locate(s, path)->Ok_0;
            t.record_use(s, path, line)->Ok_0.drop_advice_of(at.0, at.1) is None
        }),
{
    let at = t.locate(s, path)->Ok_0;
    let after = t.record_use(s, path, line)->Ok_0;
    crate::path::lemma_first_index_in_range(crate::model::paths_of(t.scopes[at.0].entries), path);
    crate::model::lemma_owner_in_range(t, s, path[0]);
    assert(after.scopes[at.0].entries[at.1].moved);
    lemma_move_suppresses_advice(after, at.0, at.1);
}

/// A direct alias among the first `n` of `entries` ends its scope no later than the
/// horizon of those.
pub proof fn lemma_horizon_in_covers(
    entries: Seq<BindingModel>,
    owner: BindingModel,
    n: int,
    i: int,
)
    requires
        0 <= i < n <= entries.len(),
        is_alias_of(entries[i], owner),
    ensures
        entries[i].scope_exit_at <= horizon_in(entries, owner, n),
    decreases n,
{
    if i < n - 1 {
        lemma_horizon_in_covers(entries, owner, n - 1, i);
    }
}

/// A horizon above 0 is the end of the scope of some direct alias.
pub proof fn lemma_horizon_in_attained(
    entries: Seq<BindingModel>,
    owner: BindingModel,
    n: int,
) -> (i: int)
    requires
        0 <= n <= entries.len(),
        horizon_in(entries, owner, n) > 0,
    ensures
        0 <= i < n,
        is_alias_of(entries[i], owner),
        entries[i].scope_exit_at == horizon_in(entries, owner, n),
    decreases n,
{
    if is_alias_of(entries[n - 1], owner) && entries[n - 1].scope_exit_at > horizon_in(
        entries,
        owner,
        n - 1,
    ) {
        n - 1
    } else {
        lemma_horizon_in_attained(entries, owner, n - 1)
    }
}

/// A direct alias in one of the scopes `0..n` that is the scope `x` or lies inside
/// it ends its scope no later than the horizon over those scopes.
pub proof fn lemma_horizon_upto_covers(
    t: TableModel,
    x: int,
    owner: BindingModel,
    n: int,
    y: int,
    i: int,
)
    requires
        0 <= y < n <= t.scopes.len(),
        t.within(y, x),
        0 <= i < t.scopes[y].entries.len(),
        is_alias_of(t.scopes[y].entries[i], owner),
    ensures
        t.scopes[y].entries[i].scope_exit_at <= t.horizon_upto(x, owner, n),
    decreases n,
{
    if y < n - 1 {
        lemma_horizon_upto_covers(t, x, owner, n - 1, y, i);
    } else {
        lemma_horizon_in_covers(
            t.scopes[y].entries,
            owner,
            t.scopes[y].entries.len() as int,
            i,
        );
    }
}

/// A horizon above 0 over the scopes `0..n` is the end of the scope of some direct
/// alias in one of those scopes that is the scope `x` or lies inside it.
pub proof fn lemma_horizon_upto_attained(t: TableModel, x: int, owner: BindingModel, n: int) -> (at:
    (int, int))
    requires
        0 <= n <= t.scopes.len(),
        t.horizon_upto(x, owner, n) > 0,
    ensures
        0 <= at.0 < n,
        t.within(at.0, x),
        0 <= at.1 < t.scopes[at.0].entries.len(),
        is_alias_of(t.scopes[at.0].entries[at.1], owner),
        t.scopes[at.0].entries[at.1].scope_exit_at == t.horizon_upto(x, owner, n),
    decreases n,
{
    let here = horizon_in(
        t.scopes[n - 1].entries,
        owner,
        t.scopes[n - 1].entries.len() as int,
    );
    if t.within(n - 1, x) && here > t.horizon_upto(x, owner, n - 1) {
        let i = lemma_horizon_in_attained(
            t.scopes[n - 1].entries,
            owner,
            t.scopes[n - 1].entries.len() as int,
        );
        (n - 1, i)
    } else {
        lemma_horizon_upto_attained(t, x, owner, n - 1)
    }
}

/// The release of a binding that is referred to waits for its last direct alias: no
/// direct alias, in the binding's scope or inside it, ends its scope after the line
/// that the advice goes by, and that line, if it is not 0, is the end of the scope of
/// such an alias.
pub proof fn lemma_alias_defers_release(t: TableModel, x: int, owner: BindingModel)
    ensures
        forall|y: int, i: int|
            t.has_scope(y) && t.within(y, x) && 0 <= i < t.scopes[y].entries.len() && is_alias_of(
                #[trigger] t.scopes[y].entries[i],
                owner,
            ) ==> t.scopes[y].entries[i].scope_exit_at <= t.alias_horizon(x, owner),
        t.alias_horizon(x, owner) > 0 ==> exists|y: int, i: int|
            t.has_scope(y) && t.within(y, x) && 0 <= i < t.scopes[y].entries.len() && is_alias_of(
                #[trigger] t.scopes[y].entries[i],
                owner,
            ) && t.scopes[y].entries[i].scope_exit_at == t.alias_horizon(x, owner),
{
    assert forall|y: int, i: int|
        t.has_scope(y) && t.within(y, x) && 0 <= i < t.scopes[y].entries.len() && is_alias_of(
            #[trigger] t.scopes[y].entries[i],
            owner,
        ) implies t.scopes[y].entries[i].scope_exit_at <= t.alias_horizon(x, owner) by {
        lemma_horizon_upto_covers(t, x, owner, t.scopes.len() as int, y, i);
    }
    if t.alias_horizon(x, owner) > 0 {
        let at = lemma_horizon_upto_attained(t, x, owner, t.scopes.len() as int);
        assert(t.has_scope(at.0) && is_alias_of(t.scopes[at.0].entries[at.1], owner));
    }
}

/// One call at which the argument of a parameter was used again on another line
/// disqualifies the parameter, whatever the other calls are. Calls in a scope that
/// was given up do not count.
pub proof fn lemma_reuse_disqualifies(t: TableModel, f: Seq<char>, k: int, y: int, j: int)
    requires
        t.has_scope(y),
        !t.scopes[y].abandoned,
        0 <= j < t.scopes[y].calls.len(),
        t.scopes[y].calls[j].function == f,
        t.reused_after(y, t.scopes[y].calls[j], k),
    ensures
        !t.can_own(f, k),
        forall|input: usize| 0 <= k < input ==> !(#[trigger] t.flags_of(f, input))[k],
{
}

/// A parameter keeps its flag when, at every call of the function, its argument was
/// last used on the line of the call, or never, or is no binding at all.
pub proof fn lemma_safe_calls_qualify(t: TableModel, f: Seq<char>, k: int)
    requires
        forall|y: int, j: int|
            t.has_scope(y) && 0 <= j < t.scopes[y].calls.len() && (
            #[trigger] t.scopes[y].calls[j]).function == f ==> !t.reused_after(
                y,
                t.scopes[y].calls[j],
                k,
            ),
    ensures
        t.can_own(f, k),
        forall|input: usize| 0 <= k < input ==> (#[trigger] t.flags_of(f, input))[k],
{
}

/// In a table of which no scope was given up, the flag of a parameter is the
/// conjunction over all calls of the function, in all scopes: at each call the
/// argument at the parameter's place is no binding, or was never used, or was last
/// used on the line of the call.
pub proof fn lemma_flag_is_conjunction(t: TableModel, f: Seq<char>, k: int)
    requires
        t.nothing_given_up(),
    ensures
        t.can_own(f, k) <==> (forall|y: int, j: int|
            t.has_scope(y) && 0 <= j < t.scopes[y].calls.len() && (
            #[trigger] t.scopes[y].calls[j]).function == f ==> !t.reused_after(
                y,
                t.scopes[y].calls[j],
                k,
            )),
        forall|input: usize| 0 <= k < input ==> (#[trigger] t.flags_of(f, input))[k] == t.can_own(f, k),
{
    if t.can_own(f, k) {
        assert forall|y: int, j: int|
            t.has_scope(y) && 0 <= j < t.scopes[y].calls.len() && (
            #[trigger] t.scopes[y].calls[j]).function == f implies !t.reused_after(
            y,
            t.scopes[y].calls[j],
            k,
        ) by {
            assert(!t.scopes[y].abandoned);
        }
    }
}

/// A binding that was declared before a region and last used inside it counts,
/// after the region is walked, as used on the last line of the region; if nothing
/// refers to it, advice for it is anchored on the line after the region, never
/// inside it.
pub proof fn lemma_branch_widening(
    t: TableModel,
    s: int,
    start: nat,
    end: nat,
    depth: nat,
    x: int,
    j: int,
)
    requires
        t.has_scope(x),
        t.in_chain(s, x, depth),
        0 <= j < t.scopes[x].entries.len(),
        t.scopes[x].entries[j].declared_at < start,
        t.scopes[x].entries[j].last_used_at matches Some(l) && start <= l <= end,
    ensures
        ({
            let after = t.widen_last_use(s, start, end, depth);
            &&& after.scopes[x].entries[j].last_used_at == Some(end)
            &&& t.scopes[x].entries[j].aliased_by.len() == 0 ==> (after.drop_advice_of(
                x,
                j,
            ) matches Some(a) ==> a.line == end + 1)
        }),
{
}

/// The place of a line parts an ordered list: the lines before it are earlier, the
/// line at it is not.
pub proof fn lemma_place_parts(lines: LinesModel, line: nat, p: int)
    requires
        0 <= p <= lines.len(),
    ensures
        p <= place_of(lines, line, p) <= lines.len(),
        forall|i: int| p <= i < place_of(lines, line, p) ==> (#[trigger] lines[i]).0 < line,
        place_of(lines, line, p) < lines.len() ==> lines[place_of(lines, line, p)].0 >= line,
    decreases lines.len() - p,
{
    if p < lines.len() && lines[p].0 < line {
        lemma_place_parts(lines, line, p + 1);
    }
}

/// In an ordered list, the advice for the line of an entry is that entry's.
pub proof fn lemma_texts_for_entry(lines: LinesModel, i: int)
    requires
        ordered(lines),
        0 <= i < lines.len(),
    ensures
        texts_for(lines, lines[i].0) == lines[i].1,
{
    assert forall|j: int| 0 <= j < i implies lines_of(lines)[j] != lines[i].0 by {
        assert(lines[j].0 < lines[i].0);
    }
    lemma_first_index(lines_of(lines), lines[i].0, i);
}

/// A line that no entry bears has no advice.
pub proof fn lemma_texts_for_absent(lines: LinesModel, line: nat)
    requires
        forall|i: int| 0 <= i < lines.len() ==> (#[trigger] lines[i]).0 != line,
    ensures
        texts_for(lines, line) == Seq::<Seq<char>>::empty(),
{
    assert forall|j: int| 0 <= j < lines_of(lines).len() implies lines_of(lines)[j] != line by {
        assert(lines[j].0 != line);
    }
    lemma_no_index(lines_of(lines), line);
}

/// Filing one more advice keeps the list ordered, adds the text at the end of its
/// line, and leaves every other line as it was.
pub proof fn lemma_add_advice(lines: LinesModel, a: DropAdviceModel)
    requires
        ordered(lines),
    ensures
        ordered(add_advice(lines, a)),
        texts_for(add_advice(lines, a), a.line) == texts_for(lines, a.line).push(
            advice_text(a.name),
        ),
        forall|line: nat|
            line != a.line ==> #[trigger] texts_for(add_advice(lines, a), line) == texts_for(
                lines,
                line,
            ),
{
    let after = add_advice(lines, a);
    let p = place_of(lines, a.line, 0);
    let text = advice_text(a.name);
    lemma_place_parts(lines, a.line, 0);
    if p < lines.len() && lines[p].0 == a.line {
        assert(after.len() == lines.len());
        assert forall|i: int| 0 <= i < lines.len() implies (#[trigger] after[i]).0
            == lines[i].0 by {}
        assert(ordered(after)) by {
            assert forall|i: int, j: int| 0 <= i < j < after.len() implies (#[trigger] after[i]).0
                < (#[trigger] after[j]).0 by {
                assert(lines[i].0 < lines[j].0);
            }
            assert forall|i: int| 0 <= i < after.len() implies (#[trigger] after[i]).1.len()
                > 0 by {
                if i != p {
                    assert(after[i] == lines[i]);
                }
            }
        }
        lemma_texts_for_entry(lines, p);
        lemma_texts_for_entry(after, p);
        assert forall|line: nat| line != a.line implies #[trigger] texts_for(after, line)
            == texts_for(lines, line) by {
            if exists|i: int| 0 <= i < lines.len() && (#[trigger] lines[i]).0 == line {
                let i = choose|i: int| 0 <= i < lines.len() && (#[trigger] lines[i]).0 == line;
                lemma_texts_for_entry(lines, i);
                lemma_texts_for_entry(after, i);
                assert(after[i] == lines[i]);
            } else {
                lemma_texts_for_absent(lines, line);
                assert forall|i: int| 0 <= i < after.len() implies (#[trigger] after[i]).0
                    != line by {
                    assert(lines[i].0 != line);
                }
                lemma_texts_for_absent(after, line);
            }
        }
    } else {
        assert(after.len() == lines.len() + 1);
        assert(after[p] == (a.line, seq![text]));
        assert forall|i: int| 0 <= i < p implies (#[trigger] after[i]) == lines[i] by {}
        assert forall|i: int| p < i < after.len() implies (#[trigger] after[i])
            == lines[i - 1] by {}
        assert forall|i: int| p <= i < lines.len() implies (#[trigger] lines[i]).0 > a.line by {
            if i > p {
                assert(lines[p].0 < lines[i].0);
            }
        }
        assert(ordered(after)) by {
            assert forall|i: int, j: int| 0 <= i < j < after.len() implies (#[trigger] after[i]).0
                < (#[trigger] after[j]).0 by {
                if j < p {
                    assert(lines[i].0 < lines[j].0);
                } else if j == p {
                    assert(lines[i].0 < a.line);
                } else if i < p {
                    assert(after[j] == lines[j - 1]);
                    assert(lines[i].0 < a.line);
                    assert(lines[j - 1].0 > a.line);
                } else if i == p {
                    assert(after[j] == lines[j - 1]);
                    assert(lines[j - 1].0 > a.line);
                } else {
                    assert(after[i] == lines[i - 1]);
                    assert(after[j] == lines[j - 1]);
                    assert(lines[i - 1].0 < lines[j - 1].0);
                }
            }
            assert forall|i: int| 0 <= i < after.len() implies (#[trigger] after[i]).1.len()
                > 0 by {
                if i < p {
                    assert(after[i] == lines[i]);
                } else if i > p {
                    assert(after[i] == lines[i - 1]);
                }
            }
        }
        assert forall|i: int| 0 <= i < lines.len() implies (#[trigger] lines[i]).0 != a.line by {
            if i < p {
                assert(lines[i].0 < a.line);
            } else {
                assert(lines[i].0 > a.line);
            }
        }
        lemma_texts_for_absent(lines, a.line);
        lemma_texts_for_entry(after, p);
        assert(seq![text] =~= Seq::<Seq<char>>::empty().push(text));
        assert forall|line: nat| line != a.line implies #[trigger] texts_for(after, line)
            == texts_for(lines, line) by {
            if exists|i: int| 0 <= i < lines.len() && (#[trigger] lines[i]).0 == line {
                let i = choose|i: int| 0 <= i < lines.len() && (#[trigger] lines[i]).0 == line;
                lemma_texts_for_entry(lines, i);
                if i < p {
                    assert(after[i] == lines[i]);
                    lemma_texts_for_entry(after, i);
                } else {
                    assert(after[i + 1] == lines[i]);
                    lemma_texts_for_entry(after, i + 1);
                }
            } else {
                lemma_texts_for_absent(lines, line);
                assert forall|i: int| 0 <= i < after.len() implies (#[trigger] after[i]).0
                    != line by {
                    if i < p {
                        assert(after[i] == lines[i]);
                        assert(lines[i].0 != line);
                    } else if i > p {
                        assert(after[i] == lines[i - 1]);
                        assert(lines[i - 1].0 != line);
                    }
                }
                lemma_texts_for_absent(after, line);
            }
        }
    }
}

/// The advice ordered by line: the lines ascend strictly, each line that is listed
/// has advice, and the advice listed for any line is exactly the advice anchored at
/// that line, in the order in which it was given.
pub proof fn lemma_by_line(emitted: Seq<DropAdviceModel>, n: int)
    requires
        0 <= n <= emitted.len(),
    ensures
        ordered(by_line(emitted, n)),
        forall|line: nat| #[trigger]
            texts_for(by_line(emitted, n), line) == texts_at(emitted, line, n),
    decreases n,
{
    if n <= 0 {
        assert forall|line: nat| #[trigger]
            texts_for(by_line(emitted, n), line) == texts_at(emitted, line, n) by {
            lemma_texts_for_absent(by_line(emitted, n), line);
        }
    } else {
        lemma_by_line(emitted, n - 1);
        lemma_add_advice(by_line(emitted, n - 1), emitted[n - 1]);
        assert forall|line: nat| #[trigger]
            texts_for(by_line(emitted, n), line) == texts_at(emitted, line, n) by {
            assert(texts_for(by_line(emitted, n - 1), line) == texts_at(emitted, line, n - 1));
        }
    }
}

/// Something that one of two lists holds is held by the two put together.
proof fn lemma_contains_add<A>(left: Seq<A>, right: Seq<A>, a: A)
    ensures
        (left + right).contains(a) <==> left.contains(a) || right.contains(a),
{
    if left.contains(a) {
        let i = choose|i: int| 0 <= i < left.len() && left[i] == a;
        assert((left + right)[i] == a);
    }
    if right.contains(a) {
        let i = choose|i: int| 0 <= i < right.len() && right[i] == a;
        assert((left + right)[left.len() + i] == a);
    }
    if (left + right).contains(a) {
        let i = choose|i: int| 0 <= i < (left + right).len() && (left + right)[i] == a;
        if i < left.len() {
            assert(left[i] == a);
        } else {
            assert(right[i - left.len()] == a);
        }
    }
}

/// The advice of the first `n` bindings of a scope is the advice of each of them.
proof fn lemma_scope_advice(t: TableModel, x: int, n: int, a: DropAdviceModel)
    requires
        0 <= n <= t.scopes[x].entries.len(),
    ensures
        t.scope_advice(x, n).contains(a) <==> exists|j: int|
            0 <= j < n && #[trigger] t.drop_advice_of(x, j) == Some(a),
    decreases n,
{
    if n > 0 {
        lemma_scope_advice(t, x, n - 1, a);
        let last = match t.drop_advice_of(x, n - 1) {
            Some(b) => seq![b],
            None => Seq::empty(),
        };
        lemma_contains_add(t.scope_advice(x, n - 1), last, a);
        if last.contains(a) {
            assert(last[0] == a);
            assert(t.drop_advice_of(x, n - 1) == Some(a));
        }
        if t.drop_advice_of(x, n - 1) == Some(a) {
            assert(last[0] == a);
        }
    }
}

/// A scope inside a child of `x` lies inside `x`.
proof fn lemma_within_parent(t: TableModel, y: int, c: int, x: int)
    requires
        t.wf(),
        t.within(y, c),
        t.has_scope(c),
        t.scopes[c].parent == Some(x),
    ensures
        t.within(y, x),
    decreases y,
{
    if y == c {
        assert(c > 0) by {
            assert(t.scopes[0].parent is None);
        }
        assert(0 <= x < c);
        assert(t.within(x, x));
    } else if y != x {
        match t.scopes[y].parent {
            Some(p) => {
                lemma_within_parent(t, p, c, x);
            },
            None => {},
        }
    }
}

/// Every advice of a scope and the scopes inside it is the advice for some binding
/// of one of them.
pub proof fn lemma_advice_has_origin(t: TableModel, x: int, a: DropAdviceModel) -> (at: (int, int))
    requires
        t.wf(),
        t.tree_advice(x).contains(a),
    ensures
        t.has_scope(at.0),
        t.within(at.0, x),
        0 <= at.1 < t.scopes[at.0].entries.len(),
        t.drop_advice_of(at.0, at.1) == Some(a),
    decreases t.scopes.len() - x, 1int, 0int,
{
    let own = t.scope_advice(x, t.scopes[x].entries.len() as int);
    let below = t.children_advice(x, t.scopes[x].children.len() as int);
    lemma_contains_add(own, below, a);
    if own.contains(a) {
        lemma_scope_advice(t, x, t.scopes[x].entries.len() as int, a);
        let j = choose|j: int|
            0 <= j < t.scopes[x].entries.len() && #[trigger] t.drop_advice_of(x, j) == Some(a);
        (x, j)
    } else {
        lemma_children_advice_has_origin(t, x, t.scopes[x].children.len() as int, a)
    }
}

/// Every advice of the first `k` children of a scope is the advice for some binding
/// of a scope inside it.
pub proof fn lemma_children_advice_has_origin(
    t: TableModel,
    x: int,
    k: int,
    a: DropAdviceModel,
) -> (at: (int, int))
    requires
        t.wf(),
        t.children_advice(x, k).contains(a),
    ensures
        t.has_scope(at.0),
        t.within(at.0, x),
        0 <= at.1 < t.scopes[at.0].entries.len(),
        t.drop_advice_of(at.0, at.1) == Some(a),
    decreases t.scopes.len() - x, 0int, k,
{
    let c = t.scopes[x].children[k - 1];
    let last = if x < c < t.scopes.len() {
        t.tree_advice(c)
    } else {
        Seq::empty()
    };
    lemma_contains_add(t.children_advice(x, k - 1), last, a);
    if last.contains(a) {
        let at = lemma_advice_has_origin(t, c, a);
        lemma_within_parent(t, at.0, c, x);
        at
    } else {
        lemma_children_advice_has_origin(t, x, k - 1, a)
    }
}

/// The advice of the first `k` children of a scope holds the advice of each of them.
proof fn lemma_child_advice_is_given(t: TableModel, x: int, k: int, i: int, a: DropAdviceModel)
    requires
        t.wf(),
        t.has_scope(x),
        0 <= i < k <= t.scopes[x].children.len(),
        t.tree_advice(t.scopes[x].children[i]).contains(a),
    ensures
        t.children_advice(x, k).contains(a),
    decreases k,
{
    let c = t.scopes[x].children[k - 1];
    let last = if x < c < t.scopes.len() {
        t.tree_advice(c)
    } else {
        Seq::empty()
    };
    lemma_contains_add(t.children_advice(x, k - 1), last, a);
    if i < k - 1 {
        lemma_child_advice_is_given(t, x, k - 1, i, a);
    }
}

/// The advice of a scope and the scopes inside it holds the advice of each of them.
proof fn lemma_subtree_advice_is_given(t: TableModel, y: int, x: int, a: DropAdviceModel)
    requires
        t.wf(),
        t.within(y, x),
        t.tree_advice(y).contains(a),
    ensures
        t.tree_advice(x).contains(a),
    decreases y,
{
    if y != x {
        assert(y > 0) by {
            assert(t.scopes[0].parent is None);
        }
        let p = t.scopes[y].parent->Some_0;
        let i = choose|i: int|
            0 <= i < t.scopes[p].children.len() && t.scopes[p].children[i] == y;
        lemma_child_advice_is_given(t, p, t.scopes[p].children.len() as int, i, a);
        lemma_contains_add(
            t.scope_advice(p, t.scopes[p].entries.len() as int),
            t.children_advice(p, t.scopes[p].children.len() as int),
            a,
        );
        lemma_subtree_advice_is_given(t, p, x, a);
    }
}

/// Every scope lies inside the root.
pub proof fn lemma_root_encloses_all(t: TableModel, y: int)
    requires
        t.wf(),
        t.has_scope(y),
    ensures
        t.within(y, 0),
    decreases y,
{
    if y > 0 {
        let p = t.scopes[y].parent->Some_0;
        lemma_root_encloses_all(t, p);
    }
}

/// Every scope down to the leaves is visited: the advice of a scope and the scopes
/// inside it holds the advice for any binding of any of them; so the advice of the
/// whole tree holds the advice for any binding of any scope.
pub proof fn lemma_advice_is_given(t: TableModel, x: int, y: int, j: int)
    requires
        t.wf(),
        t.within(y, x),
        0 <= j < t.scopes[y].entries.len(),
        t.drop_advice_of(y, j) is Some,
    ensures
        t.tree_advice(x).contains(t.drop_advice_of(y, j)->Some_0),
        t.drop_advice().contains(t.drop_advice_of(y, j)->Some_0),
{
    let a = t.drop_advice_of(y, j)->Some_0;
    lemma_scope_advice(t, y, t.scopes[y].entries.len() as int, a);
    lemma_contains_add(
        t.scope_advice(y, t.scopes[y].entries.len() as int),
        t.children_advice(y, t.scopes[y].children.len() as int),
        a,
    );
    lemma_subtree_advice_is_given(t, y, x, a);
    lemma_root_encloses_all(t, y);
    lemma_subtree_advice_is_given(t, y, 0, a);
}

/// Nothing that is left of a list stands at `path` or below it.
pub proof fn lemma_without_below_excludes(entries: Seq<BindingModel>, path: PathModel)
    ensures
        forall|j: int|
            0 <= j < without_below(entries, path).len() ==> !path.is_prefix_of(
                (#[trigger] without_below(entries, path)[j]).path,
            ),
    decreases entries.len(),
{
    if entries.len() > 0 {
        lemma_without_below_excludes(entries.drop_last(), path);
    }
}

/// Registering aliases adds no scope, removes none, and moves the end of none.
pub proof fn lemma_register_all_keeps_scopes(
    t: TableModel,
    s: int,
    planted: Seq<BindingModel>,
    k: int,
)
    requires
        t.wf(),
    ensures
        t.register_all(s, planted, k).0.wf(),
        t.register_all(s, planted, k).0.scopes.len() == t.scopes.len(),
        forall|x: int|
            0 <= x < t.scopes.len() ==> (#[trigger] t.register_all(s, planted, k).0.scopes[x]).end
                == t.scopes[x].end,
    decreases planted.len() - k,
{
    if 0 <= k < planted.len() {
        match planted[k].alias_target {
            None => {
                lemma_register_all_keeps_scopes(t, s, planted, k + 1);
            },
            Some(target) => match t.register_alias(s, target, planted[k].path) {
                Err(_) => {},
                Ok(next) => {
                    let at = t.locate(s, target)->Ok_0;
                    crate::model::lemma_owner_in_range(t, s, target[0]);
                    crate::path::lemma_first_index_in_range(
                        paths_of(t.scopes[at.0].entries),
                        target,
                    );
                    let b = t.scopes[at.0].entries[at.1];
                    assert(crate::model::sound(b));
                    crate::model::lemma_with_alias(b.aliased_by, planted[k].path);
                    crate::symbol_table::lemma_set_binding_wf(
                        t,
                        at.0,
                        at.1,
                        BindingModel {
                            aliased_by: crate::model::with_alias(b.aliased_by, planted[k].path),
                            ..b
                        },
                    );
                    lemma_register_all_keeps_scopes(next, s, planted, k + 1);
                    assert forall|x: int| 0 <= x < t.scopes.len() implies (#[trigger] t.register_all(
                        s,
                        planted,
                        k,
                    ).0.scopes[x]).end == t.scopes[x].end by {
                        assert(next.scopes[x].end == t.scopes[x].end);
                    }
                },
            },
        }
    }
}

/// A name that was declared resolves, from the scope of the declaration, to the
/// binding that the declaration brought: fresh, unused, and ending with that scope.
pub proof fn lemma_declared_name_resolves(
    t: TableModel,
    s: int,
    name: Seq<char>,
    classification: Ty,
    alias_target: Option<PathModel>,
    fields: Seq<(Seq<char>, Descriptor)>,
    line: nat,
)
    requires
        t.wf(),
        t.has_scope(s),
        t.declare(s, name, classification, alias_target, fields, line).1 is None,
    ensures
        t.declare(s, name, classification, alias_target, fields, line).0.resolve(s, seq![name])
            == Ok::<BindingModel, crate::error::AdvisorError>(
            fresh_binding(
                seq![name],
                classification,
                alias_target,
                carried(classification, fields).len() > 0,
                line,
                t.scopes[s].end,
            ),
        ),
{
    let path = seq![name];
    let exit = t.scopes[s].end;
    let planted = planted_bindings(path, classification, alias_target, fields, line, exit);
    let registered = t.register_all(s, planted, 0).0;
    lemma_register_all_keeps_scopes(t, s, planted, 0);
    let after = registered.install(s, path, planted);
    assert(after == t.declare(s, name, classification, alias_target, fields, line).0);
    let kept = without_below(registered.scopes[s].entries, path);
    lemma_without_below_excludes(registered.scopes[s].entries, path);
    let entries = after.scopes[s].entries;
    assert(entries == kept + planted);
    let at = kept.len() as int;
    assert(entries[at] == planted[0]);
    assert forall|j: int| 0 <= j < at implies paths_of(entries)[j] != path by {
        assert(entries[j] == kept[j]);
        if kept[j].path == path {
            assert(path.is_prefix_of(kept[j].path)) by {
                assert(path =~= kept[j].path.subrange(0, path.len() as int));
            }
        }
    }
    lemma_first_index(paths_of(entries), path, at);
    assert(find_entry(entries, path) == Some(at));
    assert(path[0] == name);
    assert(after.owner(s, name) == Some(s));
}

/// After the scopes opened since a count are given up, no advice stems from any of
/// them.
pub proof fn lemma_abandoned_scope_gets_no_advice(t: TableModel, first: int, x: int)
    requires
        t.wf(),
        t.has_scope(x),
        first <= x,
    ensures
        t.abandon_since(first).tree_advice(x) == Seq::<DropAdviceModel>::empty(),
    decreases t.scopes.len() - x, 1int, 0int,
{
    let after = t.abandon_since(first);
    lemma_abandoned_bindings_get_no_advice(t, first, x, after.scopes[x].entries.len() as int);
    lemma_abandoned_children_get_no_advice(t, first, x, after.scopes[x].children.len() as int);
    assert(after.tree_advice(x) =~= Seq::<DropAdviceModel>::empty());
}

/// After the scopes opened since a count are given up, no advice stems from the
/// bindings of any of them.
proof fn lemma_abandoned_bindings_get_no_advice(t: TableModel, first: int, x: int, n: int)
    requires
        t.has_scope(x),
        first <= x,
        0 <= n <= t.scopes[x].entries.len(),
    ensures
        t.abandon_since(first).scope_advice(x, n) == Seq::<DropAdviceModel>::empty(),
    decreases n,
{
    let after = t.abandon_since(first);
    if n > 0 {
        lemma_abandoned_bindings_get_no_advice(t, first, x, n - 1);
        assert(after.scopes[x].abandoned);
        assert(after.drop_advice_of(x, n - 1) is None);
        assert(after.scope_advice(x, n) =~= Seq::<DropAdviceModel>::empty());
    }
}

/// After the scopes opened since a count are given up, no advice stems from the
/// children of any of them.
pub proof fn lemma_abandoned_children_get_no_advice(t: TableModel, first: int, x: int, k: int)
    requires
        t.wf(),
        t.has_scope(x),
        first <= x,
        0 <= k <= t.scopes[x].children.len(),
    ensures
        t.abandon_since(first).children_advice(x, k) == Seq::<DropAdviceModel>::empty(),
    decreases t.scopes.len() - x, 0int, k,
{
    let after = t.abandon_since(first);
    assert(after.scopes[x].children == t.scopes[x].children);
    if k > 0 {
        let c = t.scopes[x].children[k - 1];
        assert(x < c < t.scopes.len());
        lemma_abandoned_children_get_no_advice(t, first, x, k - 1);
        lemma_abandoned_scope_gets_no_advice(t, first, c);
        assert(after.children_advice(x, k) =~= Seq::<DropAdviceModel>::empty());
    }
}

/// Giving up deletes nothing: every scope keeps what it holds; the scopes opened
/// since the count are given up, and the others are as they were.
pub proof fn lemma_abandon_keeps_what_is_recorded(t: TableModel, first: int, x: int)
    requires
        t.has_scope(x),
    ensures
        t.abandon_since(first).scopes[x].entries == t.scopes[x].entries,
        t.abandon_since(first).scopes[x].calls == t.scopes[x].calls,
        t.abandon_since(first).scopes[x].abandoned == (t.scopes[x].abandoned || first <= x),
{
}

/// The analysis reads the table and changes nothing, and its report is a function of
/// the table: two reports of one table are the same.
pub proof fn lemma_analysis_is_repeatable(t: TableModel, first: Report, second: Report)
    requires
        first@ == t.report(),
        second@ == t.report(),
    ensures
        first@ == second@,
{
}

/// Whether two bindings are one declaration: they agree in all that a declaration
/// fixes, and may differ in what the walk records of the binding later.
pub open spec fn same_declaration(a: BindingModel, b: BindingModel) -> bool {
    &&& a.path == b.path
    &&& a.declared_at == b.declared_at
    &&& a.classification == b.classification
    &&& a.alias_target == b.alias_target
    &&& a.scope_exit_at == b.scope_exit_at
    &&& a.record == b.record
}

/// Whether two trees hold the same declarations, place by place.
pub open spec fn same_declarations(a: TableModel, b: TableModel) -> bool {
    &&& a.scopes.len() == b.scopes.len()
    &&& forall|o: int|
        0 <= o < a.scopes.len() ==> (#[trigger] a.scopes[o]).entries.len()
            == b.scopes[o].entries.len()
    &&& forall|o: int, i: int|
        0 <= o < a.scopes.len() && 0 <= i < a.scopes[o].entries.len() ==> same_declaration(
            #[trigger] a.scopes[o].entries[i],
            b.scopes[o].entries[i],
        )
}

/// Replacing a binding by one of the same declaration keeps the declarations.
proof fn lemma_set_binding_keeps_declarations(t: TableModel, o: int, i: int, b: BindingModel)
    requires
        t.has_scope(o),
        0 <= i < t.scopes[o].entries.len(),
        same_declaration(b, t.scopes[o].entries[i]),
    ensures
        same_declarations(t.set_binding(o, i, b), t),
{
    let after = t.set_binding(o, i, b);
    assert forall|x: int, j: int|
        0 <= x < after.scopes.len() && 0 <= j < after.scopes[x].entries.len() implies same_declaration(
        #[trigger] after.scopes[x].entries[j],
        t.scopes[x].entries[j],
    ) by {
        if x == o && j == i {
        } else if x == o {
            assert(after.scopes[x].entries[j] == t.scopes[x].entries[j]);
        } else {
            assert(after.scopes[x] == t.scopes[x]);
        }
    }
}

/// The place that a path resolves to is a place of the tree.
proof fn lemma_locate_in_range(t: TableModel, s: int, path: PathModel)
    ensures
        t.locate(s, path) matches Ok(at) ==> t.has_scope(at.0) && 0 <= at.1
            < t.scopes[at.0].entries.len() && t.scopes[at.0].entries[at.1].path == path,
{
    if path.len() > 0 {
        crate::model::lemma_owner_in_range(t, s, path[0]);
        match t.owner(s, path[0]) {
            Some(o) => {
                crate::path::lemma_first_index_in_range(paths_of(t.scopes[o].entries), path);
            },
            None => {},
        }
    }
}

/// What the walk records of a binding never changes its declaration: a use, a read,
/// a registered alias and a widened region leave every binding where it is, with its
/// path, its classification, the line of its declaration and the end of its scope.
pub proof fn lemma_records_keep_declarations(
    t: TableModel,
    s: int,
    path: PathModel,
    other: PathModel,
    line: nat,
    end: nat,
    depth: nat,
)
    ensures
        t.record_use(s, path, line) matches Ok(after) ==> same_declarations(after, t),
        t.record_last_used(s, path, line) matches Ok(after) ==> same_declarations(after, t),
        t.register_alias(s, path, other) matches Ok(after) ==> same_declarations(after, t),
        same_declarations(t.widen_last_use(s, line, end, depth), t),
        same_declarations(t.widen_call_sites(s, line, end, depth), t),
        same_declarations(t.abandon_since(s), t),
{
    lemma_locate_in_range(t, s, path);
    match t.locate(s, path) {
        Ok(at) => {
            let b = t.scopes[at.0].entries[at.1];
            lemma_set_binding_keeps_declarations(
                t,
                at.0,
                at.1,
                BindingModel { moved: true, last_used_at: Some(line), ..b },
            );
            lemma_set_binding_keeps_declarations(
                t,
                at.0,
                at.1,
                BindingModel { last_used_at: Some(line), ..b },
            );
            lemma_set_binding_keeps_declarations(
                t,
                at.0,
                at.1,
                BindingModel { aliased_by: crate::model::with_alias(b.aliased_by, other), ..b },
            );
        },
        Err(_) => {},
    }
}

/// What begins a path that begins another path begins that path too.
proof fn lemma_prefix_of_prefix(a: PathModel, b: PathModel, c: PathModel)
    requires
        a.is_prefix_of(b),
        b.is_prefix_of(c),
    ensures
        a.is_prefix_of(c),
{
    assert(a =~= c.subrange(0, a.len() as int)) by {
        assert forall|i: int| 0 <= i < a.len() implies a[i] == c.subrange(0, a.len() as int)[i] by {
            assert(a[i] == b.subrange(0, a.len() as int)[i]);
            assert(b[i] == c.subrange(0, b.len() as int)[i]);
        }
    }
}

/// Every binding that a declaration of `path` brings stands at `path` or below it.
pub proof fn lemma_planted_below(
    path: PathModel,
    classification: Ty,
    alias_target: Option<PathModel>,
    fields: Seq<(Seq<char>, Descriptor)>,
    line: nat,
    exit: nat,
)
    ensures
        forall|k: int|
            0 <= k < planted_bindings(path, classification, alias_target, fields, line, exit).len()
                ==> path.is_prefix_of(
                (#[trigger] planted_bindings(
                    path,
                    classification,
                    alias_target,
                    fields,
                    line,
                    exit,
                )[k]).path,
            ),
    decreases fields, 1int,
{
    let planted = planted_bindings(path, classification, alias_target, fields, line, exit);
    assert(path.is_prefix_of(path)) by {
        assert(path =~= path.subrange(0, path.len() as int));
    }
    if classification == Ty::NonPrimitive {
        lemma_nested_below(path, fields, line, exit);
        let nested = nested_bindings(path, fields, line, exit);
        assert forall|k: int| 0 <= k < planted.len() implies path.is_prefix_of(
            (#[trigger] planted[k]).path,
        ) by {
            if k > 0 {
                assert(planted[k] == nested[k - 1]);
                let j = choose|j: int|
                    0 <= j < fields.len() && path.push(fields[j].0).is_prefix_of(nested[k - 1].path);
                assert(path.is_prefix_of(path.push(fields[j].0))) by {
                    assert(path =~= path.push(fields[j].0).subrange(0, path.len() as int));
                }
                lemma_prefix_of_prefix(path, path.push(fields[j].0), nested[k - 1].path);
            }
        }
    }
}

/// Every binding of the fields below `prefix` stands at one of the fields or below it.
pub proof fn lemma_nested_below(
    prefix: PathModel,
    fields: Seq<(Seq<char>, Descriptor)>,
    line: nat,
    exit: nat,
)
    ensures
        forall|k: int|
            0 <= k < nested_bindings(prefix, fields, line, exit).len() ==> exists|j: int|
                0 <= j < fields.len() && prefix.push(fields[j].0).is_prefix_of(
                    (#[trigger] nested_bindings(prefix, fields, line, exit)[k]).path,
                ),
    decreases fields, 0int,
{
    if fields.len() > 0 {
        let nested = nested_bindings(prefix, fields, line, exit);
        let field = fields.last();
        let before = nested_bindings(prefix, fields.drop_last(), line, exit);
        lemma_nested_below(prefix, fields.drop_last(), line, exit);
        match field.1.classification {
            Some(ty) => {
                lemma_planted_below(
                    prefix.push(field.0),
                    ty,
                    field.1.alias_target,
                    field.1.fields,
                    line,
                    exit,
                );
            },
            None => {},
        }
        assert forall|k: int| 0 <= k < nested.len() implies exists|j: int|
            0 <= j < fields.len() && prefix.push(fields[j].0).is_prefix_of(
                (#[trigger] nested[k]).path,
            ) by {
            if k < before.len() {
                assert(nested[k] == before[k]);
                let j = choose|j: int|
                    0 <= j < fields.drop_last().len() && prefix.push(
                        fields.drop_last()[j].0,
                    ).is_prefix_of(before[k].path);
                assert(fields[j] == fields.drop_last()[j]);
            } else {
                let j = fields.len() - 1;
                assert(prefix.push(fields[j].0).is_prefix_of(nested[k].path));
            }
        }
    }
}

/// The bindings of the fields below `prefix` begin with those of the first `i`
/// fields; the binding of the field at `i` comes next.
pub proof fn lemma_nested_field(
    prefix: PathModel,
    fields: Seq<(Seq<char>, Descriptor)>,
    line: nat,
    exit: nat,
    i: int,
)
    requires
        0 <= i < fields.len(),
        fields[i].1.classification is Some,
    ensures
        ({
            let before = nested_bindings(prefix, fields.take(i), line, exit);
            let whole = nested_bindings(prefix, fields, line, exit);
            &&& before.len() < whole.len()
            &&& forall|k: int| 0 <= k < before.len() ==> (#[trigger] whole[k]) == before[k]
            &&& whole[before.len() as int] == fresh_binding(
                prefix.push(fields[i].0),
                fields[i].1.classification->Some_0,
                fields[i].1.alias_target,
                carried(fields[i].1.classification->Some_0, fields[i].1.fields).len() > 0,
                line,
                exit,
            )
        }),
    decreases fields.len(),
{
    let m = fields.len() - 1;
    let whole = nested_bindings(prefix, fields, line, exit);
    let front = nested_bindings(prefix, fields.drop_last(), line, exit);
    let last = fields.last();
    let part = match last.1.classification {
        Some(ty) => planted_bindings(
            prefix.push(last.0),
            ty,
            last.1.alias_target,
            last.1.fields,
            line,
            exit,
        ),
        None => Seq::empty(),
    };
    assert(whole == front + part);
    if i == m {
        assert(fields.take(i) =~= fields.drop_last());
        assert(fields[i] == last);
        assert(part.len() > 0);
        assert(whole[front.len() as int] == part[0]);
        assert forall|k: int| 0 <= k < front.len() implies (#[trigger] whole[k]) == front[k] by {}
    } else {
        assert(fields.drop_last().take(i) =~= fields.take(i));
        assert(fields.drop_last()[i] == fields[i]);
        lemma_nested_field(prefix, fields.drop_last(), line, exit, i);
        let before = nested_bindings(prefix, fields.take(i), line, exit);
        assert(before.len() < front.len());
        assert forall|k: int| 0 <= k < before.len() implies (#[trigger] whole[k]) == before[k] by {
            assert(whole[k] == front[k]);
            assert(front[k] == before[k]);
        }
        assert(whole[before.len() as int] == front[before.len() as int]);
    }
}

/// A field of a record that was declared resolves to the binding that the declaration
/// brought for it: the fields of a binding stand in its scope under their full paths,
/// each name standing for the first field that bears it.
pub proof fn lemma_declared_field_resolves(
    t: TableModel,
    s: int,
    name: Seq<char>,
    alias_target: Option<PathModel>,
    fields: Seq<(Seq<char>, Descriptor)>,
    line: nat,
    i: int,
)
    requires
        t.wf(),
        t.has_scope(s),
        0 <= i < fields.len(),
        fields[i].1.classification is Some,
        forall|j: int| 0 <= j < i ==> (#[trigger] fields[j]).0 != fields[i].0,
        t.declare(s, name, Ty::NonPrimitive, alias_target, fields, line).1 is None,
    ensures
        t.declare(s, name, Ty::NonPrimitive, alias_target, fields, line).0.resolve(
            s,
            seq![name, fields[i].0],
        ) == Ok::<BindingModel, crate::error::AdvisorError>(
            fresh_binding(
                seq![name, fields[i].0],
                fields[i].1.classification->Some_0,
                fields[i].1.alias_target,
                carried(fields[i].1.classification->Some_0, fields[i].1.fields).len() > 0,
                line,
                t.scopes[s].end,
            ),
        ),
{
    let root = seq![name];
    let path = seq![name, fields[i].0];
    assert(path =~= root.push(fields[i].0));
    let exit = t.scopes[s].end;
    let planted = planted_bindings(root, Ty::NonPrimitive, alias_target, fields, line, exit);
    let registered = t.register_all(s, planted, 0).0;
    lemma_register_all_keeps_scopes(t, s, planted, 0);
    let after = registered.install(s, root, planted);
    assert(after == t.declare(s, name, Ty::NonPrimitive, alias_target, fields, line).0);
    let kept = without_below(registered.scopes[s].entries, root);
    lemma_without_below_excludes(registered.scopes[s].entries, root);
    let entries = after.scopes[s].entries;
    assert(entries == kept + planted);
    let nested = nested_bindings(root, fields, line, exit);
    let before = nested_bindings(root, fields.take(i), line, exit);
    lemma_nested_field(root, fields, line, exit, i);
    lemma_nested_below(root, fields.take(i), line, exit);
    let at = (kept.len() + 1 + before.len()) as int;
    assert(planted[1 + before.len() as int] == nested[before.len() as int]);
    assert(entries[at] == nested[before.len() as int]);
    assert(root.is_prefix_of(path)) by {
        assert(root =~= path.subrange(0, 1));
    }
    assert forall|k: int| 0 <= k < at implies paths_of(entries)[k] != path by {
        if k < kept.len() {
            assert(entries[k] == kept[k]);
        } else if k == kept.len() {
            assert(entries[k] == planted[0]);
            assert(planted[0].path.len() == 1);
        } else {
            let n = k - kept.len() - 1;
            assert(entries[k] == planted[n + 1]);
            assert(planted[n + 1] == nested[n]);
            assert(nested[n] == before[n]);
            let j = choose|j: int|
                0 <= j < fields.take(i).len() && root.push(fields.take(i)[j].0).is_prefix_of(
                    before[n].path,
                );
            assert(fields.take(i)[j] == fields[j]);
            let under = root.push(fields[j].0);
            if before[n].path == path {
                assert(under =~= path.subrange(0, 2));
                assert(under[1] == path[1]);
            }
        }
    }
    lemma_first_index(paths_of(entries), path, at);
    assert(find_entry(entries, path) == Some(at));
    // The root name is bound in the scope of the declaration.
    let first = kept.len() as int;
    assert(entries[first] == planted[0]);
    assert forall|k: int| 0 <= k < first implies paths_of(entries)[k] != root by {
        assert(entries[k] == kept[k]);
        if kept[k].path == root {
            assert(root.is_prefix_of(kept[k].path)) by {
                assert(root =~= kept[k].path.subrange(0, root.len() as int));
            }
        }
    }
    lemma_first_index(paths_of(entries), root, first);
    assert(path[0] == name);
    assert(after.owner(s, name) == Some(s));
}

/// Whether `after` gives up no scope that `before` does not: each scope of `before`
/// is given up in `after` exactly if it is in `before`, and no new scope is.
pub open spec fn gives_nothing_up(after: TableModel, before: TableModel) -> bool {
    &&& after.scopes.len() >= before.scopes.len()
    &&& forall|x: int|
        0 <= x < after.scopes.len() ==> ((#[trigger] after.scopes[x]).abandoned <==> x
            < before.scopes.len() && before.scopes[x].abandoned)
}

proof fn lemma_gives_nothing_up_trans(c: TableModel, b: TableModel, a: TableModel)
    requires
        gives_nothing_up(c, b),
        gives_nothing_up(b, a),
    ensures
        gives_nothing_up(c, a),
{
    assert forall|x: int| 0 <= x < c.scopes.len() implies ((#[trigger] c.scopes[x]).abandoned <==> x
        < a.scopes.len() && a.scopes[x].abandoned) by {
        if x < b.scopes.len() {
            assert(b.scopes[x].abandoned <==> x < a.scopes.len() && a.scopes[x].abandoned);
        }
    }
}

proof fn lemma_records_give_nothing_up(t: TableModel, s: int, path: PathModel, other: PathModel, line: nat)
    ensures
        t.record_use(s, path, line) matches Ok(after) ==> gives_nothing_up(after, t),
        t.record_last_used(s, path, line) matches Ok(after) ==> gives_nothing_up(after, t),
        t.register_alias(s, path, other) matches Ok(after) ==> gives_nothing_up(after, t),
{
    lemma_locate_in_range(t, s, path);
}

proof fn lemma_use_gives_nothing_up(t: TableModel, s: int, ex: Expr, d: Descriptor, line: nat)
    ensures
        t.use_value(s, d, line) matches Ok(after) ==> gives_nothing_up(after, t),
        t.use_once(s, ex, d, line) matches Ok(after) ==> gives_nothing_up(after, t),
{
    match d.identity {
        Some(path) => lemma_records_give_nothing_up(t, s, path, path, line),
        None => match d.alias_target {
            Some(target) => lemma_records_give_nothing_up(t, s, target, target, line),
            None => {},
        },
    }
}

proof fn lemma_register_all_gives_nothing_up(t: TableModel, s: int, planted: Seq<BindingModel>, k: int)
    ensures
        gives_nothing_up(t.register_all(s, planted, k).0, t),
    decreases planted.len() - k,
{
    if 0 <= k < planted.len() {
        match planted[k].alias_target {
            None => lemma_register_all_gives_nothing_up(t, s, planted, k + 1),
            Some(target) => match t.register_alias(s, target, planted[k].path) {
                Err(_) => {},
                Ok(next) => {
                    lemma_records_give_nothing_up(t, s, target, planted[k].path, 0);
                    lemma_register_all_gives_nothing_up(next, s, planted, k + 1);
                    lemma_gives_nothing_up_trans(next.register_all(s, planted, k + 1).0, next, t);
                },
            },
        }
    }
}

proof fn lemma_plant_gives_nothing_up(
    t: TableModel,
    s: int,
    o: int,
    path: PathModel,
    classification: Ty,
    alias_target: Option<PathModel>,
    fields: Seq<(Seq<char>, Descriptor)>,
    line: nat,
)
    requires
        t.has_scope(o),
    ensures
        gives_nothing_up(t.plant(s, o, path, classification, alias_target, fields, line).0, t),
{
    let planted = planted_bindings(path, classification, alias_target, fields, line, t.scopes[o].end);
    let registered = t.register_all(s, planted, 0);
    lemma_register_all_gives_nothing_up(t, s, planted, 0);
    if registered.1 is None {
        let after = registered.0.install(o, path, planted);
        assert(gives_nothing_up(after, registered.0));
        lemma_gives_nothing_up_trans(after, registered.0, t);
    }
}

proof fn lemma_declare_gives_nothing_up(
    t: TableModel,
    s: int,
    path: PathModel,
    classification: Ty,
    alias_target: Option<PathModel>,
    fields: Seq<(Seq<char>, Descriptor)>,
    line: nat,
)
    requires
        t.has_scope(s),
    ensures
        path.len() == 1 ==> gives_nothing_up(
            t.declare(s, path[0], classification, alias_target, fields, line).0,
            t,
        ),
        gives_nothing_up(t.assign(s, path, classification, alias_target, fields, line).0, t),
{
    lemma_locate_in_range(t, s, path);
    lemma_plant_gives_nothing_up(t, s, s, path, classification, alias_target, fields, line);
    if path.len() == 1 {
        assert(seq![path[0]] =~= path);
    }
    match t.locate(s, path) {
        Ok(at) => lemma_plant_gives_nothing_up(
            t,
            s,
            at.0,
            path,
            classification,
            alias_target,
            fields,
            line,
        ),
        Err(_) => {},
    }
}

proof fn lemma_observe_args_gives_nothing_up(t: TableModel, s: int, args: Seq<Expr>, line: nat)
    ensures
        gives_nothing_up(t.observe_args(s, args, line).0, t),
    decreases args.len(),
{
    if args.len() > 0 {
        lemma_observe_args_gives_nothing_up(t, s, args.drop_last(), line);
        let before = t.observe_args(s, args.drop_last(), line);
        match before.1 {
            Err(_) => {},
            Ok(_) => match resolve_spec(before.0, s, args.last()) {
                Err(_) => {},
                Ok(d) => {
                    lemma_use_gives_nothing_up(before.0, s, args.last(), d, line);
                    match before.0.use_once(s, args.last(), d, line) {
                        Err(_) => {},
                        Ok(after) => lemma_gives_nothing_up_trans(after, before.0, t),
                    }
                },
            },
        }
    }
}

proof fn lemma_observe_call_gives_nothing_up(
    t: TableModel,
    s: int,
    name: Seq<char>,
    receiver: Option<PathModel>,
    args: Seq<Expr>,
    line: nat,
)
    requires
        t.has_scope(s),
    ensures
        gives_nothing_up(t.observe_call(s, name, receiver, args, line).0, t),
{
    lemma_observe_args_gives_nothing_up(t, s, args, line);
    let seen = t.observe_args(s, args, line);
    match seen.1 {
        Err(_) => {},
        Ok(paths) => {
            let call = crate::model::CallModel { function: name, receiver, arguments: paths, line };
            assert(gives_nothing_up(seen.0.record_call(s, call), seen.0));
            lemma_gives_nothing_up_trans(seen.0.record_call(s, call), seen.0, t);
        },
    }
}

proof fn lemma_visit_mac_gives_nothing_up(t: TableModel, s: int, idents: Seq<Seq<char>>, line: nat)
    ensures
        gives_nothing_up(t.visit_mac(s, idents, line).0, t),
    decreases idents.len(),
{
    if idents.len() > 0 {
        lemma_visit_mac_gives_nothing_up(t, s, idents.drop_last(), line);
        let before = t.visit_mac(s, idents.drop_last(), line);
        if before.1 is None {
            lemma_records_give_nothing_up(before.0, s, seq![idents.last()], seq![], line);
            match before.0.record_last_used(s, seq![idents.last()], line) {
                Ok(after) => lemma_gives_nothing_up_trans(after, before.0, t),
                Err(_) => {},
            }
        }
    }
}

/// Only giving up gives a scope up: whatever the walk does to the table, each scope
/// that was there is given up afterwards exactly if it was before, and a scope that
/// the walk opens is not. So a table on which `abandon_since` was never called has
/// no scope that is given up.
pub proof fn lemma_walk_gives_nothing_up(
    t: TableModel,
    s: int,
    stmt: Stmt,
    ex: Expr,
    idents: Seq<Seq<char>>,
    lo: nat,
    hi: nat,
)
    requires
        t.has_scope(s),
    ensures
        gives_nothing_up(t.open_scope(s, lo, hi), t),
        gives_nothing_up(t.visit_stmt(s, stmt).0, t),
        gives_nothing_up(t.visit_expr(s, ex, lo, hi).0, t),
        gives_nothing_up(t.leave_expr(s, ex, lo, hi), t),
        gives_nothing_up(t.visit_mac(s, idents, hi).0, t),
        t.nothing_given_up() ==> {
            &&& t.open_scope(s, lo, hi).nothing_given_up()
            &&& t.visit_stmt(s, stmt).0.nothing_given_up()
            &&& t.visit_expr(s, ex, lo, hi).0.nothing_given_up()
            &&& t.leave_expr(s, ex, lo, hi).nothing_given_up()
            &&& t.visit_mac(s, idents, hi).0.nothing_given_up()
        },
{
    lemma_visit_mac_gives_nothing_up(t, s, idents, hi);
    // A statement.
    match stmt {
        Stmt::Local(pattern, init, line) => match resolve_spec(t, s, init) {
            Err(_) => {},
            Ok(d) => {
                lemma_use_gives_nothing_up(t, s, init, d, line as nat);
                match t.use_once(s, init, d, line as nat) {
                    Err(_) => {},
                    Ok(used) => match (d.classification, pattern) {
                        (Some(ty), Pattern::Ident(name, at)) => {
                            lemma_declare_gives_nothing_up(
                                used,
                                s,
                                seq![name@],
                                ty,
                                d.alias_target,
                                d.fields,
                                at as nat,
                            );
                            lemma_gives_nothing_up_trans(
                                used.declare(s, name@, ty, d.alias_target, d.fields, at as nat).0,
                                used,
                                t,
                            );
                        },
                        _ => {},
                    },
                }
            },
        },
        Stmt::Other => {},
    }
    // An expression that is entered.
    match ex {
        Expr::Match(scrutinee) => match resolve_spec(t, s, *scrutinee) {
            Ok(d) => lemma_use_gives_nothing_up(t, s, *scrutinee, d, hi),
            Err(_) => {},
        },
        Expr::MethodCall(name, receiver, args) => match resolve_spec(t, s, *receiver) {
            Ok(d) => lemma_observe_call_gives_nothing_up(t, s, name@, d.identity, args@, hi),
            Err(_) => {},
        },
        Expr::Call(callee, args) => lemma_observe_call_gives_nothing_up(
            t,
            s,
            crate::visitor::callee_name(*callee),
            None,
            args@,
            hi,
        ),
        Expr::Assign(target, value) => match resolve_spec(t, s, *target) {
            Err(_) => {},
            Ok(td) => match resolve_spec(t, s, *value) {
                Err(_) => {},
                Ok(vd) => {
                    lemma_use_gives_nothing_up(t, s, *value, vd, hi);
                    match t.use_once(s, *value, vd, hi) {
                        Err(_) => {},
                        Ok(used) => match (td.identity, vd.classification) {
                            (Some(path), Some(ty)) => {
                                lemma_declare_gives_nothing_up(
                                    used,
                                    s,
                                    path,
                                    ty,
                                    vd.alias_target,
                                    vd.fields,
                                    lo,
                                );
                                lemma_gives_nothing_up_trans(
                                    used.assign(s, path, ty, vd.alias_target, vd.fields, lo).0,
                                    used,
                                    t,
                                );
                            },
                            _ => {},
                        },
                    }
                },
            },
        },
        Expr::Binary(comparison, left, right) => if !comparison {
            match resolve_spec(t, s, *left) {
                Err(_) => {},
                Ok(ld) => match resolve_spec(t, s, *right) {
                    Err(_) => {},
                    Ok(rd) => {
                        lemma_use_gives_nothing_up(t, s, *left, ld, hi);
                        match t.use_value(s, ld, hi) {
                            Err(_) => {},
                            Ok(first) => {
                                lemma_use_gives_nothing_up(first, s, *right, rd, hi);
                                match first.use_value(s, rd, hi) {
                                    Err(_) => {},
                                    Ok(second) => lemma_gives_nothing_up_trans(second, first, t),
                                }
                            },
                        }
                    },
                },
            }
        },
        _ => {},
    }
    // An expression that is left.
    let widened = t.widen_last_use(s, lo, hi, 2);
    assert(gives_nothing_up(widened, t));
    assert(gives_nothing_up(widened.widen_call_sites(s, lo, hi, 2), widened));
    lemma_gives_nothing_up_trans(widened.widen_call_sites(s, lo, hi, 2), widened, t);
    let first = t.widen_call_sites(s, lo, hi, 1);
    assert(gives_nothing_up(first, t));
    assert(gives_nothing_up(first.widen_last_use(s, lo, hi, 1), first));
    lemma_gives_nothing_up_trans(first.widen_last_use(s, lo, hi, 1), first, t);
}

/// A call is recorded with one place for each of its arguments, in order: the place
/// of an argument holds the path that the argument names or refers to, as it resolves
/// once the arguments before it are used, and is empty for an argument without one.
pub proof fn lemma_call_keeps_argument_places(t: TableModel, s: int, args: Seq<Expr>, line: nat, i: int)
    requires
        t.observe_args(s, args, line).1 is Ok,
        0 <= i < args.len(),
    ensures
        t.observe_args(s, args, line).1->Ok_0.len() == args.len(),
        t.observe_args(s, args.take(i), line).1 is Ok,
        resolve_spec(t.observe_args(s, args.take(i), line).0, s, args[i]) matches Ok(d)
            && t.observe_args(s, args, line).1->Ok_0[i] == crate::visitor::argument_path(d),
    decreases args.len(),
{
    let rest = args.drop_last();
    let before = t.observe_args(s, rest, line);
    if i < args.len() - 1 {
        lemma_call_keeps_argument_places(t, s, rest, line, i);
        assert(rest.take(i) =~= args.take(i));
        assert(rest[i] == args[i]);
    } else {
        assert(args.take(i) =~= rest);
        lemma_observe_args_length(t, s, rest, line);
    }
}

/// The record of the arguments of a call has one place for each argument.
proof fn lemma_observe_args_length(t: TableModel, s: int, args: Seq<Expr>, line: nat)
    ensures
        t.observe_args(s, args, line).1 matches Ok(paths) ==> paths.len() == args.len(),
    decreases args.len(),
{
    if args.len() > 0 {
        lemma_observe_args_length(t, s, args.drop_last(), line);
    }
}

/// A value is used once: what holds an expression leaves the use to the walk into
/// the expression where that walk uses the value, and uses the value itself where
/// it does not; an operation that is entered uses its operands, and the walk does not
/// go on into them.
pub proof fn lemma_value_is_used_once(
    t: TableModel,
    s: int,
    ex: Expr,
    d: Descriptor,
    lo: nat,
    hi: nat,
)
    ensures
        crate::visitor::uses_own_value(ex) ==> t.use_once(s, ex, d, hi) == Ok::<
            TableModel,
            crate::error::AdvisorError,
        >(t),
        !crate::visitor::uses_own_value(ex) ==> t.use_once(s, ex, d, hi) == t.use_value(s, d, hi),
        ex is Binary ==> t.visit_expr(s, ex, lo, hi).1 != Ok::<bool, crate::error::AdvisorError>(
            true,
        ),
{
}

} // verus!
