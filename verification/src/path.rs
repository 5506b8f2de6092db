use vstd::prelude::*;

verus! {

/// A path as the contracts see it: the name of a root binding, then the names of
/// nested fields.
pub type PathModel = Seq<Seq<char>>;

/// The view of a path that may be absent.
pub open spec fn path_opt_view(p: Option<Vec<String>>) -> Option<PathModel> {
    match p {
        Some(v) => Some(v.deep_view()),
        None => None,
    }
}

/// `s[i]` is the first element of `s` that equals `x`.
pub proof fn lemma_first_index<A>(s: Seq<A>, x: A, i: int)
    requires
        0 <= i < s.len(),
        s[i] == x,
        forall|j: int| 0 <= j < i ==> s[j] != x,
    ensures
        s.index_of_first(x) == Some(i),
{
    s.index_of_first_ensures(x);
    assert(s.contains(x));
}

/// No element of `s` equals `x`.
pub proof fn lemma_no_index<A>(s: Seq<A>, x: A)
    requires
        forall|j: int| 0 <= j < s.len() ==> s[j] != x,
    ensures
        s.index_of_first(x) is None,
{
    s.index_of_first_ensures(x);
}

/// An index found by `index_of_first` lies in the sequence.
pub proof fn lemma_first_index_in_range<A>(s: Seq<A>, x: A)
    ensures
        s.index_of_first(x) matches Some(i) ==> 0 <= i < s.len() && s[i] == x,
{
    s.index_of_first_ensures(x);
}

/// Whether two paths consist of the same names.
pub fn path_eq(a: &Vec<String>, b: &Vec<String>) -> (same: bool)
    ensures
        same == (a.deep_view() == b.deep_view()),
{
    if a.len() != b.len() {
        assert(a.deep_view().len() != b.deep_view().len());
        return false;
    }
    let mut i: usize = 0;
    while i < a.len()
        invariant
            i <= a.len(),
            a.len() == b.len(),
            forall|j: int| 0 <= j < i ==> a@[j]@ == b@[j]@,
        decreases a.len() - i,
    {
        if a[i] != b[i] {
            assert(a.deep_view()[i as int] != b.deep_view()[i as int]);
            return false;
        }
        i += 1;
    }
    assert(a.deep_view() =~= b.deep_view());
    true
}

/// Whether a list of paths holds `path`.
pub fn contains_path(list: &Vec<Vec<String>>, path: &Vec<String>) -> (yes: bool)
    ensures
        yes == list.deep_view().contains(path.deep_view()),
{
    let mut i: usize = 0;
    while i < list.len()
        invariant
            i <= list.len(),
            forall|j: int| 0 <= j < i ==> list.deep_view()[j] != path.deep_view(),
        decreases list.len() - i,
    {
        if path_eq(&list[i], path) {
            assert(list.deep_view()[i as int] == path.deep_view());
            return true;
        }
        i += 1;
    }
    false
}

/// Whether `path` begins with all the names of `prefix`, in order.
pub fn has_prefix(path: &Vec<String>, prefix: &Vec<String>) -> (yes: bool)
    ensures
        yes == prefix.deep_view().is_prefix_of(path.deep_view()),
{
    if prefix.len() > path.len() {
        return false;
    }
    let mut i: usize = 0;
    while i < prefix.len()
        invariant
            i <= prefix.len(),
            prefix.len() <= path.len(),
            forall|j: int| 0 <= j < i ==> path@[j]@ == prefix@[j]@,
        decreases prefix.len() - i,
    {
        if path[i] != prefix[i] {
            assert(path.deep_view()[i as int] != prefix.deep_view()[i as int]);
            return false;
        }
        i += 1;
    }
    assert(prefix.deep_view() =~= path.deep_view().subrange(0, prefix.deep_view().len() as int));
    true
}

/// A copy of a path.
pub fn clone_path(p: &Vec<String>) -> (copy: Vec<String>)
    ensures
        copy.deep_view() == p.deep_view(),
{
    let mut copy: Vec<String> = Vec::new();
    let mut i: usize = 0;
    while i < p.len()
        invariant
            i <= p.len(),
            copy.len() == i,
            forall|j: int| 0 <= j < i ==> copy@[j]@ == p@[j]@,
        decreases p.len() - i,
    {
        copy.push(p[i].clone());
        i += 1;
    }
    assert(copy.deep_view() =~= p.deep_view());
    copy
}

/// A copy of a path that may be absent.
pub fn clone_path_opt(p: &Option<Vec<String>>) -> (copy: Option<Vec<String>>)
    ensures
        path_opt_view(copy) == path_opt_view(*p),
{
    match p {
        Some(v) => Some(clone_path(v)),
        None => None,
    }
}

/// The path of the field `name` below `p`.
pub fn child_path(p: &Vec<String>, name: &str) -> (child: Vec<String>)
    ensures
        child.deep_view() == p.deep_view().push(name@),
{
    let mut child = clone_path(p);
    child.push(name.to_owned());
    assert(child.deep_view() =~= p.deep_view().push(name@));
    child
}

/// The path that consists of one root name.
pub fn root_path(name: &str) -> (p: Vec<String>)
    ensures
        p.deep_view() == seq![name@],
{
    let mut p: Vec<String> = Vec::new();
    p.push(name.to_owned());
    assert(p.deep_view() =~= seq![name@]);
    p
}

} // verus!
