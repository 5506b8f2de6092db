use vstd::prelude::*;
use crate::builtin::str_eq;
use crate::path::lemma_first_index;
use crate::path::lemma_no_index;

verus! {

/// The names of a list of named values, in order.
pub open spec fn keys<T>(list: Seq<(String, T)>) -> Seq<Seq<char>> {
    list.map_values(|e: (String, T)| e.0@)
}

/// The names of a list of named values in a model, in order.
pub open spec fn model_keys<V>(list: Seq<(Seq<char>, V)>) -> Seq<Seq<char>> {
    list.map_values(|e: (Seq<char>, V)| e.0)
}

/// Where the first value named `name` stands in the list.
pub open spec fn assoc_index<V>(list: Seq<(Seq<char>, V)>, name: Seq<char>) -> Option<int> {
    model_keys(list).index_of_first(name)
}

/// The first value named `name`.
pub open spec fn assoc_get<V>(list: Seq<(Seq<char>, V)>, name: Seq<char>) -> Option<V> {
    match assoc_index(list, name) {
        Some(i) => Some(list[i].1),
        None => None,
    }
}

/// The list in which `name` stands for `value`: in place of the first value of that
/// name, or at the end where the name is new.
pub open spec fn assoc_put<V>(list: Seq<(Seq<char>, V)>, name: Seq<char>, value: V) -> Seq<
    (Seq<char>, V),
> {
    match assoc_index(list, name) {
        Some(i) => list.update(i, (name, value)),
        None => list.push((name, value)),
    }
}

/// A list and its model name their values alike.
pub proof fn lemma_keys_agree<T, V>(list: Seq<(String, T)>, model: Seq<(Seq<char>, V)>)
    requires
        model.len() == list.len(),
        forall|i: int| 0 <= i < list.len() ==> (#[trigger] model[i]).0 == list[i].0@,
    ensures
        model_keys(model) == keys(list),
{
    assert(model_keys(model) =~= keys(list));
}

/// Finds the first value named `name`.
pub fn find_key<T>(list: &Vec<(String, T)>, name: &str) -> (found: Option<usize>)
    ensures
        match found {
            Some(i) => i < list.len() && keys(list@).index_of_first(name@) == Some(i as int),
            None => keys(list@).index_of_first(name@) is None,
        },
{
    let mut i: usize = 0;
    while i < list.len()
        invariant
            i <= list.len(),
            forall|j: int| 0 <= j < i ==> keys(list@)[j] != name@,
        decreases list.len() - i,
    {
        if str_eq(list[i].0.as_str(), name) {
            proof {
                lemma_first_index(keys(list@), name@, i as int);
            }
            return Some(i);
        }
        i += 1;
    }
    proof {
        lemma_no_index(keys(list@), name@);
    }
    None
}

} // verus!
