use vstd::prelude::*;
use crate::record::Todo;

verus! {

/// Appends the borrowed record `todo` to the list `todos` of borrowed records.
///
/// The records in the list and the new one are borrowed for the same
/// lifetime `'a`, so every record stays alive for as long as the list can be
/// read. Afterwards the list holds what it held before, in the same order,
/// followed by `todo`.
pub fn todo_push<'a>(todos: &mut Vec<&'a Todo>, todo: &'a Todo)
    ensures
        final(todos)@ == old(todos)@.push(todo),
{
    todos.push(todo);
}

/// What a list that holds `start` holds after the entries of `items` have
/// been appended to it one at a time, first to last.
pub open spec fn after_appends<T>(start: Seq<T>, items: Seq<T>) -> Seq<T>
    decreases items.len(),
{
    if items.len() == 0 {
        start
    } else {
        after_appends(start.push(items[0]), items.drop_first())
    }
}

/// Appending keeps the order of insertion and counts every append: after any
/// run of appends the list has grown by the number of appends, what it held
/// before is untouched, and the appended entries follow in the order in
/// which they were appended.
pub proof fn lemma_appends_keep_order<T>(start: Seq<T>, items: Seq<T>)
    ensures
        after_appends(start, items).len() == start.len() + items.len(),
        forall|i: int| 0 <= i < start.len() ==> after_appends(start, items)[i] == start[i],
        forall|i: int|
            0 <= i < items.len() ==> after_appends(start, items)[start.len() + i] == items[i],
        after_appends(start, items) == start + items,
        start.len() == 0 ==> after_appends(start, items) == items,
    decreases items.len(),
{
    if items.len() == 0 {
        assert(start + items =~= start);
    } else {
        let next = start.push(items[0]);
        let rest = items.drop_first();
        lemma_appends_keep_order(next, rest);
        assert(next + rest =~= start + items);
    }
    assert(start.len() == 0 ==> start + items =~= items);
}

} // verus!
