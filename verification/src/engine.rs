//! The command engine: applies one `Command` to the task store and reports
//! whether the store changed or the named task was not found.
//!
//! The store is a `Vec<Task>` whose well-formedness (`store_wf`) says that
//! task ids are unique and every task carries a real calendar date. `execute`
//! preserves it. Ids are assigned by the engine itself: an added task gets
//! one more than the largest id present, `1` for an empty store, so ids never
//! collide and are not recycled from the current count.

use vstd::prelude::*;
use crate::task::{Priority, Task, TaskView};

verus! {

/// A complete, already-validated operation on the store.
///
/// The task handed to `AddTask` carries title, description, state, priority
/// and due date; its `id` field is ignored and replaced by the engine.
pub enum Command {
    AddTask(Task),
    RemoveTask(u128),
    MarkAsDone(u128),
    ChangePriority(u128, Priority),
    ListTasks,
}

/// What applying a command did. Only `Applied` means the store changed and
/// is worth persisting.
#[derive(Clone, Copy, PartialEq, Eq, Structural, Debug)]
pub enum EngineResult {
    Applied,
    ReadOnly,
    NotFound(u128),
}

/// Some task in `s` has id `id`.
pub open spec fn contains_id(s: Seq<TaskView>, id: u128) -> bool {
    exists|i: int| 0 <= i < s.len() && s[i].id == id
}

/// The position of the task with id `id` (unique when ids are unique).
pub open spec fn index_of_id(s: Seq<TaskView>, id: u128) -> int {
    choose|i: int| 0 <= i < s.len() && s[i].id == id
}

/// No two tasks share an id.
pub open spec fn ids_unique(s: Seq<TaskView>) -> bool {
    forall|i: int, j: int| 0 <= i < j < s.len() ==> s[i].id != s[j].id
}

/// Store invariant: unique ids, well-formed tasks.
pub open spec fn store_wf(s: Seq<TaskView>) -> bool {
    ids_unique(s) && (forall|i: int| 0 <= i < s.len() ==> (#[trigger] s[i]).wf())
}

/// The largest id present, `0` for an empty store.
pub open spec fn max_id(s: Seq<TaskView>) -> int
    decreases s.len(),
{
    if s.len() == 0 {
        0
    } else {
        let m = max_id(s.drop_last());
        if s.last().id > m {
            s.last().id as int
        } else {
            m
        }
    }
}

/// The id the next added task receives.
pub open spec fn next_id_of(s: Seq<TaskView>) -> int {
    max_id(s) + 1
}

/// `t` with its id replaced.
pub open spec fn with_id(t: TaskView, id: u128) -> TaskView {
    TaskView { id: id, ..t }
}

/// The store after adding `t`: appended at the end under the next free id.
pub open spec fn add_result(s: Seq<TaskView>, t: TaskView) -> Seq<TaskView> {
    s.push(with_id(t, next_id_of(s) as u128))
}

/// The store after removing the task with id `id` by swap-with-last-and-pop:
/// the last task moves into the vacated slot, so order among the remaining
/// tasks is not preserved.
pub open spec fn remove_result(s: Seq<TaskView>, id: u128) -> Seq<TaskView> {
    s.update(index_of_id(s, id), s.last()).drop_last()
}

/// The store after marking the task with id `id` as done.
pub open spec fn mark_done_result(s: Seq<TaskView>, id: u128) -> Seq<TaskView> {
    s.update(index_of_id(s, id), TaskView { done: true, ..s[index_of_id(s, id)] })
}

/// The store after giving the task with id `id` priority `p`.
pub open spec fn change_priority_result(s: Seq<TaskView>, id: u128, p: Priority) -> Seq<TaskView> {
    s.update(index_of_id(s, id), TaskView { priority: p, ..s[index_of_id(s, id)] })
}

/// Every id in the store is at most `max_id`.
pub proof fn lemma_max_id_bound(s: Seq<TaskView>)
    ensures
        max_id(s) >= 0,
        forall|i: int| 0 <= i < s.len() ==> (#[trigger] s[i]).id <= max_id(s),
    decreases s.len(),
{
    if s.len() > 0 {
        lemma_max_id_bound(s.drop_last());
        assert forall|i: int| 0 <= i < s.len() implies (#[trigger] s[i]).id <= max_id(s) by {
            if i < s.len() - 1 {
                assert(s.drop_last()[i] == s[i]);
            }
        }
    }
}

/// Computes the id the next added task receives.
pub fn next_id(task_list: &Vec<Task>) -> (r: u128)
    requires
        max_id(task_list.deep_view()) < u128::MAX,
    ensures
        r as int == next_id_of(task_list.deep_view()),
{
    let ghost s = task_list.deep_view();
    let mut m: u128 = 0;
    let mut i: usize = 0;
    while i < task_list.len()
        invariant
            i <= task_list@.len(),
            s == task_list.deep_view(),
            m as int == max_id(s.take(i as int)),
        decreases task_list@.len() - i,
    {
        proof {
            assert(s.take(i as int + 1).drop_last() =~= s.take(i as int));
            assert(s.take(i as int + 1).last() == s[i as int]);
        }
        let id = task_list[i].id;
        if id > m {
            m = id;
        }
        i = i + 1;
    }
    proof {
        assert(s.take(task_list@.len() as int) =~= s);
    }
    m + 1
}

/// Finds the position of the task with id `id`, scanning from the front.
fn find_index(task_list: &Vec<Task>, id: u128) -> (r: Option<usize>)
    ensures
        r is Some <==> contains_id(task_list.deep_view(), id),
        r matches Some(k) ==> k < task_list@.len() && task_list.deep_view()[k as int].id == id,
{
    let mut i: usize = 0;
    while i < task_list.len()
        invariant
            i <= task_list@.len(),
            forall|j: int| 0 <= j < i ==> task_list.deep_view()[j].id != id,
        decreases task_list@.len() - i,
    {
        if task_list[i].id == id {
            return Some(i);
        }
        i = i + 1;
    }
    None
}

/// Applies one command to the store.
///
/// Success of each mutation is pinned exactly: adding always succeeds and
/// appends under the next free id; the three id-directed commands succeed if
/// and only if the id is present, and otherwise leave the store untouched and
/// report `NotFound`; listing never changes the store.
pub fn execute(command: Command, task_list: &mut Vec<Task>) -> (r: EngineResult)
    requires
        store_wf(old(task_list).deep_view()),
        command matches Command::AddTask(t) ==> t@.wf() && max_id(old(task_list).deep_view())
            < u128::MAX,
    ensures
        store_wf(final(task_list).deep_view()),
        (match command {
            Command::AddTask(t) => r == EngineResult::Applied && final(task_list).deep_view()
                == add_result(old(task_list).deep_view(), t@),
            Command::RemoveTask(id) => if contains_id(old(task_list).deep_view(), id) {
                r == EngineResult::Applied && final(task_list).deep_view() == remove_result(
                    old(task_list).deep_view(),
                    id,
                )
            } else {
                r == EngineResult::NotFound(id) && final(task_list)@ == old(task_list)@
            },
            Command::MarkAsDone(id) => if contains_id(old(task_list).deep_view(), id) {
                r == EngineResult::Applied && final(task_list).deep_view() == mark_done_result(
                    old(task_list).deep_view(),
                    id,
                )
            } else {
                r == EngineResult::NotFound(id) && final(task_list)@ == old(task_list)@
            },
            Command::ChangePriority(id, p) => if contains_id(old(task_list).deep_view(), id) {
                r == EngineResult::Applied && final(task_list).deep_view()
                    == change_priority_result(old(task_list).deep_view(), id, p)
            } else {
                r == EngineResult::NotFound(id) && final(task_list)@ == old(task_list)@
            },
            Command::ListTasks => r == EngineResult::ReadOnly && final(task_list)@ == old(
                task_list,
            )@,
        }),
{
    let ghost s = task_list.deep_view();
    match command {
        Command::AddTask(mut task) => {
            let id = next_id(task_list);
            task.id = id;
            task_list.push(task);
            proof {
                lemma_max_id_bound(s);
                assert(task_list.deep_view() =~= s.push(task@));
                assert(task@ == with_id(task@, id));
                assert forall|i: int, j: int|
                    0 <= i < j < task_list.deep_view().len() implies task_list.deep_view()[i].id
                    != task_list.deep_view()[j].id by {
                    if j < s.len() {
                        assert(ids_unique(s));
                    }
                }
            }
            EngineResult::Applied
        },
        Command::RemoveTask(id) => {
            match find_index(task_list, id) {
                Some(k) => {
                    task_list.swap_remove(k);
                    proof {
                        lemma_store_wf_after_remove(s, id, k as int);
                        assert(task_list.deep_view() =~= remove_result(s, id));
                    }
                    EngineResult::Applied
                },
                None => EngineResult::NotFound(id),
            }
        },
        Command::MarkAsDone(id) => {
            match find_index(task_list, id) {
                Some(k) => {
                    task_list[k].done = true;
                    proof {
                        lemma_same_ids_wf(s, id, k as int, task_list.deep_view());
                        assert(task_list.deep_view() =~= mark_done_result(s, id));
                    }
                    EngineResult::Applied
                },
                None => EngineResult::NotFound(id),
            }
        },
        Command::ChangePriority(id, priority) => {
            match find_index(task_list, id) {
                Some(k) => {
                    task_list[k].priority = priority;
                    proof {
                        lemma_same_ids_wf(s, id, k as int, task_list.deep_view());
                        assert(task_list.deep_view() =~= change_priority_result(s, id, priority));
                    }
                    EngineResult::Applied
                },
                None => EngineResult::NotFound(id),
            }
        },
        Command::ListTasks => EngineResult::ReadOnly,
    }
}

/// With unique ids, the found position is the position `index_of_id` names.
proof fn lemma_index_of_id_is(s: Seq<TaskView>, id: u128, k: int)
    requires
        ids_unique(s),
        0 <= k < s.len(),
        s[k].id == id,
    ensures
        index_of_id(s, id) == k,
{
    assert(contains_id(s, id));
    let i = index_of_id(s, id);
    assert(0 <= i < s.len() && s[i].id == id);
    if i != k {
        assert(s[i].id != s[k].id);
    }
}

/// Swap-removing the task at the position of `id` preserves the invariant.
proof fn lemma_store_wf_after_remove(s: Seq<TaskView>, id: u128, k: int)
    requires
        store_wf(s),
        0 <= k < s.len(),
        s[k].id == id,
    ensures
        index_of_id(s, id) == k,
        store_wf(remove_result(s, id)),
{
    lemma_index_of_id_is(s, id, k);
    let s2 = remove_result(s, id);
    assert forall|i: int, j: int| 0 <= i < j < s2.len() implies s2[i].id != s2[j].id by {
        let a = if i == k {
            s.len() - 1
        } else {
            i
        };
        let b = if j == k {
            s.len() - 1
        } else {
            j
        };
        assert(s2[i] == s[a] && s2[j] == s[b] && a != b);
    }
    assert forall|i: int| 0 <= i < s2.len() implies (#[trigger] s2[i]).wf() by {
        if i == k {
            assert(s2[i] == s[s.len() - 1]);
        } else {
            assert(s2[i] == s[i]);
        }
    }
}

/// Updating one task in place without touching its id preserves the
/// invariant, as long as the update keeps the due date.
proof fn lemma_same_ids_wf(s: Seq<TaskView>, id: u128, k: int, s2: Seq<TaskView>)
    requires
        store_wf(s),
        0 <= k < s.len(),
        s[k].id == id,
        s2.len() == s.len(),
        forall|i: int| 0 <= i < s.len() && i != k ==> s2[i] == s[i],
        s2[k].id == s[k].id,
        s2[k].due_date == s[k].due_date,
    ensures
        index_of_id(s, id) == k,
        store_wf(s2),
{
    lemma_index_of_id_is(s, id, k);
    assert forall|i: int, j: int| 0 <= i < j < s2.len() implies s2[i].id != s2[j].id by {
        assert(s2[i].id == s[i].id && s2[j].id == s[j].id);
    }
    assert forall|i: int| 0 <= i < s2.len() implies (#[trigger] s2[i]).wf() by {
        assert(s[i].wf());
    }
}

/// Adding assigns a fresh id: one more than the largest id the store holds,
/// so `1` for an empty store; the new id collides with no existing id and is
/// strictly larger than all of them, so ids stay unique however many
/// additions follow one another.
pub proof fn lemma_add_assigns_fresh_id(s: Seq<TaskView>, t: TaskView)
    requires
        ids_unique(s),
        max_id(s) < u128::MAX,
    ensures
        add_result(s, t).last().id == max_id(s) + 1,
        s.len() == 0 ==> add_result(s, t).last().id == 1,
        !contains_id(s, add_result(s, t).last().id),
        forall|i: int| 0 <= i < s.len() ==> (#[trigger] s[i]).id < add_result(s, t).last().id,
        ids_unique(add_result(s, t)),
{
    lemma_max_id_bound(s);
    let s2 = add_result(s, t);
    assert forall|i: int, j: int| 0 <= i < j < s2.len() implies s2[i].id != s2[j].id by {
        if j < s.len() {
            assert(ids_unique(s));
        }
    }
}

/// Removing a task removes its id: after a successful removal the id is no
/// longer present, so an immediate second removal of the same id finds
/// nothing and reports `NotFound`.
pub proof fn lemma_remove_then_remove_again(s: Seq<TaskView>, id: u128)
    requires
        ids_unique(s),
        contains_id(s, id),
    ensures
        !contains_id(remove_result(s, id), id),
{
    let k = index_of_id(s, id);
    assert(0 <= k < s.len() && s[k].id == id);
    let s2 = remove_result(s, id);
    assert forall|i: int| 0 <= i < s2.len() implies s2[i].id != id by {
        if i == k {
            assert(s2[i] == s[s.len() - 1]);
        } else {
            assert(s2[i] == s[i]);
        }
    }
}

/// Marking done is idempotent: the first application sets `done` on the task
/// with that id, stays a success, and a second application returns the store
/// unchanged.
pub proof fn lemma_mark_done_idempotent(s: Seq<TaskView>, id: u128)
    requires
        ids_unique(s),
        contains_id(s, id),
    ensures
        mark_done_result(s, id)[index_of_id(s, id)].done == true,
        contains_id(mark_done_result(s, id), id),
        mark_done_result(mark_done_result(s, id), id) == mark_done_result(s, id),
{
    let k = index_of_id(s, id);
    assert(0 <= k < s.len() && s[k].id == id);
    let s1 = mark_done_result(s, id);
    assert(s1[k].id == id);
    assert forall|i: int, j: int| 0 <= i < j < s1.len() implies s1[i].id != s1[j].id by {
        assert(s1[i].id == s[i].id && s1[j].id == s[j].id);
    }
    lemma_index_of_id_is(s1, id, k);
    assert(mark_done_result(s1, id) =~= s1);
}

/// After changing a task's priority, the task with that id shows exactly the
/// new priority; listing performs no mutation, so that is what a following
/// `ListTasks` renders.
pub proof fn lemma_change_priority_shows(s: Seq<TaskView>, id: u128, p: Priority)
    requires
        ids_unique(s),
        contains_id(s, id),
    ensures
        contains_id(change_priority_result(s, id, p), id),
        forall|i: int|
            0 <= i < change_priority_result(s, id, p).len() && (#[trigger] change_priority_result(
                s,
                id,
                p,
            )[i]).id == id ==> change_priority_result(s, id, p)[i].priority == p,
{
    let k = index_of_id(s, id);
    assert(0 <= k < s.len() && s[k].id == id);
    let s2 = change_priority_result(s, id, p);
    assert(s2[k].id == id && s2[k].priority == p);
    assert forall|i: int|
        0 <= i < s2.len() && (#[trigger] s2[i]).id == id implies s2[i].priority == p by {
        if i != k {
            assert(s2[i] == s[i]);
            assert(s[i].id != s[k].id);
        }
    }
}

} // verus!
