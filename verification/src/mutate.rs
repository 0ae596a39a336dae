//! The mutation operations over a task collection: bulk status change,
//! bulk removal, the completion sweep, and clearing. Status changes keep
//! length and order; removals keep the surviving tasks in their original
//! relative order. Positions outside the collection never fail — they
//! simply select nothing.

use crate::pattern::Span;
use crate::select::resolved_indices;
use crate::select::validate_range;
use crate::task::Task;
use crate::task::TaskStatus;
use vstd::prelude::*;

verus! {

/// Whether the resolved index list selects 0-based position `j`.
pub open spec fn selects(sel: Seq<u32>, j: int) -> bool {
    0 <= j <= u32::MAX && sel.contains(j as u32)
}

/// The collection after setting every selected task's status: text and
/// order are untouched, unselected tasks are untouched entirely, and a
/// position selected more than once changes just the same.
pub open spec fn with_status(tasks: Seq<Task>, sel: Seq<u32>, status: TaskStatus) -> Seq<Task> {
    Seq::new(
        tasks.len(),
        |j: int|
            if selects(sel, j) {
                Task { text: tasks[j].text, status: status }
            } else {
                tasks[j]
            },
    )
}

/// The tasks at the unselected positions from `from` on, in their
/// original order. A position selected more than once is removed once:
/// duplicate selections are idempotent.
pub open spec fn remove_selected(tasks: Seq<Task>, sel: Seq<u32>, from: int) -> Seq<Task>
    decreases tasks.len() - from,
{
    if !(0 <= from < tasks.len()) {
        Seq::empty()
    } else if selects(sel, from) {
        remove_selected(tasks, sel, from + 1)
    } else {
        seq![tasks[from]] + remove_selected(tasks, sel, from + 1)
    }
}

/// The tasks not yet marked complete, in their original order.
pub open spec fn incomplete_only(tasks: Seq<Task>) -> Seq<Task>
    decreases tasks.len(),
{
    if tasks.len() == 0 {
        Seq::empty()
    } else if tasks[0].status == TaskStatus::Complete {
        incomplete_only(tasks.skip(1))
    } else {
        seq![tasks[0]] + incomplete_only(tasks.skip(1))
    }
}

/// Whether the index list holds the 0-based position `j`.
fn contains_index(v: &Vec<u32>, j: usize) -> (r: bool)
    ensures
        r == selects(v@, j as int),
{
    let mut i: usize = 0;
    while i < v.len()
        invariant
            i <= v@.len(),
            forall|t: int| 0 <= t < i ==> #[trigger] v@[t] as int != j as int,
        decreases v@.len() - i,
    {
        if v[i] as usize == j {
            proof {
                assert(v@[i as int] as int == j as int);
                assert(v@.contains(j as u32));
            }
            return true;
        }
        i = i + 1;
    }
    proof {
        if selects(v@, j as int) {
            let t = choose|t: int| 0 <= t < v@.len() && v@[t] == j as u32;
            assert(v@[t] as int != j as int);
        }
    }
    false
}

/// Appends a fresh, incomplete task with the given text.
pub fn add_task(tasks: &mut Vec<Task>, text: &str)
    ensures
        final(tasks)@.len() == old(tasks)@.len() + 1,
        forall|j: int| 0 <= j < old(tasks)@.len() ==> final(tasks)@[j] == old(tasks)@[j],
        final(tasks)@.last().text@ == text@,
        final(tasks)@.last().status == TaskStatus::Incomplete,
{
    let t = Task::new(text);
    tasks.push(t);
}

/// Sets the status of every task the ranges select; every other task, and
/// the collection's length and order, stay as they were.
pub fn change_task_status(
    tasks: &mut Vec<Task>,
    ranges_to_mark: Vec<Span>,
    new_status: TaskStatus,
)
    ensures
        final(tasks)@ == with_status(
            old(tasks)@,
            resolved_indices(ranges_to_mark@, old(tasks)@.len()),
            new_status,
        ),
{
    let indexes = validate_range(ranges_to_mark, tasks);
    let ghost sel = indexes@;
    let ghost t0 = tasks@;
    proof {
        assert(sel.take(0int) =~= Seq::<u32>::empty());
        assert(tasks@ =~= with_status(t0, sel.take(0int), new_status));
    }
    let mut i: usize = 0;
    while i < indexes.len()
        invariant
            i <= indexes@.len(),
            sel == indexes@,
            t0 == old(tasks)@,
            forall|t: int| 0 <= t < sel.len() ==> (#[trigger] sel[t] as nat) < t0.len(),
            tasks@ == with_status(t0, sel.take(i as int), new_status),
        decreases indexes@.len() - i,
    {
        let ghost prev = tasks@;
        let m = indexes[i] as usize;
        let t = &mut tasks[m];
        t.set_status(new_status);
        i = i + 1;
        proof {
            assert(sel.take(i as int) =~= sel.take(i - 1).push(sel[i - 1]));
            assert forall|j: int| 0 <= j < t0.len() implies tasks@[j] == with_status(
                t0,
                sel.take(i as int),
                new_status,
            )[j] by {
                if j == m as int {
                    assert(sel.take(i as int)[i - 1] == sel[i - 1]);
                    assert(selects(sel.take(i as int), j));
                    assert(prev[j] == with_status(t0, sel.take(i - 1), new_status)[j]);
                } else {
                    assert(tasks@[j] == prev[j]);
                    assert(prev[j] == with_status(t0, sel.take(i - 1), new_status)[j]);
                    if selects(sel.take(i as int), j) {
                        let w = choose|w: int|
                            0 <= w < sel.take(i as int).len() && #[trigger] sel.take(i as int)[w]
                                == j as u32;
                        assert(sel.take(i - 1)[w] == j as u32 || w == i - 1);
                        assert(selects(sel.take(i - 1), j));
                    } else if selects(sel.take(i - 1), j) {
                        let w = choose|w: int|
                            0 <= w < sel.take(i - 1).len() && #[trigger] sel.take(i - 1)[w]
                                == j as u32;
                        assert(sel.take(i as int)[w] == j as u32);
                        assert(selects(sel.take(i as int), j));
                    }
                }
            }
            assert(tasks@ =~= with_status(t0, sel.take(i as int), new_status));
        }
    }
    proof {
        assert(sel.take(sel.len() as int) =~= sel);
    }
}

/// Removes every task the ranges select, processing positions from the
/// back so that earlier removals cannot shift later ones; the surviving
/// tasks keep their relative order.
pub fn remove_tasks(tasks: &mut Vec<Task>, ranges_to_remove: Vec<Span>)
    ensures
        final(tasks)@ == remove_selected(
            old(tasks)@,
            resolved_indices(ranges_to_remove@, old(tasks)@.len()),
            0,
        ),
{
    let indexes = validate_range(ranges_to_remove, tasks);
    let ghost sel = indexes@;
    let ghost t0 = tasks@;
    let mut j: usize = tasks.len();
    proof {
        assert(t0.take(j as int) =~= t0);
        assert(tasks@ =~= t0.take(j as int) + remove_selected(t0, sel, j as int));
    }
    while j > 0
        invariant
            j <= t0.len(),
            sel == indexes@,
            t0 == old(tasks)@,
            tasks@ == t0.take(j as int) + remove_selected(t0, sel, j as int),
        decreases j,
    {
        j = j - 1;
        let ghost prev = tasks@;
        if contains_index(&indexes, j) {
            tasks.remove(j);
            proof {
                assert(prev.remove(j as int) =~= t0.take(j as int) + remove_selected(
                    t0,
                    sel,
                    j as int,
                ));
            }
        } else {
            proof {
                assert(prev =~= t0.take(j as int) + remove_selected(t0, sel, j as int));
            }
        }
    }
    proof {
        assert(t0.take(0int) =~= Seq::<Task>::empty());
        assert(tasks@ =~= remove_selected(t0, sel, 0));
    }
}

/// Removes every task marked complete; the incomplete tasks keep their
/// relative order.
pub fn remove_completed_tasks(tasks: &mut Vec<Task>)
    ensures
        final(tasks)@ == incomplete_only(old(tasks)@),
{
    let ghost t0 = tasks@;
    let ghost mut k: int = 0;
    let mut kept: Vec<Task> = Vec::new();
    proof {
        assert(t0.skip(0int) =~= t0);
        assert(incomplete_only(t0) =~= kept@ + incomplete_only(t0.skip(0int)));
    }
    while tasks.len() > 0
        invariant
            0 <= k <= t0.len(),
            t0 == old(tasks)@,
            tasks@ == t0.skip(k),
            incomplete_only(t0) == kept@ + incomplete_only(t0.skip(k)),
        decreases tasks@.len(),
    {
        let t = tasks.remove(0);
        proof {
            assert(t == t0.skip(k)[0]);
            assert(t0.skip(k)[0] == t0[k]);
            assert(tasks@ =~= t0.skip(k).skip(1));
            assert(t0.skip(k).skip(1) =~= t0.skip(k + 1));
        }
        if !t.is_complete() {
            kept.push(t);
            proof {
                assert(incomplete_only(t0.skip(k)) == seq![t] + incomplete_only(t0.skip(k + 1)));
                assert(kept@ + incomplete_only(t0.skip(k + 1)) =~= incomplete_only(t0));
            }
        } else {
            proof {
                assert(incomplete_only(t0.skip(k)) == incomplete_only(t0.skip(k + 1)));
            }
        }
        proof {
            k = k + 1;
        }
    }
    proof {
        assert(t0.skip(k) =~= Seq::<Task>::empty());
        assert(incomplete_only(t0) =~= kept@);
    }
    *tasks = kept;
}

/// Empties the collection unconditionally.
pub fn remove_all(tasks: &mut Vec<Task>)
    ensures
        final(tasks)@ == Seq::<Task>::empty(),
{
    tasks.clear();
}

} // verus!
