//! Laws of the engine, proved once and for all inputs, stated over the
//! same spec functions the operations' contracts use.

use crate::mutate::incomplete_only;
use crate::mutate::with_status;
use crate::pattern::all_digits;
use crate::pattern::clause_ok;
use crate::pattern::clause_span;
use crate::pattern::digits_value;
use crate::pattern::is_digit_char;
use crate::pattern::is_single_clause;
use crate::pattern::is_u32_digits;
use crate::pattern::lemma_split_on_first;
use crate::pattern::pattern_clauses;
use crate::pattern::pattern_ok;
use crate::pattern::pattern_spans;
use crate::pattern::splits_as_pair;
use crate::pattern::Span;
use crate::task::Task;
use crate::task::TaskStatus;
use vstd::prelude::*;

verus! {

/// Law: a pattern that is one well-formed number `N` parses to the
/// single singleton range `[N, N]`.
pub proof fn lemma_single_number_pattern(s: Seq<char>)
    requires
        is_u32_digits(s),
    ensures
        pattern_ok(s),
        pattern_spans(s) == seq![
            (Span { start: digits_value(s) as u32, end: digits_value(s) as u32 }),
        ],
{
    assert forall|j: int| 0 <= j < s.len() implies s[j] != ',' by {
        assert(is_digit_char(s[j]));
    }
    lemma_split_on_first(s, ',', s.len() as int);
    assert(pattern_clauses(s) == seq![s]);
    assert(clause_ok(s));
    assert(pattern_spans(s) =~= seq![clause_span(s)]);
}

/// Law: a pattern that is one well-formed pair `A-B` parses to the
/// single range `[A, B]`; no order between `A` and `B` is demanded.
pub proof fn lemma_pair_pattern(a: Seq<char>, b: Seq<char>)
    requires
        is_u32_digits(a),
        is_u32_digits(b),
    ensures
        pattern_ok(a + seq!['-'] + b),
        pattern_spans(a + seq!['-'] + b) == seq![
            (Span { start: digits_value(a) as u32, end: digits_value(b) as u32 }),
        ],
{
    let s = a + seq!['-'] + b;
    let i0 = a.len() as int;
    assert(s.take(i0) =~= a);
    assert(s.skip(i0 + 1) =~= b);
    assert(s[i0] == '-');
    assert forall|j: int| 0 <= j < s.len() implies s[j] != ',' by {
        if j < i0 {
            assert(s[j] == a[j]);
            assert(is_digit_char(a[j]));
        } else if j > i0 {
            assert(s[j] == b[j - i0 - 1]);
            assert(is_digit_char(b[j - i0 - 1]));
        }
    }
    lemma_split_on_first(s, ',', s.len() as int);
    assert(pattern_clauses(s) == seq![s]);
    assert(splits_as_pair(s, i0));
    assert(!is_digit_char(s[i0]));
    assert(!is_single_clause(s));
    assert forall|i: int| splits_as_pair(s, i) implies i == i0 by {
        if i < i0 {
            assert(s[i] == a[i]);
            assert(is_digit_char(a[i]));
        } else if i > i0 {
            assert(s.take(i)[i0] == '-');
            assert(!all_digits(s.take(i)));
        }
    }
    let iw = choose|i: int| splits_as_pair(s, i);
    assert(iw == i0);
    assert(clause_span(s) == (Span {
        start: digits_value(a) as u32,
        end: digits_value(b) as u32,
    }));
    assert(pattern_spans(s) =~= seq![clause_span(s)]);
}

/// Law: changing status under the same selection twice gives the same
/// collection as changing it once.
pub proof fn lemma_change_status_idempotent(tasks: Seq<Task>, sel: Seq<u32>, status: TaskStatus)
    ensures
        with_status(with_status(tasks, sel, status), sel, status) == with_status(
            tasks,
            sel,
            status,
        ),
{
    let once = with_status(tasks, sel, status);
    let twice = with_status(once, sel, status);
    assert(twice =~= once);
}

/// Law: a status change keeps the collection's length and, at every
/// position, the task's text: no task moves, appears, or disappears.
pub proof fn lemma_change_status_preserves_order(
    tasks: Seq<Task>,
    sel: Seq<u32>,
    status: TaskStatus,
)
    ensures
        with_status(tasks, sel, status).len() == tasks.len(),
        forall|j: int|
            0 <= j < tasks.len() ==> #[trigger] with_status(tasks, sel, status)[j].text
                == tasks[j].text,
{
}

/// The 0-based positions, from `from` on, of the tasks not marked
/// complete, in increasing order.
pub open spec fn incomplete_positions(tasks: Seq<Task>, from: int) -> Seq<int>
    decreases tasks.len() - from,
{
    if !(0 <= from < tasks.len()) {
        Seq::empty()
    } else if tasks[from].status == TaskStatus::Complete {
        incomplete_positions(tasks, from + 1)
    } else {
        seq![from] + incomplete_positions(tasks, from + 1)
    }
}

proof fn lemma_sweep_order_from(tasks: Seq<Task>, from: int)
    requires
        0 <= from <= tasks.len(),
    ensures
        ({
            let out = incomplete_only(tasks.skip(from));
            let pos = incomplete_positions(tasks, from);
            &&& out.len() == pos.len()
            &&& forall|k: int| 0 <= k < pos.len() ==> from <= #[trigger] pos[k] < tasks.len()
            &&& forall|k: int| 0 <= k < pos.len() ==> out[k] == tasks[#[trigger] pos[k]]
            &&& forall|k1: int, k2: int| 0 <= k1 < k2 < pos.len() ==> pos[k1] < pos[k2]
        }),
    decreases tasks.len() - from,
{
    if from == tasks.len() {
        assert(tasks.skip(from) =~= Seq::<Task>::empty());
    } else {
        lemma_sweep_order_from(tasks, from + 1);
        let out = incomplete_only(tasks.skip(from));
        let pos = incomplete_positions(tasks, from);
        let out1 = incomplete_only(tasks.skip(from + 1));
        let pos1 = incomplete_positions(tasks, from + 1);
        assert(tasks.skip(from)[0] == tasks[from]);
        assert(tasks.skip(from).skip(1) =~= tasks.skip(from + 1));
        if tasks[from].status == TaskStatus::Complete {
            assert(out == out1);
            assert(pos == pos1);
        } else {
            assert(out == seq![tasks[from]] + out1);
            assert(pos == seq![from] + pos1);
            assert forall|k: int| 0 <= k < pos.len() implies from <= #[trigger] pos[k]
                < tasks.len() && out[k] == tasks[pos[k]] by {
                if k > 0 {
                    assert(pos[k] == pos1[k - 1]);
                    assert(out[k] == out1[k - 1]);
                }
            }
            assert forall|k1: int, k2: int| 0 <= k1 < k2 < pos.len() implies pos[k1]
                < pos[k2] by {
                assert(pos[k2] == pos1[k2 - 1]);
                if k1 > 0 {
                    assert(pos[k1] == pos1[k1 - 1]);
                }
            }
        }
    }
}

/// Law: the completion sweep keeps the surviving tasks in their original
/// relative order: survivor `k` comes from a source position `p_k` of
/// the old collection, and the source positions increase strictly.
pub proof fn lemma_sweep_preserves_order(tasks: Seq<Task>)
    ensures
        ({
            let out = incomplete_only(tasks);
            let pos = incomplete_positions(tasks, 0);
            &&& out.len() == pos.len()
            &&& forall|k: int| 0 <= k < pos.len() ==> 0 <= #[trigger] pos[k] < tasks.len()
            &&& forall|k: int| 0 <= k < pos.len() ==> out[k] == tasks[#[trigger] pos[k]]
            &&& forall|k1: int, k2: int| 0 <= k1 < k2 < pos.len() ==> pos[k1] < pos[k2]
        }),
{
    lemma_sweep_order_from(tasks, 0);
    assert(tasks.skip(0int) =~= tasks);
}

} // verus!
