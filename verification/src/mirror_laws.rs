use crate::best::best_time;
use crate::best_laws::best_time_is_extreme;
use crate::mirror::{kind_name, kind_of, reported, row_of, standing, DBRow, RowKind};
use crate::outcome::SolveInformation;
use vstd::prelude::*;
use vstd::seq_lib::to_multiset_contains;

verus! {

/// Whether the row is that of a success.
pub open spec fn is_success_row(row: DBRow) -> bool {
    kind_of(row.result_type@) == RowKind::Success
}

/// Whether some row is that of a success.
pub open spec fn has_success_row(rows: Seq<DBRow>) -> bool {
    exists|i: int| 0 <= i < rows.len() && is_success_row(#[trigger] rows[i])
}

/// A success stands after all the rows exactly when one of them is a
/// success; its time is then that of a success among them, and the
/// smallest of theirs.
pub proof fn least_success_stands(rows: Seq<DBRow>)
    ensures
        (standing(rows) matches Some(candidate) && candidate.kind == RowKind::Success)
            <==> has_success_row(rows),
        has_success_row(rows) ==> {
            &&& exists|i: int|
                0 <= i < rows.len() && is_success_row(#[trigger] rows[i]) && rows[i].measured_time
                    == standing(rows)->0.time
            &&& forall|i: int|
                0 <= i < rows.len() && is_success_row(#[trigger] rows[i]) ==> standing(
                    rows,
                )->0.time.rank() <= rows[i].measured_time.rank()
        },
    decreases rows.len(),
{
    if rows.len() > 0 {
        let front = rows.drop_last();
        let last = rows.last();
        least_success_stands(front);
        if has_success_row(front) {
            let i = choose|i: int| 0 <= i < front.len() && is_success_row(#[trigger] front[i]);
            assert(rows[i] == front[i]);
            let at = choose|i: int|
                0 <= i < front.len() && is_success_row(#[trigger] front[i])
                    && front[i].measured_time
                    == standing(front)->0.time;
            assert(rows[at] == front[at]);
        }
        if has_success_row(rows) {
            let i = choose|i: int| 0 <= i < rows.len() && is_success_row(#[trigger] rows[i]);
            if i < front.len() {
                assert(front[i] == rows[i]);
            }
            assert(is_success_row(rows[rows.len() - 1]) || has_success_row(front));
            assert forall|i: int|
                0 <= i < rows.len() && is_success_row(#[trigger] rows[i]) implies standing(
                rows,
            )->0.time.rank() <= rows[i].measured_time.rank() by {
                if i < front.len() {
                    assert(front[i] == rows[i]);
                }
            }
        }
    }
}

/// With a success among the rows, the answer is the smallest time of a
/// success, in whatever order the rows come.
pub proof fn least_success_in_any_order(a: Seq<DBRow>, b: Seq<DBRow>)
    requires
        a.to_multiset() == b.to_multiset(),
        has_success_row(a),
    ensures
        reported(standing(a)) is MinSr,
        reported(standing(b)) is MinSr,
        reported(standing(a))->MinSr_0.rank() == reported(standing(b))->MinSr_0.rank(),
{
    least_success_stands(a);
    least_success_stands(b);
    assert forall|row: DBRow| a.contains(row) <==> b.contains(row) by {
        to_multiset_contains(a, row);
        to_multiset_contains(b, row);
    }
    let i = choose|i: int| 0 <= i < a.len() && is_success_row(#[trigger] a[i]);
    assert(a.contains(a[i]));
    let j = choose|j: int| 0 <= j < b.len() && b[j] == a[i];
    assert(is_success_row(b[j]));
    let at_a = choose|i: int|
        0 <= i < a.len() && is_success_row(#[trigger] a[i]) && a[i].measured_time == standing(
            a,
        )->0.time;
    let at_b = choose|i: int|
        0 <= i < b.len() && is_success_row(#[trigger] b[i]) && b[i].measured_time == standing(
            b,
        )->0.time;
    assert(a.contains(a[at_a]));
    let in_b = choose|j: int| 0 <= j < b.len() && b[j] == a[at_a];
    assert(is_success_row(b[in_b]));
    assert(b.contains(b[at_b]));
    let in_a = choose|j: int| 0 <= j < a.len() && a[j] == b[at_b];
    assert(is_success_row(a[in_a]));
}

/// The name under which the mirror keeps an outcome is read back as the
/// kind of that outcome; a doubted run and a crash are of no kind that a
/// query on times tells apart.
pub proof fn names_are_told_apart(outcome: SolveInformation)
    ensures
        kind_of(kind_name(outcome)) == match outcome {
            SolveInformation::Success(_) => RowKind::Success,
            SolveInformation::Timeout { .. } => RowKind::Timeout,
            SolveInformation::Memout { .. } => RowKind::Memout,
            _ => RowKind::Other,
        },
{
    reveal_strlit("SUCCESS");
    reveal_strlit("DOUBTED");
    reveal_strlit("TIMEOUT");
    reveal_strlit("MEMOUT");
    reveal_strlit("CRASHED");
    assert("SUCCESS"@[0] == 'S');
    assert("DOUBTED"@[0] == 'D');
    assert("TIMEOUT"@[0] == 'T');
    assert("MEMOUT"@[0] == 'M');
    assert("CRASHED"@[0] == 'C');
}

/// With a success among them, the rows of the outcomes of a configuration
/// answer a query on times as the outcomes do: with the smallest outer time
/// of a success.
pub proof fn rows_answer_as_outcomes(
    rows: Seq<DBRow>,
    exp_id: Seq<char>,
    config_id: Seq<char>,
    outcomes: Seq<SolveInformation>,
)
    requires
        rows.len() == outcomes.len(),
        forall|i: int| 0 <= i < rows.len()
            ==> row_of(#[trigger] rows[i], exp_id, config_id, outcomes[i]),
        best_time(outcomes) is Success,
    ensures
        reported(standing(rows)) is MinSr,
        reported(standing(rows))->MinSr_0.rank() == best_time(
            outcomes,
        )->min_total_sr_time.rank(),
{
    best_time_is_extreme(outcomes);
    least_success_stands(rows);
    assert forall|i: int| 0 <= i < rows.len() implies (is_success_row(#[trigger] rows[i])
        <==> outcomes[i] is Success) by {
        names_are_told_apart(outcomes[i]);
    }
    let k = choose|k: int| 0 <= k < outcomes.len() && (#[trigger] outcomes[k]) is Success;
    assert(is_success_row(rows[k]));
    let least = best_time(outcomes)->min_total_sr_time;
    let at = choose|k: int|
        0 <= k < outcomes.len() && (#[trigger] outcomes[k]) is Success
            && outcomes[k]->Success_0.total_sr_time == least;
    assert(is_success_row(rows[at]));
    assert(rows[at].measured_time == least);
    let held = choose|i: int|
        0 <= i < rows.len() && is_success_row(#[trigger] rows[i]) && rows[i].measured_time
            == standing(rows)->0.time;
    assert(outcomes[held] is Success);
    assert(rows[held].measured_time == outcomes[held]->Success_0.total_sr_time);
}

} // verus!
