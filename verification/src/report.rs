//! What is said when sheets could not be synced.

use vstd::prelude::*;
use vstd::string::*;
use crate::text::{decimal, decimal_text};

verus! {

/// The line for a sheet that could not be synced.
pub open spec fn error_line(sheet_key: Seq<char>, message: Seq<char>) -> Seq<char> {
    "Sheet '"@ + sheet_key + "': "@ + message
}

/// The line for a sheet that could not be synced.
pub fn sheet_error(sheet_key: &str, message: &str) -> (r: String)
    ensures
        r@ == error_line(sheet_key@, message@),
{
    let mut line: String = "Sheet '".to_owned().concat(sheet_key);
    line.append("': ");
    line.append(message);
    line
}

/// The lines, with a semicolon and a space between them.
pub open spec fn semicolon_list(lines: Seq<Seq<char>>) -> Seq<char>
    decreases lines.len(),
{
    if lines.len() == 0 {
        Seq::empty()
    } else if lines.len() == 1 {
        lines[0]
    } else {
        semicolon_list(lines.drop_last()) + "; "@ + lines.last()
    }
}

/// How many sheets failed, and the lines of all of them in order.
pub open spec fn failure_text(lines: Seq<Seq<char>>) -> Seq<char> {
    "Failed to sync "@ + decimal(lines.len()) + " sheet(s): "@ + semicolon_list(lines)
}

/// The error of a sync over all sheets: none if no sheet failed, else how many did, and the lines of
/// all of them in order.
pub fn sync_error(errors: &Vec<String>) -> (r: Option<String>)
    ensures
        match r {
            None => errors.len() == 0,
            Some(text) => errors.len() > 0 && text@ == failure_text(errors.deep_view()),
        },
{
    if errors.len() == 0 {
        return None;
    }
    let ghost all = errors.deep_view();
    let mut list: String = errors[0].as_str().to_owned();
    let mut i: usize = 1;
    while i < errors.len()
        invariant
            1 <= i <= errors.len(),
            all == errors.deep_view(),
            list@ == semicolon_list(all.take(i as int)),
        decreases errors.len() - i,
    {
        assert(all.take(i + 1).drop_last() =~= all.take(i as int));
        list.append("; ");
        list.append(errors[i].as_str());
        i += 1;
    }
    assert(all.take(all.len() as int) =~= all);
    let mut text: String = "Failed to sync ".to_owned();
    text.append(decimal_text(errors.len() as u64).as_str());
    text.append(" sheet(s): ");
    text.append(list.as_str());
    Some(text)
}

/// The lines of the sheets that failed, in order: `outcomes` says for each sheet what went wrong, if
/// anything did.
pub open spec fn failed_lines(keys: Seq<String>, outcomes: Seq<Option<String>>) -> Seq<Seq<char>>
    decreases outcomes.len(),
{
    if outcomes.len() == 0 {
        Seq::empty()
    } else {
        let front = failed_lines(keys, outcomes.drop_last());
        match outcomes.last() {
            Some(message) => front.push(error_line(keys[outcomes.len() - 1]@, message@)),
            None => front,
        }
    }
}

/// There is a line for each failure and for nothing else: there are none just when every sheet
/// went well.
pub proof fn law_no_failures(keys: Seq<String>, outcomes: Seq<Option<String>>)
    ensures
        failed_lines(keys, outcomes).len() == 0 <==> forall|i: int|
            0 <= i < outcomes.len() ==> (#[trigger] outcomes[i]) is None,
    decreases outcomes.len(),
{
    if outcomes.len() > 0 {
        let front = outcomes.drop_last();
        law_no_failures(keys, front);
        let n = outcomes.len() - 1;
        if forall|i: int| 0 <= i < outcomes.len() ==> (#[trigger] outcomes[i]) is None {
            assert(outcomes[n] is None);
            assert forall|i: int| 0 <= i < front.len() implies (#[trigger] front[i]) is None by {
                assert(outcomes[i] is None);
            }
        } else {
            let i = choose|i: int| 0 <= i < outcomes.len() && (#[trigger] outcomes[i]) !is None;
            if i < n {
                assert(front[i] !is None);
            }
        }
    }
}

/// What a sync over all sheets reports: nothing if each of them went well, else how many failed, and
/// a line for each of those in order. A sheet that failed takes nothing away from the others.
pub fn sync_report(keys: &Vec<String>, outcomes: &Vec<Option<String>>) -> (r: Option<String>)
    requires
        keys.len() == outcomes.len(),
    ensures
        match r {
            None => forall|i: int| 0 <= i < outcomes.len() ==> (#[trigger] outcomes@[i]) is None,
            Some(text) => (exists|i: int|
                0 <= i < outcomes.len() && (#[trigger] outcomes@[i]) is Some) && text@
                == failure_text(failed_lines(keys@, outcomes@)),
        },
{
    let mut errors: Vec<String> = Vec::new();
    let mut i: usize = 0;
    assert(errors.deep_view() =~= failed_lines(keys@, outcomes@.take(0)));
    while i < outcomes.len()
        invariant
            i <= outcomes.len(),
            keys.len() == outcomes.len(),
            errors.deep_view() == failed_lines(keys@, outcomes@.take(i as int)),
        decreases outcomes.len() - i,
    {
        let ghost before = errors.deep_view();
        assert(outcomes@.take(i + 1).drop_last() =~= outcomes@.take(i as int));
        if let Some(message) = &outcomes[i] {
            errors.push(sheet_error(keys[i].as_str(), message.as_str()));
            assert(errors.deep_view() =~= before.push(error_line(keys@[i as int]@, message@)));
        }
        i += 1;
    }
    assert(outcomes@.take(outcomes@.len() as int) =~= outcomes@);
    assert(errors.len() == errors.deep_view().len());
    proof {
        law_no_failures(keys@, outcomes@);
    }
    sync_error(&errors)
}

/// The report over some sheets and more behind them lists the failures of the ones, then those of the
/// others; a sheet that went well has no line, and one that failed has the line that names it and says
/// why.
pub proof fn law_failures_in_order(
    keys: Seq<String>,
    outcomes: Seq<Option<String>>,
    key: String,
    outcome: Option<String>,
)
    requires
        keys.len() == outcomes.len(),
    ensures
        failed_lines(Seq::<String>::empty(), Seq::<Option<String>>::empty()).len() == 0,
        failed_lines(keys.push(key), outcomes.push(outcome)) == (match outcome {
            Some(message) => failed_lines(keys, outcomes).push(
                "Sheet '"@ + key@ + "': "@ + message@,
            ),
            None => failed_lines(keys, outcomes),
        }),
{
    assert(outcomes.push(outcome).drop_last() =~= outcomes);
    lemma_more_keys(keys, keys.push(key), outcomes);
}

proof fn lemma_more_keys(a: Seq<String>, b: Seq<String>, outcomes: Seq<Option<String>>)
    requires
        outcomes.len() <= a.len(),
        outcomes.len() <= b.len(),
        forall|i: int| 0 <= i < outcomes.len() ==> #[trigger] a[i] == b[i],
    ensures
        failed_lines(a, outcomes) == failed_lines(b, outcomes),
    decreases outcomes.len(),
{
    if outcomes.len() > 0 {
        lemma_more_keys(a, b, outcomes.drop_last());
        assert(a[outcomes.len() - 1] == b[outcomes.len() - 1]);
    }
}

/// The failures are told with their number ahead of them, and with a semicolon and a space behind each
/// line but the last.
pub proof fn law_failure_text(lines: Seq<Seq<char>>, line: Seq<char>)
    ensures
        failure_text(seq![line]) == "Failed to sync "@ + decimal(1) + " sheet(s): "@ + line,
        lines.len() > 0 ==> semicolon_list(lines.push(line)) == semicolon_list(lines) + "; "@ + line,
        failure_text(lines) == "Failed to sync "@ + decimal(lines.len()) + " sheet(s): "@
            + semicolon_list(lines),
{
    assert(lines.push(line).drop_last() =~= lines);
}

} // verus!
