//! Which transaction of a journal counts, and which files an unfinished one leaves.

use crate::journal::first_generation;
use crate::journal::last_closed;
use crate::journal::opened;
use crate::journal::recovery_of;
use crate::journal::staged_files;
use crate::journal::RecordModel;
use crate::laws::rows::pushed_contains;
use vstd::prelude::*;

verus! {

/// Whether a transaction runs from one record to another: it begins there, ends there, and
/// nothing between them begins or ends one.
pub open spec fn is_transaction(records: Seq<RecordModel>, begin: int, commit: int) -> bool {
    &&& 0 <= begin < commit < records.len()
    &&& records[begin] is Begin
    &&& records[commit] is Commit
    &&& forall|i: int|
        begin < i < commit ==> !((#[trigger] records[i]) is Begin) && !(records[i] is Commit)
}

proof fn the_open_one_is_last(records: Seq<RecordModel>, upto: int)
    requires
        0 <= upto <= records.len(),
    ensures
        match opened(records, upto) {
            Some(begin) => 0 <= begin < upto && records[begin] is Begin && forall|i: int|
                begin < i < upto ==> !((#[trigger] records[i]) is Begin) && !(records[i] is Commit),
            None => forall|begin: int|
                0 <= begin < upto && (#[trigger] records[begin]) is Begin ==> exists|i: int|
                    begin < i < upto && (#[trigger] records[i]) is Commit,
        },
    decreases upto,
{
    if upto > 0 {
        the_open_one_is_last(records, upto - 1);
        if opened(records, upto) is None {
            assert forall|begin: int| 0 <= begin < upto && (#[trigger] records[begin]) is Begin implies exists|
                i: int,
            |
                begin < i < upto && (#[trigger] records[i]) is Commit by {
                if records[upto - 1] is Commit {
                    assert(records[upto - 1] is Commit);
                } else {
                    let i = choose|i: int|
                        begin < i < upto - 1 && (#[trigger] records[i]) is Commit;
                    assert(records[i] is Commit);
                }
            }
        }
    }
}

proof fn the_closed_one_is_last(records: Seq<RecordModel>, upto: int)
    requires
        0 <= upto <= records.len(),
    ensures
        match last_closed(records, upto) {
            Some((begin, commit)) => commit < upto && is_transaction(records, begin, commit)
                && forall|b: int, c: int|
                c < upto && #[trigger] is_transaction(records, b, c) ==> c <= commit,
            None => forall|b: int, c: int|
                c < upto ==> !#[trigger] is_transaction(records, b, c),
        },
    decreases upto,
{
    if upto > 0 {
        the_closed_one_is_last(records, upto - 1);
        the_open_one_is_last(records, upto - 1);
        assert forall|b: int| #[trigger] is_transaction(records, b, upto - 1) implies records[upto - 1] is Commit
            && opened(records, upto - 1) is Some by {
            if opened(records, upto - 1) is None {
                let i = choose|i: int| b < i < upto - 1 && (#[trigger] records[i]) is Commit;
                assert(!(records[i] is Commit));
            }
        }
    }
}

/// What is committed is the last whole transaction, from its beginning to its end, and nothing
/// where there is none.
pub proof fn the_last_transaction_counts(
    records: Seq<RecordModel>,
    truncated: bool,
    begin: int,
    commit: int,
)
    ensures
        is_transaction(records, begin, commit) && (forall|b: int, c: int| #[trigger]
            is_transaction(records, b, c) ==> c <= commit) ==> recovery_of(
            records,
            truncated,
        ).committed == records.subrange(begin, commit + 1),
        (forall|b: int, c: int| !#[trigger] is_transaction(records, b, c)) ==> recovery_of(
            records,
            truncated,
        ).committed.len() == 0,
        recovery_of(records, truncated).truncated == truncated,
{
    the_closed_one_is_last(records, records.len() as int);
    if is_transaction(records, begin, commit) && (forall|b: int, c: int| #[trigger]
        is_transaction(records, b, c) ==> c <= commit) {
        let (b, c) = last_closed(records, records.len() as int)->0;
        assert(is_transaction(records, b, c));
        if b < begin {
            assert(!(records[begin] is Begin));
        }
        if begin < b {
            assert(!(records[b] is Begin));
        }
    }
}

/// The files that are staged are those that a record promotes.
pub proof fn staged_files_are_those_promoted(records: Seq<RecordModel>, file: Seq<char>)
    ensures
        staged_files(records).contains(file) <==> exists|i: int|
            0 <= i < records.len() && promotes(#[trigger] records[i], file),
    decreases records.len(),
{
    if records.len() > 0 {
        let rest = records.drop_last();
        staged_files_are_those_promoted(rest, file);
        let last = records.last();
        if let RecordModel::Promote { staged, .. } = last {
            pushed_contains(staged_files(rest), staged, file);
        }
        if promotes(last, file) {
            assert(promotes(records[records.len() - 1], file));
        }
        if exists|i: int| 0 <= i < rest.len() && promotes(#[trigger] rest[i], file) {
            let i = choose|i: int| 0 <= i < rest.len() && promotes(#[trigger] rest[i], file);
            assert(promotes(records[i], file));
        }
        if exists|i: int| 0 <= i < records.len() && promotes(#[trigger] records[i], file) {
            let i = choose|i: int| 0 <= i < records.len() && promotes(#[trigger] records[i], file);
            if i < rest.len() {
                assert(promotes(rest[i], file));
            }
        }
    }
}

/// Whether a record promotes a staged file.
pub open spec fn promotes(record: RecordModel, file: Seq<char>) -> bool {
    record matches RecordModel::Promote { staged, .. } && staged == file
}

/// The generation of records is that of the first one that begins a transaction.
pub proof fn the_first_beginning_names_the_generation(records: Seq<RecordModel>, k: int, at: int)
    requires
        0 <= at <= k < records.len(),
        records[k] is Begin,
        forall|j: int| at <= j < k ==> !((#[trigger] records[j]) is Begin),
    ensures
        first_generation(records, at) == Some(records[k]->Begin_generation),
    decreases k - at,
{
    if at < k {
        assert(!(records[at] is Begin));
        the_first_beginning_names_the_generation(records, k, at + 1);
    }
}

} // verus!
