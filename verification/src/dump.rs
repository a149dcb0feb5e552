//! A trace as text: one line for each record, up to the first that is broken.

use crate::digits::{append_decimal, decimal};
use crate::oracle::{is_engine_record, is_of_engine};
use crate::semantic::{
    bad_size, describe_record, is_bad_size, line_of, record_at, records_in, RecordError,
    SemanticWireRecord, SEMANTIC_RECORD_BYTES,
};
use vstd::prelude::*;
use vstd::string::*;

verus! {

pub const MAX_INPUT_BYTES: usize = 268_435_456;

/// What is wrong with the record at the place, if anything: it cannot be read,
/// or does not follow the one before it.
pub open spec fn record_problem(
    records: Seq<Result<SemanticWireRecord, RecordError>>,
    i: int,
) -> Option<Seq<char>> {
    match records[i] {
        Err(error) => Some("invalid record "@ + decimal(i as nat) + ": "@ + error.words()),
        Ok(record) => if i == 0 || record.sequence == (records[i - 1]->Ok_0).sequence + 1 {
            None
        } else {
            Some(
                "sequence gap before record "@ + decimal(i as nat) + ": previous=Some("@ + decimal(
                    (records[i - 1]->Ok_0).sequence as nat,
                ) + ") current="@ + decimal(record.sequence as nat),
            )
        },
    }
}

/// The first of the records that is broken.
pub open spec fn first_broken(
    records: Seq<Result<SemanticWireRecord, RecordError>>,
    n: int,
) -> Option<int>
    decreases n,
{
    if n <= 0 {
        None
    } else {
        match first_broken(records, n - 1) {
            Some(i) => Some(i),
            None => if record_problem(records, n - 1) is Some {
                Some(n - 1)
            } else {
                None
            },
        }
    }
}

/// How many records of a trace are printed.
pub open spec fn printed(records: Seq<Result<SemanticWireRecord, RecordError>>) -> int {
    match first_broken(records, records.len() as int) {
        Some(i) => i,
        None => records.len() as int,
    }
}

/// The lines of the first records.
pub open spec fn dump_lines(
    records: Seq<Result<SemanticWireRecord, RecordError>>,
    n: int,
) -> Seq<Seq<char>> {
    Seq::new(n as nat, |i: int| line_of(records[i]->Ok_0))
}

/// Why a dump stops, if it does before the end of the trace.
pub open spec fn dump_error(s: Seq<u8>) -> Option<Seq<char>> {
    let records = records_in(s);
    if bad_size(s.len(), MAX_INPUT_BYTES as nat) {
        Some("invalid semantic trace length: "@ + decimal(s.len()))
    } else {
        match first_broken(records, records.len() as int) {
            Some(i) => record_problem(records, i),
            None => None,
        }
    }
}

/// The texts of strings.
pub open spec fn texts(lines: Seq<String>) -> Seq<Seq<char>> {
    lines.map_values(|line: String| line@)
}

/// The lines of a trace, and why they stop.
pub struct Dump {
    pub lines: Vec<String>,
    pub error: Option<String>,
}

/// How many of the first records come before one of a request's lifecycle.
pub open spec fn engine_run(
    records: Seq<Result<SemanticWireRecord, RecordError>>,
    n: int,
) -> int
    decreases n,
{
    if n <= 0 {
        0
    } else if engine_run(records, n - 1) == n - 1 && is_engine_record(records[n - 1]->Ok_0) {
        n
    } else {
        engine_run(records, n - 1)
    }
}

proof fn engine_run_stays(
    records: Seq<Result<SemanticWireRecord, RecordError>>,
    n: int,
    m: int,
)
    requires
        0 <= n <= m,
        engine_run(records, n) < n,
    ensures
        engine_run(records, m) == engine_run(records, n),
    decreases m - n,
{
    if n < m {
        engine_run_stays(records, n, m - 1);
        engine_run_fits(records, m - 1);
    }
}

proof fn engine_run_fits(records: Seq<Result<SemanticWireRecord, RecordError>>, n: int)
    requires
        0 <= n,
    ensures
        0 <= engine_run(records, n) <= n,
    decreases n,
{
    if n > 0 {
        engine_run_fits(records, n - 1);
    }
}

/// Whether a trace comes to a lifecycle record before anything is wrong with it.
pub open spec fn meets_lifecycle(s: Seq<u8>) -> bool {
    !bad_size(s.len(), MAX_INPUT_BYTES as nat) && engine_run(records_in(s), printed(records_in(s)))
        < printed(records_in(s))
}

proof fn break_stays(records: Seq<Result<SemanticWireRecord, RecordError>>, n: int, m: int)
    requires
        0 <= n <= m,
        first_broken(records, n) is Some,
    ensures
        first_broken(records, m) == first_broken(records, n),
    decreases m - n,
{
    if n < m {
        break_stays(records, n, m - 1);
    }
}

proof fn unbroken_is_printed(records: Seq<Result<SemanticWireRecord, RecordError>>, n: int)
    requires
        0 <= n <= records.len(),
        first_broken(records, n) is None,
    ensures
        n <= printed(records),
{
    let m = records.len() as int;
    if let Some(i) = first_broken(records, m) {
        break_lies_behind(records, n, m);
    }
}

proof fn break_lies_behind(records: Seq<Result<SemanticWireRecord, RecordError>>, n: int, m: int)
    requires
        0 <= n <= m,
        first_broken(records, n) is None,
    ensures
        first_broken(records, m) matches Some(i) ==> n <= i < m,
    decreases m - n,
{
    if n < m {
        break_lies_behind(records, n, m - 1);
    }
}

/// Prints a trace up to the first lifecycle record, and tells whether it came to
/// one.
pub fn dump_engine(bytes: &[u8]) -> (r: (Dump, bool))
    ensures
        r.1 == meets_lifecycle(bytes@),
        match (r.0.error, dump_error(bytes@)) {
            (None, None) => true,
            (Some(error), Some(expected)) => !r.1 && error@ == expected,
            (None, Some(_)) => r.1,
            _ => false,
        },
        texts(r.0.lines@) == if bad_size(bytes@.len(), MAX_INPUT_BYTES as nat) {
            Seq::empty()
        } else {
            dump_lines(
                records_in(bytes@),
                engine_run(records_in(bytes@), printed(records_in(bytes@))),
            )
        },
{
    let mut lines: Vec<String> = Vec::new();
    assert(texts(lines@) =~= Seq::<Seq<char>>::empty());
    if is_bad_size(bytes.len(), MAX_INPUT_BYTES) {
        let mut text = "invalid semantic trace length: ".to_owned();
        append_decimal(&mut text, bytes.len() as u64);
        return (Dump { lines, error: Some(text) }, false);
    }
    let ghost records = records_in(bytes@);
    let count: usize = bytes.len() / SEMANTIC_RECORD_BYTES;
    let mut previous: u64 = 0;
    let mut i: usize = 0;
    assert(texts(lines@) =~= dump_lines(records, 0));
    while i < count
        invariant
            i <= count,
            records == records_in(bytes@),
            count == records.len(),
            !bad_size(bytes@.len(), MAX_INPUT_BYTES as nat),
            i > 0 ==> records[i - 1] is Ok && (records[i - 1]->Ok_0).sequence == previous,
            texts(lines@) == dump_lines(records, i as int),
            first_broken(records, i as int) is None,
            engine_run(records, i as int) == i,
        decreases count - i,
    {
        proof {
            if record_problem(records, i as int) is Some {
                break_stays(records, i + 1, count as int);
            }
        }
        let record = match record_at(bytes, i) {
            Ok(record) => record,
            Err(error) => {
                let mut text = "invalid record ".to_owned();
                append_decimal(&mut text, i as u64);
                text.append(": ");
                text.append(error.message());
                return (Dump { lines, error: Some(text) }, false);
            },
        };
        if i > 0 && (previous == u64::MAX || record.sequence != previous + 1) {
            let mut text = "sequence gap before record ".to_owned();
            append_decimal(&mut text, i as u64);
            text.append(": previous=Some(");
            append_decimal(&mut text, previous);
            text.append(") current=");
            append_decimal(&mut text, record.sequence);
            return (Dump { lines, error: Some(text) }, false);
        }
        if !is_of_engine(&record) {
            proof {
                unbroken_is_printed(records, i + 1);
                engine_run_stays(records, i + 1, printed(records));
            }
            return (Dump { lines, error: None }, true);
        }
        previous = record.sequence;
        let line = describe_record(&record);
        let ghost before = lines@;
        lines.push(line);
        assert(texts(lines@) =~= texts(before).push(line@));
        assert(dump_lines(records, i + 1) =~= dump_lines(records, i as int).push(
            line_of(record),
        ));
        i += 1;
    }
    (Dump { lines, error: None }, false)
}

/// Prints a trace of the engine.
pub fn dump(bytes: &[u8]) -> (r: Dump)
    requires
        !meets_lifecycle(bytes@),
    ensures
        match (r.error, dump_error(bytes@)) {
            (None, None) => true,
            (Some(error), Some(expected)) => error@ == expected,
            _ => false,
        },
        texts(r.lines@) == if bad_size(bytes@.len(), MAX_INPUT_BYTES as nat) {
            Seq::empty()
        } else {
            dump_lines(records_in(bytes@), printed(records_in(bytes@)))
        },
{
    proof {
        let records = records_in(bytes@);
        break_lies_behind(records, 0, records.len() as int);
        engine_run_fits(records, printed(records));
    }
    dump_engine(bytes).0
}

} // verus!
