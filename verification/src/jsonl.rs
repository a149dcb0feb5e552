//! Files of events, one JSON document on each line.

use crate::error::{blames, ObserverError};
use crate::text::{lines, lines_of, trim, trimmed, views};
use crate::trace_event::Event;
use vstd::prelude::*;

verus! {

/// The lines that hold a document, among the first of a file: those that are
/// not blank, each with its number, from one on.
pub open spec fn document_lines(lines: Seq<Seq<u8>>, n: int) -> Seq<(int, Seq<u8>)>
    decreases n,
{
    if n <= 0 {
        Seq::empty()
    } else if trimmed(lines[n - 1]).len() == 0 {
        document_lines(lines, n - 1)
    } else {
        document_lines(lines, n - 1).push((n, lines[n - 1]))
    }
}

/// The documents of a file, each with the number of its line.
pub open spec fn documents_of(contents: Seq<u8>) -> Seq<(int, Seq<u8>)> {
    document_lines(lines_of(contents), lines_of(contents).len() as int)
}

pub open spec fn numbered(documents: Seq<(usize, &[u8])>) -> Seq<(int, Seq<u8>)> {
    documents.map_values(|d: (usize, &[u8])| (d.0 as int, d.1@))
}

/// The documents of a file, each with the number of its line.
pub fn documents<'a>(contents: &'a [u8]) -> (r: Vec<(usize, &'a [u8])>)
    ensures
        numbered(r@) == documents_of(contents@),
{
    let all = lines(contents);
    let ghost parts = lines_of(contents@);
    let mut found: Vec<(usize, &'a [u8])> = Vec::new();
    let mut i: usize = 0;
    assert(numbered(found@) =~= document_lines(parts, 0));
    while i < all.len()
        invariant
            i <= all.len(),
            views(all@) == parts,
            all.len() == parts.len(),
            numbered(found@) == document_lines(parts, i as int),
        decreases all.len() - i,
    {
        let line = all[i];
        let ghost before = found@;
        assert(views(all@)[i as int] == line@);
        if trim(line).len() != 0 {
            found.push((i + 1, line));
            assert(numbered(found@) =~= numbered(before).push((i + 1, line@)));
        }
        i = i + 1;
    }
    found
}

/// What a document of a file was read as: the event, or what is wrong with it.
pub struct ReadLine {
    pub line: usize,
    pub event: Result<Event, String>,
}

/// Whether a line gives an event that keeps the rules.
pub open spec fn line_is_good(read: ReadLine) -> bool {
    read.event matches Ok(event) && event.problem() is None
}

/// Whether the error is what a bad line is answered with.
pub open spec fn tells_line(error: ObserverError, read: ReadLine) -> bool {
    match read.event {
        Err(fault) => error matches ObserverError::Json { line, detail } && line == read.line
            && detail@ == fault@,
        Ok(event) => event.problem() matches Some(problem) && blames(
            error,
            event.event_id@,
            problem,
        ),
    }
}

/// The events of a file, from what its documents were read as: all of them, or
/// the error of the first line that gives none.
pub fn collect_events(lines: Vec<ReadLine>) -> (r: Result<Vec<Event>, ObserverError>)
    ensures
        r is Ok <==> forall|i: int| 0 <= i < lines@.len() ==> line_is_good(#[trigger] lines@[i]),
        r matches Ok(events) ==> {
            &&& events@.len() == lines@.len()
            &&& forall|i: int|
                0 <= i < events@.len() ==> lines@[i].event == Ok::<Event, String>(
                    #[trigger] events@[i],
                )
        },
        r matches Err(error) ==> exists|i: int|
            0 <= i < lines@.len() && tells_line(error, #[trigger] lines@[i]) && !line_is_good(
                lines@[i],
            ) && forall|j: int| 0 <= j < i ==> line_is_good(#[trigger] lines@[j]),
{
    let ghost all = lines@;
    let mut events: Vec<Event> = Vec::new();
    for read in iter: lines
        invariant
            iter.seq() == all,
            all == lines@,
            events@.len() == iter.index(),
            forall|i: int|
                0 <= i < events@.len() ==> all[i].event == Ok::<Event, String>(
                    #[trigger] events@[i],
                ),
            forall|j: int| 0 <= j < events@.len() ==> line_is_good(#[trigger] all[j]),
    {
        let ghost at = events@.len() as int;
        assert(read == all[at]);
        match read.event {
            Err(detail) => {
                let error = ObserverError::Json { line: read.line, detail };
                assert(tells_line(error, all[at]));
                return Err(error);
            },
            Ok(event) => {
                match event.validate() {
                    Err(error) => {
                        assert(tells_line(error, all[at]));
                        return Err(error);
                    },
                    Ok(()) => {},
                }
                let ghost before = events@;
                events.push(event);
                assert forall|i: int| 0 <= i < events@.len() implies all[i].event == Ok::<
                    Event,
                    String,
                >(#[trigger] events@[i]) by {
                    if i < at {
                        assert(events@[i] == before[i]);
                    }
                }
            },
        }
    }
    Ok(events)
}

/// A blank line holds no document, and the number of a document is that of its
/// line in the file.
pub proof fn documents_keep_their_lines(contents: Seq<u8>, i: int)
    requires
        0 <= i < documents_of(contents).len(),
    ensures
        ({
            let (number, line) = documents_of(contents)[i];
            &&& 1 <= number <= lines_of(contents).len()
            &&& line == lines_of(contents)[number - 1]
            &&& trimmed(line).len() > 0
        }),
{
    document_at(lines_of(contents), lines_of(contents).len() as int, i);
}

proof fn document_at(lines: Seq<Seq<u8>>, n: int, i: int)
    requires
        n <= lines.len(),
        0 <= i < document_lines(lines, n).len(),
    ensures
        ({
            let (number, line) = document_lines(lines, n)[i];
            &&& 1 <= number <= n
            &&& line == lines[number - 1]
            &&& trimmed(line).len() > 0
        }),
    decreases n,
{
    if n > 0 && i < document_lines(lines, n - 1).len() {
        document_at(lines, n - 1, i);
    }
}

} // verus!
