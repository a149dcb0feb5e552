//! Instruction samples: what a sanitizer sampled of one kernel, read from its
//! files.

use crate::bytes::{le_u16, le_u32, le_u64, spec_le16, spec_le32, spec_le64};
use crate::deep_replay::increasing;
use crate::order::{arrange, arranged, sorted, Keyed};
use crate::ownership::{OwnershipSlice, TraceStep};
use crate::sanitizer::{
    distinct_functions, function_line, function_name, header_fits, is_header, name_in_row,
    read_function_line, without_repeats, Function, FunctionLine, EVENT_BYTES, HEADER_BYTES,
};
use crate::sass::{
    function_title, has_repeats, offsets_repeat, read_sass_line, repeats_at, sass_line, title_of,
    Instruction, SassLine, MAX_INSTRUCTIONS,
};
use crate::tables::{
    hex_of, number_error, number_error_text, read_hex, read_u32, read_u64, u32_of, u64_of,
    NumberShape, TAB,
};
use crate::text::{contains, fields, fields_of, has_part, not_text, not_text_words, views};
use crate::trace_event::Dim3;
use vstd::prelude::*;
use vstd::string::*;
use vstd::utf8::encode_utf8;

verus! {

pub const MAX_EVENT_BYTES: usize = 134_217_728;

pub const MAX_SAMPLE_TEXT_BYTES: usize = 268_435_456;

/// The complaint about a text file that is empty or too large.
pub open spec fn sample_size_problem(size: nat, path: Seq<char>) -> Option<Seq<char>> {
    if size == 0 || size > MAX_SAMPLE_TEXT_BYTES {
        Some("input violates size bound: "@ + path)
    } else {
        None
    }
}

/// Holds the size of a text file against its bound.
pub fn check_sample_size(size: u64, path: &str) -> (r: Result<(), String>)
    ensures
        match (r, sample_size_problem(size as nat, path@)) {
            (Ok(_), None) => true,
            (Err(error), Some(problem)) => error@ == problem,
            _ => false,
        },
{
    if size == 0 || size > MAX_SAMPLE_TEXT_BYTES as u64 {
        let mut text = "input violates size bound: ".to_owned();
        text.append(path);
        return Err(text);
    }
    Ok(())
}

// Events.

/// An event that was sampled.
#[derive(Clone, Copy, Debug, PartialEq, Eq, Structural)]
pub struct SampleEvent {
    pub device_timestamp_raw: u64,
    pub pc: u64,
    pub address: u64,
    pub launch_id: u64,
    pub kernel_slot: u32,
    pub block: Dim3,
    pub kind: u16,
    pub access_size: u16,
}

/// How well the samples were written.
#[derive(Clone, Copy, Debug, PartialEq, Eq, Structural)]
pub struct EventQuality {
    pub retained: u64,
    pub write_attempts: u64,
    pub drops: u64,
    pub sequence_errors: u64,
}

/// The event at the place.
pub open spec fn sample_at(s: Seq<u8>, at: int) -> SampleEvent {
    SampleEvent {
        device_timestamp_raw: spec_le64(s, at),
        pc: spec_le64(s, at + 8),
        address: spec_le64(s, at + 16),
        launch_id: spec_le64(s, at + 24),
        kernel_slot: spec_le32(s, at + 36),
        block: Dim3 {
            x: spec_le32(s, at + 40),
            y: spec_le32(s, at + 44),
            z: spec_le32(s, at + 48),
        },
        kind: spec_le16(s, at + 58),
        access_size: spec_le16(s, at + 60),
    }
}

fn read_sample(bytes: &[u8], at: usize) -> (r: SampleEvent)
    requires
        at + EVENT_BYTES <= bytes@.len(),
    ensures
        r == sample_at(bytes@, at as int),
{
    assert(bytes.len() == bytes@.len());
    SampleEvent {
        device_timestamp_raw: le_u64(bytes, at),
        pc: le_u64(bytes, at + 8),
        address: le_u64(bytes, at + 16),
        launch_id: le_u64(bytes, at + 24),
        kernel_slot: le_u32(bytes, at + 36),
        block: Dim3 {
            x: le_u32(bytes, at + 40),
            y: le_u32(bytes, at + 44),
            z: le_u32(bytes, at + 48),
        },
        kind: le_u16(bytes, at + 58),
        access_size: le_u16(bytes, at + 60),
    }
}

/// The first events behind a place.
pub open spec fn samples_behind(s: Seq<u8>, base: int, n: int) -> Seq<SampleEvent> {
    Seq::new(n as nat, |i: int| sample_at(s, base + i * EVENT_BYTES))
}

/// How many of the first events behind a place do not have their place as their
/// number.
pub open spec fn misnumbered(s: Seq<u8>, base: int, n: int) -> nat
    decreases n,
{
    if n <= 0 {
        0
    } else {
        misnumbered(s, base, n - 1) + if spec_le32(s, base + (n - 1) * EVENT_BYTES + 32) != n - 1 {
            1nat
        } else {
            0
        }
    }
}

/// What has been read of a sample file.
#[verifier::ext_equal]
pub struct SamplesModel {
    pub events: Seq<SampleEvent>,
    pub retained: nat,
    pub write_attempts: nat,
    pub drops: nat,
    pub sequence_errors: nat,
}

/// The samples from the place on, behind those that were found.
pub open spec fn samples_from(s: Seq<u8>, at: int, found: SamplesModel) -> Result<
    SamplesModel,
    Seq<char>,
>
    decreases s.len() - at,
{
    if at < 0 || at >= s.len() {
        Ok(found)
    } else if at + HEADER_BYTES > s.len() {
        Err("failed to fill whole buffer"@)
    } else if !header_fits(s, at) {
        Err("unsupported sampled event header"@)
    } else {
        let capacity = spec_le64(s, at + 24);
        let retained = spec_le64(s, at + 32);
        let attempts = spec_le64(s, at + 40);
        let drops = spec_le64(s, at + 48);
        let base = at + HEADER_BYTES;
        if retained > capacity || retained > attempts || retained > u32::MAX {
            Err("invalid sampled event counters"@)
        } else if found.retained + retained > u64::MAX {
            Err("retained overflow"@)
        } else if found.write_attempts + attempts > u64::MAX {
            Err("write-attempt overflow"@)
        } else if found.drops + drops > u64::MAX {
            Err("drop overflow"@)
        } else if base + retained * EVENT_BYTES > s.len() {
            Err("failed to fill whole buffer"@)
        } else {
            samples_from(
                s,
                base + retained * EVENT_BYTES,
                SamplesModel {
                    events: found.events + samples_behind(s, base, retained as int),
                    retained: found.retained + retained as nat,
                    write_attempts: found.write_attempts + attempts as nat,
                    drops: found.drops + drops as nat,
                    sequence_errors: found.sequence_errors + misnumbered(s, base, retained as int),
                },
            )
        }
    }
}

/// The samples in a file.
pub open spec fn samples_of(s: Seq<u8>) -> Result<SamplesModel, Seq<char>> {
    if s.len() == 0 || s.len() > MAX_EVENT_BYTES {
        Err("sampled event file violates size bound"@)
    } else {
        samples_from(
            s,
            0,
            SamplesModel {
                events: Seq::empty(),
                retained: 0,
                write_attempts: 0,
                drops: 0,
                sequence_errors: 0,
            },
        )
    }
}

pub open spec fn samples_model(events: Seq<SampleEvent>, quality: EventQuality) -> SamplesModel {
    SamplesModel {
        events,
        retained: quality.retained as nat,
        write_attempts: quality.write_attempts as nat,
        drops: quality.drops as nat,
        sequence_errors: quality.sequence_errors as nat,
    }
}

fn read_samples(bytes: &[u8], base: usize, retained: usize, events: &mut Vec<SampleEvent>) -> (r:
    u64)
    requires
        base + retained * EVENT_BYTES <= bytes@.len(),
        retained <= u32::MAX,
    ensures
        final(events)@ == old(events)@ + samples_behind(bytes@, base as int, retained as int),
        r == misnumbered(bytes@, base as int, retained as int),
        r <= retained,
{
    let ghost all = samples_behind(bytes@, base as int, retained as int);
    let ghost before = events@;
    let mut errors: u64 = 0;
    let mut n: usize = 0;
    assert(before + all.take(0) =~= before);
    while n < retained
        invariant
            n <= retained,
            base + retained * EVENT_BYTES <= bytes@.len(),
            retained <= u32::MAX,
            before == old(events)@,
            all == samples_behind(bytes@, base as int, retained as int),
            events@ == before + all.take(n as int),
            errors == misnumbered(bytes@, base as int, n as int),
            errors <= n,
        decreases retained - n,
    {
        assert(bytes.len() == bytes@.len());
        assert(base + n * EVENT_BYTES + EVENT_BYTES <= base + retained * EVENT_BYTES);
        let at: usize = base + n * EVENT_BYTES;
        if le_u32(bytes, at + 32) as u64 != n as u64 {
            errors += 1;
        }
        events.push(read_sample(bytes, at));
        assert(all.take(n + 1) =~= all.take(n as int).push(all[n as int]));
        assert(events@ =~= before + all.take(n + 1));
        n += 1;
    }
    assert(all.take(retained as int) =~= all);
    errors
}

/// Reads the samples in a file.
pub fn load_sample_events(bytes: &[u8]) -> (r: Result<(Vec<SampleEvent>, EventQuality), &'static str>)
    ensures
        match (r, samples_of(bytes@)) {
            (Ok((events, quality)), Ok(expected)) => samples_model(events@, quality) == expected
                && events@.len() * EVENT_BYTES <= MAX_EVENT_BYTES,
            (Err(error), Err(expected)) => error@ == expected,
            _ => false,
        },
{
    if bytes.len() == 0 || bytes.len() > MAX_EVENT_BYTES {
        return Err("sampled event file violates size bound");
    }
    let mut events: Vec<SampleEvent> = Vec::new();
    let mut quality = EventQuality { retained: 0, write_attempts: 0, drops: 0, sequence_errors: 0 };
    let mut at: usize = 0;
    assert(samples_model(events@, quality) =~= (SamplesModel {
        events: Seq::empty(),
        retained: 0,
        write_attempts: 0,
        drops: 0,
        sequence_errors: 0,
    }));
    while at < bytes.len()
        invariant
            at <= bytes.len(),
            bytes@.len() <= MAX_EVENT_BYTES,
            samples_from(bytes@, at as int, samples_model(events@, quality)) == samples_of(bytes@),
            quality.sequence_errors <= at,
            events@.len() * EVENT_BYTES <= at,
        decreases bytes.len() - at,
    {
        if bytes.len() - at < HEADER_BYTES {
            return Err("failed to fill whole buffer");
        }
        if !is_header(bytes, at) {
            return Err("unsupported sampled event header");
        }
        let capacity: u64 = le_u64(bytes, at + 24);
        let retained: u64 = le_u64(bytes, at + 32);
        let attempts: u64 = le_u64(bytes, at + 40);
        let drops: u64 = le_u64(bytes, at + 48);
        if retained > capacity || retained > attempts || retained > u32::MAX as u64 {
            return Err("invalid sampled event counters");
        }
        let all_retained: u64 = match quality.retained.checked_add(retained) {
            Some(all) => all,
            None => {
                return Err("retained overflow");
            },
        };
        let all_attempts: u64 = match quality.write_attempts.checked_add(attempts) {
            Some(all) => all,
            None => {
                return Err("write-attempt overflow");
            },
        };
        let all_drops: u64 = match quality.drops.checked_add(drops) {
            Some(all) => all,
            None => {
                return Err("drop overflow");
            },
        };
        let base: usize = at + HEADER_BYTES;
        if retained * (EVENT_BYTES as u64) > (bytes.len() - base) as u64 {
            return Err("failed to fill whole buffer");
        }
        let ghost before = samples_model(events@, quality);
        let errors: u64 = read_samples(bytes, base, retained as usize, &mut events);
        quality = EventQuality {
            retained: all_retained,
            write_attempts: all_attempts,
            drops: all_drops,
            sequence_errors: quality.sequence_errors + errors,
        };
        at = base + retained as usize * EVENT_BYTES;
        assert(samples_model(events@, quality) =~= (SamplesModel {
            events: before.events + samples_behind(bytes@, base as int, retained as int),
            retained: before.retained + retained as nat,
            write_attempts: before.write_attempts + attempts as nat,
            drops: before.drops + drops as nat,
            sequence_errors: before.sequence_errors + misnumbered(
                bytes@,
                base as int,
                retained as int,
            ),
        }));
    }
    Ok((events, quality))
}

// The function.

/// The columns of a row that hold numbers, in the order in which they are read.
pub open spec fn sampled_columns() -> Seq<(usize, NumberShape)> {
    seq![
        (4usize, NumberShape::U64),
        (5usize, NumberShape::U64),
        (1usize, NumberShape::U32),
        (7usize, NumberShape::Hex),
        (8usize, NumberShape::U64),
        (6usize, NumberShape::U64),
    ]
}

fn sampled_columns_list() -> (list: Vec<(usize, NumberShape)>)
    ensures
        list@ == sampled_columns(),
{
    let list: Vec<(usize, NumberShape)> = vec![
        (4usize, NumberShape::U64),
        (5usize, NumberShape::U64),
        (1usize, NumberShape::U32),
        (7usize, NumberShape::Hex),
        (8usize, NumberShape::U64),
        (6usize, NumberShape::U64),
    ];
    assert(list@ =~= sampled_columns());
    list
}

/// A function that was sampled, where a row tells one: rows without emitted
/// events tell none.
pub open spec fn sampled_function(line: Seq<u8>, i: int, titled: bool) -> Result<
    Option<Function>,
    Seq<char>,
> {
    let f = fields_of(line, TAB);
    if !titled || f.len() != 11 {
        Err("malformed target function row"@)
    } else {
        match (u64_of(f[4]), u64_of(f[5])) {
            (Some(callbacks), Some(emitted)) => if emitted == 0 {
                Ok(None)
            } else {
                match (u32_of(f[1]), hex_of(f[7]), u64_of(f[8]), u64_of(f[6])) {
                    (Some(slot), Some(pc), Some(size), Some(dropped)) => Ok(
                        Some(
                            Function {
                                slot,
                                pc,
                                size,
                                callbacks,
                                emitted,
                                dropped,
                                line: i as usize,
                            },
                        ),
                    ),
                    _ => Err(number_error(f, sampled_columns())),
                }
            },
            _ => Err(number_error(f, sampled_columns())),
        }
    }
}

fn read_sampled_function(line: &[u8], i: usize, titled: bool) -> (r: Result<
    Option<Function>,
    String,
>)
    ensures
        match (r, sampled_function(line@, i as int, titled)) {
            (Ok(function), Ok(expected)) => function == expected && (function matches Some(f)
                ==> f.line == i),
            (Err(error), Err(expected)) => error@ == expected,
            _ => false,
        },
{
    let f = fields(line, TAB);
    if !titled || f.len() != 11 {
        return Err("malformed target function row".to_owned());
    }
    match (read_u64(f[4]), read_u64(f[5])) {
        (Some(callbacks), Some(emitted)) => {
            if emitted == 0 {
                return Ok(None);
            }
            match (read_u32(f[1]), read_hex(f[7]), read_u64(f[8]), read_u64(f[6])) {
                (Some(slot), Some(pc), Some(size), Some(dropped)) => Ok(
                    Some(Function { slot, pc, size, callbacks, emitted, dropped, line: i }),
                ),
                _ => Err(number_error_text(&f, &sampled_columns_list())),
            }
        },
        _ => Err(number_error_text(&f, &sampled_columns_list())),
    }
}

/// The sampled functions after the first lines, and whether the titles were
/// seen.
pub open spec fn sampled_after(all: Seq<Seq<u8>>, n: int, target: Seq<u8>) -> Result<
    (bool, Seq<Function>),
    Seq<char>,
>
    decreases n,
{
    if n <= 0 {
        Ok((false, Seq::empty()))
    } else {
        match sampled_after(all, n - 1, target) {
            Err(error) => Err(error),
            Ok((titled, functions)) => match function_line(all[n - 1], target) {
                FunctionLine::Titles => Ok((true, functions)),
                FunctionLine::OtherTitles => Err("unexpected sanitizer summary schema"@),
                FunctionLine::NotText => Err(not_text()),
                FunctionLine::Skipped => Ok((titled, functions)),
                FunctionLine::Row => match sampled_function(all[n - 1], n - 1, titled) {
                    Err(error) => Err(error),
                    Ok(None) => Ok((titled, functions)),
                    Ok(Some(function)) => Ok((titled, functions.push(function))),
                },
            },
        }
    }
}

proof fn sampled_failure_stays(all: Seq<Seq<u8>>, n: int, m: int, target: Seq<u8>)
    requires
        0 <= n <= m,
        sampled_after(all, n, target) is Err,
    ensures
        sampled_after(all, m, target) == sampled_after(all, n, target),
    decreases m - n,
{
    if n < m {
        sampled_failure_stays(all, n, m - 1, target);
    }
}

/// Whether the counters, the range or the name of the function cannot be right.
pub open spec fn function_is_wrong(function: Function, name: Seq<u8>, target: Seq<u8>) -> bool {
    function.pc == 0 || function.size == 0 || function.callbacks < function.emitted || !contains(
        name,
        target,
    )
}

/// The one function that was sampled.
pub open spec fn the_function(all: Seq<Seq<u8>>, target: Seq<u8>) -> Result<Function, Seq<char>> {
    match sampled_after(all, all.len() as int, target) {
        Err(error) => Err(error),
        Ok((_, functions)) => {
            let distinct = without_repeats(arranged(functions));
            if distinct.len() != 1 {
                Err("expected exactly one active disassembled target specialization"@)
            } else if function_is_wrong(
                distinct[0],
                function_name(all[distinct[0].line as int]),
                target,
            ) {
                Err("invalid target function counters or PC range"@)
            } else {
                Ok(distinct[0])
            }
        },
    }
}

/// Reads the one function that was sampled.
pub fn load_function(all: &Vec<&[u8]>, target: &[u8]) -> (r: Result<Function, String>)
    ensures
        match (r, the_function(views(all@), target@)) {
            (Ok(function), Ok(expected)) => function == expected,
            (Err(error), Err(expected)) => error@ == expected,
            _ => false,
        },
{
    let ghost texts = views(all@);
    let mut titled: bool = false;
    let mut functions: Vec<Function> = Vec::new();
    let mut n: usize = 0;
    while n < all.len()
        invariant
            n <= all.len(),
            texts == views(all@),
            crate::sanitizer::lines_fit(functions@, all@.len()),
            sampled_after(texts, n as int, target@) == Ok::<(bool, Seq<Function>), Seq<char>>(
                (titled, functions@),
            ),
        decreases all.len() - n,
    {
        let line = all[n];
        proof {
            assert(texts[n as int] == line@);
            if sampled_after(texts, n + 1, target@) is Err {
                sampled_failure_stays(texts, n + 1, texts.len() as int, target@);
            }
        }
        match read_function_line(line, target) {
            FunctionLine::Titles => {
                titled = true;
            },
            FunctionLine::OtherTitles => {
                return Err("unexpected sanitizer summary schema".to_owned());
            },
            FunctionLine::NotText => {
                return Err(not_text_words().to_owned());
            },
            FunctionLine::Skipped => {},
            FunctionLine::Row => {
                if let Some(function) = read_sampled_function(line, n, titled)? {
                    functions.push(function);
                }
            },
        }
        n += 1;
    }
    let distinct = distinct_functions(&functions);
    if distinct.len() != 1 {
        return Err("expected exactly one active disassembled target specialization".to_owned());
    }
    let function = distinct[0];
    assert(crate::sanitizer::lines_fit(distinct@, all@.len()));
    assert(distinct@[0].line < all@.len());
    assert(texts[function.line as int] == all@[function.line as int]@);
    let name = name_in_row(all[function.line]);
    if function.pc == 0 || function.size == 0 || function.callbacks < function.emitted || !has_part(
        name,
        target,
    ) {
        return Err("invalid target function counters or PC range".to_owned());
    }
    Ok(function)
}

// The instructions.

/// The instructions of the target after the first lines, and whether a function
/// of the target is being listed.
pub open spec fn target_lines(all: Seq<Seq<u8>>, n: int, target: Seq<u8>) -> Result<
    (bool, Seq<Instruction>),
    Seq<char>,
>
    decreases n,
{
    if n <= 0 {
        Ok((false, Seq::empty()))
    } else {
        match target_lines(all, n - 1, target) {
            Err(error) => Err(error),
            Ok((inside, list)) => match sass_line(all[n - 1]) {
                SassLine::Title => Ok((contains(title_of(all[n - 1])->0, target), list)),
                SassLine::NotText => Err(not_text()),
                SassLine::Other => Ok((inside, list)),
                SassLine::Excessive => if !inside {
                    Ok((inside, list))
                } else if list.len() == MAX_INSTRUCTIONS {
                    Err("target SASS exceeds instruction bound"@)
                } else {
                    Err("number too large to fit in target type"@)
                },
                SassLine::Instruction(offset) => if !inside {
                    Ok((inside, list))
                } else if list.len() == MAX_INSTRUCTIONS {
                    Err("target SASS exceeds instruction bound"@)
                } else {
                    Ok((inside, list.push(Instruction { offset, line: (n - 1) as usize })))
                },
            },
        }
    }
}

proof fn target_failure_stays(all: Seq<Seq<u8>>, n: int, m: int, target: Seq<u8>)
    requires
        0 <= n <= m,
        target_lines(all, n, target) is Err,
    ensures
        target_lines(all, m, target) == target_lines(all, n, target),
    decreases m - n,
{
    if n < m {
        target_failure_stays(all, n, m - 1, target);
    }
}

/// The instructions of the target in the order of their offsets.
pub open spec fn target_instructions(all: Seq<Seq<u8>>, target: Seq<u8>) -> Result<
    Seq<Instruction>,
    Seq<char>,
> {
    match target_lines(all, all.len() as int, target) {
        Err(error) => Err(error),
        Ok((_, list)) => if list.len() == 0 || offsets_repeat(arranged(list)) {
            Err("target SASS is empty or has duplicate offsets"@)
        } else {
            Ok(arranged(list))
        },
    }
}

/// Whether every instruction was listed by one of the lines.
pub open spec fn lines_lie_in(list: Seq<Instruction>, lines: nat) -> bool {
    forall|k: int| 0 <= k < list.len() ==> (#[trigger] list[k]).line < lines
}

proof fn offsets_increase(sorted_list: Seq<Instruction>)
    requires
        sorted(sorted_list),
        !offsets_repeat(sorted_list),
    ensures
        increasing(sorted_list),
{
    assert forall|i: int, j: int| 0 <= i < j < sorted_list.len() implies (
    #[trigger] sorted_list[i]).offset < (#[trigger] sorted_list[j]).offset by {
        assert(sorted_list[i].before(sorted_list[j - 1]));
        assert(sorted_list[j - 1].before(sorted_list[j]));
        assert(!repeats_at(sorted_list, j - 1));
    }
}

/// Reads the instructions of the target.
pub fn load_sass(all: &Vec<&[u8]>, target: &[u8]) -> (r: Result<Vec<Instruction>, &'static str>)
    ensures
        match (r, target_instructions(views(all@), target@)) {
            (Ok(list), Ok(expected)) => list@ == expected,
            (Err(error), Err(expected)) => error@ == expected,
            _ => false,
        },
        r matches Ok(list) ==> increasing(list@) && lines_lie_in(list@, all@.len()),
{
    let ghost texts = views(all@);
    let mut inside: bool = false;
    let mut list: Vec<Instruction> = Vec::new();
    let mut n: usize = 0;
    while n < all.len()
        invariant
            n <= all.len(),
            texts == views(all@),
            lines_lie_in(list@, all@.len()),
            target_lines(texts, n as int, target@) == Ok::<(bool, Seq<Instruction>), Seq<char>>(
                (inside, list@),
            ),
        decreases all.len() - n,
    {
        let line = all[n];
        proof {
            assert(texts[n as int] == line@);
            if target_lines(texts, n + 1, target@) is Err {
                target_failure_stays(texts, n + 1, texts.len() as int, target@);
            }
        }
        match read_sass_line(line) {
            SassLine::Title => {
                if let Some(name) = function_title(line) {
                    inside = has_part(name, target);
                }
            },
            SassLine::NotText => {
                return Err(not_text_words());
            },
            SassLine::Other => {},
            SassLine::Excessive => {
                if inside {
                    if list.len() == MAX_INSTRUCTIONS {
                        return Err("target SASS exceeds instruction bound");
                    }
                    return Err("number too large to fit in target type");
                }
            },
            SassLine::Instruction(offset) => {
                if inside {
                    if list.len() == MAX_INSTRUCTIONS {
                        return Err("target SASS exceeds instruction bound");
                    }
                    list.push(Instruction { offset, line: n });
                }
            },
        }
        n += 1;
    }
    let none: bool = list.len() == 0;
    let sorted = arrange(list);
    if none || has_repeats(&sorted) {
        return Err("target SASS is empty or has duplicate offsets");
    }
    proof {
        offsets_increase(sorted@);
        list@.to_multiset_ensures();
        sorted@.to_multiset_ensures();
        assert forall|k: int| 0 <= k < sorted@.len() implies (#[trigger] sorted@[k]).line
            < all@.len() by {
            assert(sorted@.to_multiset().count(sorted@[k]) > 0);
            assert(list@.contains(sorted@[k]));
        }
    }
    Ok(sorted)
}

// Kinds and classes.

/// What an event of the kind was.
pub open spec fn name_of_kind(kind: u16) -> Seq<char> {
    match kind {
        2 => "global_read"@,
        3 => "global_write"@,
        4 => "shared_read"@,
        5 => "shared_write"@,
        6 => "local_read"@,
        7 => "local_write"@,
        8 => "barrier"@,
        _ => "invalid"@,
    }
}

/// What an event of the kind was.
pub fn kind_name(kind: u16) -> (r: &'static str)
    ensures
        r@ == name_of_kind(kind),
{
    match kind {
        2 => "global_read",
        3 => "global_write",
        4 => "shared_read",
        5 => "shared_write",
        6 => "local_read",
        7 => "local_write",
        8 => "barrier",
        _ => "invalid",
    }
}

/// The byte in upper case.
pub open spec fn raised_byte(byte: u8) -> u8 {
    if 0x61 <= byte <= 0x7a {
        (byte - 0x20) as u8
    } else {
        byte
    }
}

/// The text in upper case.
pub open spec fn raised(s: Seq<u8>) -> Seq<u8> {
    s.map_values(|byte: u8| raised_byte(byte))
}

fn raise(s: &[u8]) -> (r: Vec<u8>)
    ensures
        r@ == raised(s@),
{
    let mut out: Vec<u8> = Vec::new();
    let mut i: usize = 0;
    while i < s.len()
        invariant
            i <= s.len(),
            out@ == raised(s@).take(i as int),
        decreases s.len() - i,
    {
        let byte: u8 = s[i];
        out.push(if 0x61 <= byte && byte <= 0x7a {
            byte - 0x20
        } else {
            byte
        });
        assert(out@ =~= raised(s@).take(i + 1));
        i += 1;
    }
    assert(out@ =~= raised(s@));
    out
}

/// Whether the instruction holds the word, in whatever case.
pub open spec fn mentions(text: Seq<u8>, word: Seq<char>) -> bool {
    contains(raised(text), encode_utf8(word))
}

/// The class of an instruction.
pub open spec fn class_of(text: Seq<u8>) -> Seq<char> {
    if mentions(text, "BAR"@) {
        "barrier"@
    } else if mentions(text, "LDG"@) || mentions(text, "LD."@) {
        "load"@
    } else if mentions(text, "STG"@) || mentions(text, "ST."@) {
        "store"@
    } else if mentions(text, "MMA"@) {
        "tensor"@
    } else if mentions(text, "BRA"@) || mentions(text, "JMP"@) {
        "control"@
    } else {
        "other"@
    }
}

/// The class of an instruction.
pub fn static_class(text: &[u8]) -> (r: &'static str)
    ensures
        r@ == class_of(text@),
{
    let upper = raise(text);
    let s = upper.as_slice();
    if has_part(s, "BAR".as_bytes()) {
        "barrier"
    } else if has_part(s, "LDG".as_bytes()) || has_part(s, "LD.".as_bytes()) {
        "load"
    } else if has_part(s, "STG".as_bytes()) || has_part(s, "ST.".as_bytes()) {
        "store"
    } else if has_part(s, "MMA".as_bytes()) {
        "tensor"
    } else if has_part(s, "BRA".as_bytes()) || has_part(s, "JMP".as_bytes()) {
        "control"
    } else {
        "other"
    }
}

// Steps and rows.

/// What is wrong with the intervals of the steps, if anything: they must not be
/// empty, overlap or lack an owner.
pub open spec fn interval_problem(steps: Seq<TraceStep>) -> Option<Seq<char>> {
    if exists|i: int| 0 <= i < steps.len() && step_is_empty(#[trigger] steps[i]) {
        Some("invalid step interval or empty packed ownership"@)
    } else if exists|i: int| 0 <= i < steps.len() - 1 && steps_overlap(steps, i) {
        Some("EXP-0025 requires non-overlapping synchronous step intervals"@)
    } else {
        None
    }
}

pub open spec fn step_is_empty(step: TraceStep) -> bool {
    step.begin.timestamp_ns >= step.end_timestamp_ns || step.owner_count == 0
}

pub open spec fn steps_overlap(steps: Seq<TraceStep>, i: int) -> bool {
    steps[i].begin.timestamp_ns >= steps[i + 1].begin.timestamp_ns || steps[i].end_timestamp_ns
        > steps[i + 1].begin.timestamp_ns
}

/// Checks the intervals of the steps.
pub fn validate_step_timeline(steps: &[TraceStep]) -> (r: Result<(), &'static str>)
    ensures
        match (r, interval_problem(steps@)) {
            (Ok(_), None) => true,
            (Err(error), Some(problem)) => error@ == problem,
            _ => false,
        },
{
    let mut i: usize = 0;
    while i < steps.len()
        invariant
            i <= steps.len(),
            forall|k: int| 0 <= k < i ==> !step_is_empty(#[trigger] steps@[k]),
        decreases steps.len() - i,
    {
        if steps[i].begin.timestamp_ns >= steps[i].end_timestamp_ns || steps[i].owner_count == 0 {
            assert(step_is_empty(steps@[i as int]));
            return Err("invalid step interval or empty packed ownership");
        }
        i += 1;
    }
    let mut i: usize = 1;
    while i < steps.len()
        invariant
            1 <= i,
            forall|k: int| 0 <= k < steps@.len() ==> !step_is_empty(#[trigger] steps@[k]),
            forall|k: int| 0 <= k < i - 1 && k < steps@.len() - 1 ==> !steps_overlap(steps@, k),
        decreases steps.len() - i,
    {
        if steps[i - 1].begin.timestamp_ns >= steps[i].begin.timestamp_ns || steps[i
            - 1].end_timestamp_ns > steps[i].begin.timestamp_ns {
            assert(steps_overlap(steps@, i - 1));
            return Err("EXP-0025 requires non-overlapping synchronous step intervals");
        }
        i += 1;
    }
    Ok(())
}

/// The last step that began by the moment, among the first.
pub open spec fn last_begun(steps: Seq<TraceStep>, n: int, timestamp: u64) -> Option<int>
    decreases n,
{
    if n <= 0 {
        None
    } else if steps[n - 1].begin.timestamp_ns <= timestamp {
        Some(n - 1)
    } else {
        last_begun(steps, n - 1, timestamp)
    }
}

/// The step that was running at the moment.
pub open spec fn running_step(steps: Seq<TraceStep>, timestamp: u64) -> Option<int> {
    match last_begun(steps, steps.len() as int, timestamp) {
        Some(i) if timestamp <= steps[i].end_timestamp_ns => Some(i),
        _ => None,
    }
}

/// The step that was running at the moment.
pub fn step_for_timestamp(timestamp: u64, steps: &[TraceStep]) -> (r: Option<usize>)
    ensures
        running_step(steps@, timestamp) == match r {
            Some(i) => Some(i as int),
            None => None,
        },
        r matches Some(i) ==> i < steps@.len(),
{
    let mut n: usize = steps.len();
    while n > 0
        invariant
            n <= steps.len(),
            last_begun(steps@, n as int, timestamp) == last_begun(
                steps@,
                steps@.len() as int,
                timestamp,
            ),
        decreases n,
    {
        if steps[n - 1].begin.timestamp_ns <= timestamp {
            if timestamp <= steps[n - 1].end_timestamp_ns {
                return Some(n - 1);
            } else {
                return None;
            }
        }
        n -= 1;
    }
    None
}

/// The last slice that begins by the row, among the first.
pub open spec fn last_slice(owners: Seq<OwnershipSlice>, n: int, row: u32) -> Option<int>
    decreases n,
{
    if n <= 0 {
        None
    } else if owners[n - 1].row_begin <= row {
        Some(n - 1)
    } else {
        last_slice(owners, n - 1, row)
    }
}

/// The slice that holds the row.
pub open spec fn slice_of_row(owners: Seq<OwnershipSlice>, row: u32) -> Option<OwnershipSlice> {
    match last_slice(owners, owners.len() as int, row) {
        Some(i) if row < owners[i].row_end => Some(owners[i]),
        _ => None,
    }
}

/// The slice that holds the row.
pub fn owner_for_row(row: u32, owners: &[OwnershipSlice]) -> (r: Option<OwnershipSlice>)
    ensures
        r == slice_of_row(owners@, row),
{
    let mut n: usize = owners.len();
    while n > 0
        invariant
            n <= owners.len(),
            last_slice(owners@, n as int, row) == last_slice(owners@, owners@.len() as int, row),
        decreases n,
    {
        if owners[n - 1].row_begin <= row {
            if row < owners[n - 1].row_end {
                return Some(owners[n - 1]);
            } else {
                return None;
            }
        }
        n -= 1;
    }
    None
}

} // verus!
