//! What a device sanitizer leaves: a table of the functions that it watched, and
//! the events that they wrote.

use crate::bytes::{le_u32, le_u64, spec_le32, spec_le64};
use crate::digits::{append_decimal, append_hex, decimal, hexadecimal};
use crate::order::{arranged, arranged_copy, arranges, Keyed};
use crate::tables::{
    hex_of, is_comment, line_is_comment, line_opens_with, number_error, number_error_text,
    opens_with, read_hex, read_u32, read_u64, u32_of, u64_of, NumberShape, TAB,
};
use crate::text::{
    contains, fields, fields_of, has_part, is_text, not_text, not_text_words, same, views,
};
use vstd::prelude::*;
use vstd::slice::slice_subrange;
use vstd::string::*;
use vstd::utf8::{encode_utf8, valid_utf8};

verus! {

pub const HEADER_BYTES: usize = 64;

pub const EVENT_BYTES: usize = 64;

pub const MAX_SANITIZER_BYTES: usize = 268_435_456;

// Functions.

/// A function that was watched. Its name stands in the line of the table.
#[derive(Clone, Copy, Debug, PartialEq, Eq, Structural)]
pub struct Function {
    pub slot: u32,
    pub pc: u64,
    pub size: u64,
    pub callbacks: u64,
    pub emitted: u64,
    pub dropped: u64,
    pub line: usize,
}

impl Keyed for Function {
    open spec fn before(self, other: Self) -> bool {
        self.slot <= other.slot
    }

    proof fn before_is_total(a: Self, b: Self) {
    }

    proof fn before_is_transitive(a: Self, b: Self, c: Self) {
    }

    fn comes_before(&self, other: &Self) -> (r: bool) {
        self.slot <= other.slot
    }
}

/// The titles of a function table.
pub open spec fn function_titles() -> Seq<char> {
    "context_slot\tkernel_slot\tlaunches\texpected_block_callbacks\tactual_callbacks\temitted\tdropped\tfunction_pc\tfunction_size\tmodule\tfunction"@
}

/// The complaint about a file that is empty or too large for a replay.
pub open spec fn replay_size_problem(size: nat, path: Seq<char>) -> Option<Seq<char>> {
    if size == 0 || size > MAX_SANITIZER_BYTES {
        Some(path + " has invalid bounded size "@ + decimal(size))
    } else {
        None
    }
}

/// Holds the size of a file against the bound of a replay.
pub fn check_replay_size(size: u64, path: &str) -> (r: Result<(), String>)
    ensures
        match (r, replay_size_problem(size as nat, path@)) {
            (Ok(_), None) => true,
            (Err(error), Some(problem)) => error@ == problem,
            _ => false,
        },
{
    if size == 0 || size > MAX_SANITIZER_BYTES as u64 {
        let mut text = path.to_owned();
        text.append(" has invalid bounded size ");
        append_decimal(&mut text, size);
        return Err(text);
    }
    Ok(())
}

/// What a line of a function table is.
#[derive(Clone, Copy, Debug, PartialEq, Eq, Structural)]
pub enum FunctionLine {
    Titles,
    OtherTitles,
    Skipped,
    Row,
    NotText,
}

pub open spec fn function_line(line: Seq<u8>, target: Seq<u8>) -> FunctionLine {
    if !valid_utf8(line) {
        FunctionLine::NotText
    } else if opens_with(line, "context_slot\tkernel_slot\t"@) {
        if line == encode_utf8(function_titles()) {
            FunctionLine::Titles
        } else {
            FunctionLine::OtherTitles
        }
    } else if is_comment(line) || !contains(line, target) {
        FunctionLine::Skipped
    } else {
        FunctionLine::Row
    }
}

pub fn read_function_line(line: &[u8], target: &[u8]) -> (r: FunctionLine)
    ensures
        r == function_line(line@, target@),
{
    if !is_text(line) {
        FunctionLine::NotText
    } else if line_opens_with(line, "context_slot\tkernel_slot\t") {
        if same(
            line,
            "context_slot\tkernel_slot\tlaunches\texpected_block_callbacks\tactual_callbacks\temitted\tdropped\tfunction_pc\tfunction_size\tmodule\tfunction".as_bytes(),
        ) {
            FunctionLine::Titles
        } else {
            FunctionLine::OtherTitles
        }
    } else if line_is_comment(line) || !has_part(line, target) {
        FunctionLine::Skipped
    } else {
        FunctionLine::Row
    }
}

/// The first of the functions with each slot, where the functions stand in the
/// order of their slots.
pub open spec fn without_repeats(sorted: Seq<Function>) -> Seq<Function>
    decreases sorted.len(),
{
    if sorted.len() == 0 {
        Seq::empty()
    } else {
        let front = without_repeats(sorted.drop_last());
        if front.len() > 0 && front.last().slot == sorted.last().slot {
            front
        } else {
            front.push(sorted.last())
        }
    }
}

/// The functions in the order of their slots, the first of each slot alone.
pub fn distinct_functions(functions: &Vec<Function>) -> (r: Vec<Function>)
    ensures
        r@ == without_repeats(arranged(functions@)),
        forall|lines: nat| #[trigger]
            lines_fit(functions@, lines) ==> lines_fit(r@, lines),
{
    let sorted = arranged_copy(functions.as_slice());
    assert forall|lines: nat| #[trigger] lines_fit(functions@, lines) implies lines_fit(
        sorted@,
        lines,
    ) by {
        lines_still_fit(functions@, sorted@, lines);
    }
    let mut out: Vec<Function> = Vec::new();
    let mut i: usize = 0;
    assert(sorted@.take(0) =~= Seq::<Function>::empty());
    while i < sorted.len()
        invariant
            i <= sorted.len(),
            out@ == without_repeats(sorted@.take(i as int)),
            forall|k: int| 0 <= k < out@.len() ==> sorted@.contains(#[trigger] out@[k]),
        decreases sorted.len() - i,
    {
        assert(sorted@.take(i + 1).drop_last() =~= sorted@.take(i as int));
        let function = sorted[i];
        if out.len() == 0 || out[out.len() - 1].slot != function.slot {
            out.push(function);
        }
        i += 1;
    }
    assert(sorted@.take(sorted@.len() as int) =~= sorted@);
    assert forall|lines: nat| #[trigger] lines_fit(functions@, lines) implies lines_fit(
        out@,
        lines,
    ) by {
        assert forall|k: int| 0 <= k < out@.len() implies (#[trigger] out@[k]).line < lines by {
            let j = choose|j: int| 0 <= j < sorted@.len() && sorted@[j] == out@[k];
            assert(sorted@[j].line < lines);
        }
    }
    out
}

proof fn lines_still_fit(s: Seq<Function>, t: Seq<Function>, lines: nat)
    requires
        arranges(s, t),
        lines_fit(s, lines),
    ensures
        lines_fit(t, lines),
{
    s.to_multiset_ensures();
    t.to_multiset_ensures();
    assert forall|k: int| 0 <= k < t.len() implies (#[trigger] t[k]).line < lines by {
        assert(t.contains(t[k]));
        assert(t.to_multiset().count(t[k]) > 0);
        assert(s.contains(t[k]));
        let j = choose|j: int| 0 <= j < s.len() && s[j] == t[k];
        assert(s[j].line < lines);
    }
}

/// The columns of a row that hold numbers, in the order in which they are read.
pub open spec fn replay_columns() -> Seq<(usize, NumberShape)> {
    seq![
        (4usize, NumberShape::U64),
        (5usize, NumberShape::U64),
        (6usize, NumberShape::U64),
        (7usize, NumberShape::Hex),
        (8usize, NumberShape::U64),
        (1usize, NumberShape::U32),
    ]
}

fn replay_columns_list() -> (list: Vec<(usize, NumberShape)>)
    ensures
        list@ == replay_columns(),
{
    let list: Vec<(usize, NumberShape)> = vec![
        (4usize, NumberShape::U64),
        (5usize, NumberShape::U64),
        (6usize, NumberShape::U64),
        (7usize, NumberShape::Hex),
        (8usize, NumberShape::U64),
        (1usize, NumberShape::U32),
    ];
    assert(list@ =~= replay_columns());
    list
}

/// A function of a replay, where a row tells one: rows without callbacks tell
/// none.
pub open spec fn replay_function(line: Seq<u8>, i: int, titled: bool) -> Result<
    Option<Function>,
    Seq<char>,
> {
    let f = fields_of(line, TAB);
    if !titled || f.len() != 11 {
        Err("malformed sanitizer function row"@)
    } else {
        match (u64_of(f[4]), u64_of(f[5]), u64_of(f[6])) {
            (Some(callbacks), Some(emitted), Some(dropped)) => if dropped != 0 {
                Err("refusing per-function sanitizer drops"@)
            } else if callbacks == 0 && emitted == 0 {
                Ok(None)
            } else if callbacks != emitted {
                Err("sanitizer callback and emitted counters disagree"@)
            } else {
                match (hex_of(f[7]), u64_of(f[8])) {
                    (Some(pc), Some(size)) => if pc == 0 || size == 0 {
                        Err("target function has no PC range"@)
                    } else {
                        match u32_of(f[1]) {
                            None => Err(number_error(f, replay_columns())),
                            Some(slot) => Ok(
                                Some(
                                    Function {
                                        slot,
                                        pc,
                                        size,
                                        callbacks,
                                        emitted,
                                        dropped,
                                        line: i as usize,
                                    },
                                ),
                            ),
                        }
                    },
                    _ => Err(number_error(f, replay_columns())),
                }
            },
            _ => Err(number_error(f, replay_columns())),
        }
    }
}

fn read_replay_function(line: &[u8], i: usize, titled: bool) -> (r: Result<
    Option<Function>,
    String,
>)
    ensures
        match (r, replay_function(line@, i as int, titled)) {
            (Ok(function), Ok(expected)) => function == expected && (function matches Some(f)
                ==> f.line == i),
            (Err(error), Err(expected)) => error@ == expected,
            _ => false,
        },
{
    let f = fields(line, TAB);
    if !titled || f.len() != 11 {
        return Err("malformed sanitizer function row".to_owned());
    }
    match (read_u64(f[4]), read_u64(f[5]), read_u64(f[6])) {
        (Some(callbacks), Some(emitted), Some(dropped)) => {
            if dropped != 0 {
                return Err("refusing per-function sanitizer drops".to_owned());
            }
            if callbacks == 0 && emitted == 0 {
                return Ok(None);
            }
            if callbacks != emitted {
                return Err("sanitizer callback and emitted counters disagree".to_owned());
            }
            match (read_hex(f[7]), read_u64(f[8])) {
                (Some(pc), Some(size)) => {
                    if pc == 0 || size == 0 {
                        return Err("target function has no PC range".to_owned());
                    }
                    match read_u32(f[1]) {
                        None => Err(number_error_text(&f, &replay_columns_list())),
                        Some(slot) => Ok(
                            Some(
                                Function {
                                    slot,
                                    pc,
                                    size,
                                    callbacks,
                                    emitted,
                                    dropped,
                                    line: i,
                                },
                            ),
                        ),
                    }
                },
                _ => Err(number_error_text(&f, &replay_columns_list())),
            }
        },
        _ => Err(number_error_text(&f, &replay_columns_list())),
    }
}

/// What has been read of a function table.
#[verifier::ext_equal]
pub struct FunctionsModel {
    pub titled: bool,
    pub functions: Seq<Function>,
}

/// The functions after the first lines.
pub open spec fn functions_after(all: Seq<Seq<u8>>, n: int, target: Seq<u8>) -> Result<
    FunctionsModel,
    Seq<char>,
>
    decreases n,
{
    if n <= 0 {
        Ok(FunctionsModel { titled: false, functions: Seq::empty() })
    } else {
        match functions_after(all, n - 1, target) {
            Err(error) => Err(error),
            Ok(model) => match function_line(all[n - 1], target) {
                FunctionLine::Titles => Ok(FunctionsModel { titled: true, ..model }),
                FunctionLine::OtherTitles => Err(
                    "sanitizer summary lacks function PC/size columns"@,
                ),
                FunctionLine::NotText => Err(not_text()),
                FunctionLine::Skipped => Ok(model),
                FunctionLine::Row => match replay_function(all[n - 1], n - 1, model.titled) {
                    Err(error) => Err(error),
                    Ok(None) => Ok(model),
                    Ok(Some(function)) => Ok(
                        FunctionsModel { functions: model.functions.push(function), ..model },
                    ),
                },
            },
        }
    }
}

proof fn functions_failure_stays(all: Seq<Seq<u8>>, n: int, m: int, target: Seq<u8>)
    requires
        0 <= n <= m,
        functions_after(all, n, target) is Err,
    ensures
        functions_after(all, m, target) == functions_after(all, n, target),
    decreases m - n,
{
    if n < m {
        functions_failure_stays(all, n, m - 1, target);
    }
}

/// The functions of a replay whose rows hold the target.
pub open spec fn replay_functions_of(all: Seq<Seq<u8>>, target: Seq<u8>) -> Result<
    Seq<Function>,
    Seq<char>,
> {
    match functions_after(all, all.len() as int, target) {
        Err(error) => Err(error),
        Ok(model) => if model.functions.len() == 0 {
            Err("no target function in sanitizer summary"@)
        } else {
            Ok(without_repeats(arranged(model.functions)))
        },
    }
}

/// Whether every function was told by a line.
pub open spec fn lines_fit(functions: Seq<Function>, lines: nat) -> bool {
    forall|k: int| 0 <= k < functions.len() ==> (#[trigger] functions[k]).line < lines
}

/// Reads the functions of a replay whose rows hold the target.
pub fn replay_functions(all: &Vec<&[u8]>, target: &[u8]) -> (r: Result<Vec<Function>, String>)
    ensures
        match (r, replay_functions_of(views(all@), target@)) {
            (Ok(functions), Ok(expected)) => functions@ == expected && lines_fit(
                functions@,
                all@.len(),
            ),
            (Err(error), Err(expected)) => error@ == expected,
            _ => false,
        },
{
    let ghost texts = views(all@);
    let mut titled: bool = false;
    let mut functions: Vec<Function> = Vec::new();
    let mut n: usize = 0;
    while n < all.len()
        invariant
            n <= all.len(),
            texts == views(all@),
            lines_fit(functions@, all@.len()),
            functions_after(texts, n as int, target@) == Ok::<FunctionsModel, Seq<char>>(
                FunctionsModel { titled, functions: functions@ },
            ),
        decreases all.len() - n,
    {
        let line = all[n];
        proof {
            assert(texts[n as int] == line@);
            if functions_after(texts, n + 1, target@) is Err {
                functions_failure_stays(texts, n + 1, texts.len() as int, target@);
            }
        }
        match read_function_line(line, target) {
            FunctionLine::Titles => {
                titled = true;
            },
            FunctionLine::OtherTitles => {
                return Err("sanitizer summary lacks function PC/size columns".to_owned());
            },
            FunctionLine::NotText => {
                return Err(not_text_words().to_owned());
            },
            FunctionLine::Skipped => {},
            FunctionLine::Row => {
                if let Some(function) = read_replay_function(line, n, titled)? {
                    functions.push(function);
                }
            },
        }
        n += 1;
    }
    if functions.len() == 0 {
        return Err("no target function in sanitizer summary".to_owned());
    }
    Ok(distinct_functions(&functions))
}

/// The name of a function, in its row.
pub open spec fn function_name(line: Seq<u8>) -> Seq<u8> {
    let f = fields_of(line, TAB);
    if f.len() == 11 {
        f[10]
    } else {
        Seq::empty()
    }
}

/// The name of a function, in its row.
pub fn name_in_row<'a>(line: &'a [u8]) -> (r: &'a [u8])
    ensures
        r@ == function_name(line@),
{
    let f = fields(line, TAB);
    if f.len() == 11 {
        assert(views(f@)[10] == f@[10]@);
        f[10]
    } else {
        slice_subrange(line, 0, 0)
    }
}

// Events.

/// What a header begins with.
pub open spec fn event_magic() -> Seq<u8> {
    seq![0x47, 0x4f, 0x53, 0x41, 0x4e, 0x30, 0x32, 0x00]
}

/// Whether the header at the place is one of this format.
pub open spec fn header_fits(s: Seq<u8>, at: int) -> bool {
    &&& s.subrange(at, at + 8) == event_magic()
    &&& spec_le32(s, at + 8) == 2
    &&& spec_le32(s, at + 20) == EVENT_BYTES
}

pub fn is_header(bytes: &[u8], at: usize) -> (r: bool)
    requires
        at + HEADER_BYTES <= bytes@.len(),
    ensures
        r == header_fits(bytes@, at as int),
{
    assert(bytes.len() == bytes@.len());
    let magic: [u8; 8] = [0x47, 0x4f, 0x53, 0x41, 0x4e, 0x30, 0x32, 0x00];
    assert(magic@ =~= event_magic());
    same(slice_subrange(bytes, at, at + 8), &magic) && le_u32(bytes, at + 8) == 2 && le_u32(
        bytes,
        at + 20,
    ) == EVENT_BYTES as u32
}

/// A callback of a function at an offset from its start.
#[derive(Clone, Copy, Debug, PartialEq, Eq, Structural)]
pub struct Hit {
    pub slot: u32,
    pub offset: u64,
}

impl Keyed for Hit {
    open spec fn before(self, other: Self) -> bool {
        self.slot < other.slot || self.slot == other.slot && self.offset <= other.offset
    }

    proof fn before_is_total(a: Self, b: Self) {
    }

    proof fn before_is_transitive(a: Self, b: Self, c: Self) {
    }

    fn comes_before(&self, other: &Self) -> (r: bool) {
        self.slot < other.slot || self.slot == other.slot && self.offset <= other.offset
    }
}

/// The first function with the slot.
pub open spec fn function_at(functions: Seq<Function>, slot: u32) -> Option<Function>
    decreases functions.len(),
{
    if functions.len() == 0 {
        None
    } else {
        match function_at(functions.drop_last(), slot) {
            Some(function) => Some(function),
            None => if functions.last().slot == slot {
                Some(functions.last())
            } else {
                None
            },
        }
    }
}

proof fn function_stays(functions: Seq<Function>, slot: u32, n: int)
    requires
        0 <= n <= functions.len(),
        function_at(functions.take(n), slot) is Some,
    ensures
        function_at(functions, slot) == function_at(functions.take(n), slot),
    decreases functions.len() - n,
{
    if n < functions.len() {
        assert(functions.take(n + 1).drop_last() =~= functions.take(n));
        function_stays(functions, slot, n + 1);
    } else {
        assert(functions.take(n) =~= functions);
    }
}

/// The first function with the slot.
pub fn find_function(functions: &[Function], slot: u32) -> (r: Option<Function>)
    ensures
        r == function_at(functions@, slot),
{
    let mut i: usize = 0;
    assert(functions@.take(0) =~= Seq::<Function>::empty());
    while i < functions.len()
        invariant
            i <= functions.len(),
            function_at(functions@.take(i as int), slot) is None,
        decreases functions.len() - i,
    {
        assert(functions@.take(i + 1).drop_last() =~= functions@.take(i as int));
        if functions[i].slot == slot {
            proof {
                function_stays(functions@, slot, i + 1);
            }
            return Some(functions[i]);
        }
        i += 1;
    }
    assert(functions@.take(functions@.len() as int) =~= functions@);
    None
}

pub open spec fn outside_range(pc: u64, start: u64, end: int) -> Seq<char> {
    "PC 0x"@ + hexadecimal(pc as nat) + " outside [0x"@ + hexadecimal(start as nat) + ",0x"@
        + hexadecimal(end as nat) + ")"@
}

/// What the event at the place tells: a callback of one of the functions, or
/// none of them.
pub open spec fn hit_at(s: Seq<u8>, at: int, sequence: int, functions: Seq<Function>) -> Result<
    Option<Hit>,
    Seq<char>,
> {
    if at + EVENT_BYTES > s.len() {
        Err("failed to fill whole buffer"@)
    } else if spec_le32(s, at + 32) != sequence {
        Err("event sequence gap"@)
    } else {
        let slot = spec_le32(s, at + 36);
        let pc = spec_le64(s, at + 8);
        match function_at(functions, slot) {
            None => Ok(None),
            Some(function) => if function.pc + function.size > u64::MAX {
                Err("PC range overflow"@)
            } else if pc < function.pc || pc >= function.pc + function.size {
                Err(outside_range(pc, function.pc, function.pc + function.size))
            } else {
                Ok(Some(Hit { slot, offset: (pc - function.pc) as u64 }))
            },
        }
    }
}

fn read_hit(bytes: &[u8], at: usize, sequence: u64, functions: &[Function]) -> (r: Result<
    Option<Hit>,
    String,
>)
    requires
        at <= bytes@.len(),
    ensures
        match (r, hit_at(bytes@, at as int, sequence as int, functions@)) {
            (Ok(hit), Ok(expected)) => hit == expected && at + EVENT_BYTES <= bytes@.len(),
            (Err(error), Err(expected)) => error@ == expected,
            _ => false,
        },
{
    if bytes.len() - at < EVENT_BYTES {
        return Err("failed to fill whole buffer".to_owned());
    }
    if le_u32(bytes, at + 32) as u64 != sequence {
        return Err("event sequence gap".to_owned());
    }
    let slot: u32 = le_u32(bytes, at + 36);
    let pc: u64 = le_u64(bytes, at + 8);
    match find_function(functions, slot) {
        None => Ok(None),
        Some(function) => {
            let end: u64 = match function.pc.checked_add(function.size) {
                Some(end) => end,
                None => {
                    return Err("PC range overflow".to_owned());
                },
            };
            if pc < function.pc || pc >= end {
                let mut text = "PC 0x".to_owned();
                append_hex(&mut text, pc);
                text.append(" outside [0x");
                append_hex(&mut text, function.pc);
                text.append(",0x");
                append_hex(&mut text, end);
                text.append(")");
                return Err(text);
            }
            Ok(Some(Hit { slot, offset: pc - function.pc }))
        },
    }
}

/// The callbacks of the first events behind a place, behind those that were
/// found.
pub open spec fn hits_after(
    s: Seq<u8>,
    base: int,
    n: int,
    functions: Seq<Function>,
    found: Seq<Hit>,
) -> Result<Seq<Hit>, Seq<char>>
    decreases n,
{
    if n <= 0 {
        Ok(found)
    } else {
        match hits_after(s, base, n - 1, functions, found) {
            Err(error) => Err(error),
            Ok(front) => match hit_at(s, base + (n - 1) * EVENT_BYTES, n - 1, functions) {
                Err(error) => Err(error),
                Ok(None) => Ok(front),
                Ok(Some(hit)) => Ok(front.push(hit)),
            },
        }
    }
}

proof fn hits_failure_stays(
    s: Seq<u8>,
    base: int,
    n: int,
    m: int,
    functions: Seq<Function>,
    found: Seq<Hit>,
)
    requires
        0 <= n <= m,
        hits_after(s, base, n, functions, found) is Err,
    ensures
        hits_after(s, base, m, functions, found) == hits_after(s, base, n, functions, found),
    decreases m - n,
{
    if n < m {
        hits_failure_stays(s, base, n, m - 1, functions, found);
    }
}

/// What has been read of an event file.
#[verifier::ext_equal]
pub struct HitsModel {
    pub hits: Seq<Hit>,
    pub total: nat,
    pub drops: nat,
}

/// The callbacks from the place on, behind those that were found.
pub open spec fn hits_from(s: Seq<u8>, at: int, functions: Seq<Function>, found: HitsModel) -> Result<
    HitsModel,
    Seq<char>,
>
    decreases s.len() - at,
{
    if at < 0 || at >= s.len() {
        Ok(found)
    } else if at + HEADER_BYTES > s.len() {
        Err("failed to fill whole buffer"@)
    } else if !header_fits(s, at) {
        Err("invalid GOSAN02 header"@)
    } else {
        let retained = spec_le64(s, at + 32);
        let drops = spec_le64(s, at + 48);
        if retained > spec_le64(s, at + 24) || retained > spec_le64(s, at + 40) {
            Err("invalid sanitizer event counts"@)
        } else if found.total + retained > u64::MAX {
            Err("event count overflow"@)
        } else if found.drops + drops > u64::MAX {
            Err("drop count overflow"@)
        } else {
            match hits_after(s, at + HEADER_BYTES, retained as int, functions, found.hits) {
                Err(error) => Err(error),
                Ok(hits) => hits_from(
                    s,
                    at + HEADER_BYTES + retained * EVENT_BYTES,
                    functions,
                    HitsModel {
                        hits,
                        total: found.total + retained as nat,
                        drops: found.drops + drops as nat,
                    },
                ),
            }
        }
    }
}

/// The callbacks in an event file.
#[derive(Debug)]
pub struct Hits {
    pub hits: Vec<Hit>,
    pub total: u64,
    pub drops: u64,
}

pub open spec fn hits_model(hits: Hits) -> HitsModel {
    HitsModel { hits: hits.hits@, total: hits.total as nat, drops: hits.drops as nat }
}

fn read_section(
    bytes: &[u8],
    base: usize,
    retained: u64,
    functions: &[Function],
    hits: &mut Vec<Hit>,
) -> (r: Result<usize, String>)
    requires
        base <= bytes@.len(),
    ensures
        match (
            r,
            hits_after(bytes@, base as int, retained as int, functions@, old(hits)@),
        ) {
            (Ok(end), Ok(expected)) => final(hits)@ == expected && end == base + retained
                * EVENT_BYTES && end <= bytes@.len(),
            (Err(error), Err(expected)) => error@ == expected,
            _ => false,
        },
{
    let ghost before = hits@;
    let mut n: u64 = 0;
    let mut at: usize = base;
    while n < retained
        invariant
            n <= retained,
            before == old(hits)@,
            at == base + n * EVENT_BYTES,
            at <= bytes@.len(),
            hits_after(bytes@, base as int, n as int, functions@, before) == Ok::<
                Seq<Hit>,
                Seq<char>,
            >(hits@),
        decreases retained - n,
    {
        proof {
            if hits_after(bytes@, base as int, n + 1, functions@, before) is Err {
                hits_failure_stays(
                    bytes@,
                    base as int,
                    n + 1,
                    retained as int,
                    functions@,
                    before,
                );
            }
        }
        if let Some(hit) = read_hit(bytes, at, n, functions)? {
            hits.push(hit);
        }
        assert(bytes.len() == bytes@.len());
        at = at + EVENT_BYTES;
        n += 1;
    }
    Ok(at)
}

/// Reads the callbacks in an event file.
pub fn read_hits(bytes: &[u8], functions: &[Function]) -> (r: Result<Hits, String>)
    ensures
        match (
            r,
            hits_from(
                bytes@,
                0,
                functions@,
                HitsModel { hits: Seq::empty(), total: 0, drops: 0 },
            ),
        ) {
            (Ok(hits), Ok(expected)) => hits_model(hits) == expected,
            (Err(error), Err(expected)) => error@ == expected,
            _ => false,
        },
{
    let ghost goal = hits_from(
        bytes@,
        0,
        functions@,
        HitsModel { hits: Seq::empty(), total: 0, drops: 0 },
    );
    let mut out = Hits { hits: Vec::new(), total: 0, drops: 0 };
    assert(hits_model(out) =~= (HitsModel { hits: Seq::empty(), total: 0, drops: 0 }));
    let mut at: usize = 0;
    while at < bytes.len()
        invariant
            at <= bytes.len(),
            goal == hits_from(
                bytes@,
                0,
                functions@,
                HitsModel { hits: Seq::empty(), total: 0, drops: 0 },
            ),
            hits_from(bytes@, at as int, functions@, hits_model(out)) == goal,
        decreases bytes.len() - at,
    {
        if bytes.len() - at < HEADER_BYTES {
            return Err("failed to fill whole buffer".to_owned());
        }
        if !is_header(bytes, at) {
            return Err("invalid GOSAN02 header".to_owned());
        }
        let retained: u64 = le_u64(bytes, at + 32);
        let drops: u64 = le_u64(bytes, at + 48);
        if retained > le_u64(bytes, at + 24) || retained > le_u64(bytes, at + 40) {
            return Err("invalid sanitizer event counts".to_owned());
        }
        let total: u64 = match out.total.checked_add(retained) {
            Some(total) => total,
            None => {
                return Err("event count overflow".to_owned());
            },
        };
        let all_drops: u64 = match out.drops.checked_add(drops) {
            Some(all) => all,
            None => {
                return Err("drop count overflow".to_owned());
            },
        };
        let end: usize = read_section(
            bytes,
            at + HEADER_BYTES,
            retained,
            functions,
            &mut out.hits,
        )?;
        out.total = total;
        out.drops = all_drops;
        at = end;
    }
    Ok(out)
}

} // verus!
