//! Deep replays: the instructions of the watched functions, with how often each
//! was sampled.

use crate::digits::{append_decimal, append_hex, decimal, hexadecimal};
use crate::msgpack::utf8_text;
use crate::order::{arranged, arranged_copy};
use crate::sanitizer::{
    function_name, hits_from, lines_fit, name_in_row, read_hits, replay_functions,
    replay_functions_of, Function, Hit, HitsModel,
};
use crate::sass::{
    function_title, sass_sections, section_at, section_model, section_models, section_name,
    sections_of, titles_fit, Instruction, Section, SectionModel,
};
use crate::text::{all_digits, contains, digit_value, has_part, same, text_is, views};
use vstd::prelude::*;
use vstd::string::*;
use vstd::utf8::{decode_utf8, valid_utf8};

verus! {

// Options and names.

/// Whether the option is one that an export takes.
pub open spec fn is_known_option(name: Seq<char>) -> bool {
    name == "--run"@ || name == "--summary"@ || name == "--events"@ || name == "--sass"@ || name
        == "--module-hash"@ || name == "--target"@ || name == "--output"@
}

/// Whether the option is one that an export takes.
pub fn known_option(name: &str) -> (r: bool)
    ensures
        r == is_known_option(name@),
{
    text_is(name, "--run") || text_is(name, "--summary") || text_is(name, "--events") || text_is(
        name,
        "--sass",
    ) || text_is(name, "--module-hash") || text_is(name, "--target") || text_is(name, "--output")
}

/// Whether the text can be a SHA-256 hash.
pub open spec fn is_hash(s: Seq<u8>) -> bool {
    s.len() == 64 && all_digits(s, 16)
}

/// Whether the text can be a SHA-256 hash.
pub fn hash_is_valid(s: &[u8]) -> (r: bool)
    ensures
        r == is_hash(s@),
{
    if s.len() != 64 {
        return false;
    }
    let mut i: usize = 0;
    while i < s.len()
        invariant
            i <= s.len(),
            forall|k: int| 0 <= k < i ==> digit_value(#[trigger] s@[k]) < 16,
        decreases s.len() - i,
    {
        let byte: u8 = s[i];
        if !(0x30 <= byte && byte <= 0x39 || 0x61 <= byte && byte <= 0x66 || 0x41 <= byte && byte
            <= 0x46) {
            assert(digit_value(s@[i as int]) >= 16);
            return false;
        }
        i += 1;
    }
    true
}

/// A name as text. A name that is no text is a question mark.
pub open spec fn name_text(name: Seq<u8>) -> Seq<char> {
    if valid_utf8(name) {
        decode_utf8(name)
    } else {
        "?"@
    }
}

fn append_name(text: &mut String, name: &[u8])
    ensures
        final(text)@ == old(text)@ + name_text(name@),
{
    match utf8_text(name) {
        Some(words) => {
            text.append(words);
        },
        None => {
            text.append("?");
        },
    }
}

// Finding a section.

/// Whether the section can be that of the function.
pub open spec fn section_fits(name: Seq<u8>, function: Seq<u8>) -> bool {
    contains(name, function) || contains(function, name)
}

/// How many of the first sections can be that of the function.
pub open spec fn fitting(
    all: Seq<Seq<u8>>,
    sections: Seq<SectionModel>,
    n: int,
    function: Seq<u8>,
) -> nat
    decreases n,
{
    if n <= 0 {
        0
    } else {
        fitting(all, sections, n - 1, function) + if section_fits(
            section_name(all, sections[n - 1]),
            function,
        ) {
            1nat
        } else {
            0
        }
    }
}

/// The last of the first sections that can be that of the function.
pub open spec fn last_fitting(
    all: Seq<Seq<u8>>,
    sections: Seq<SectionModel>,
    n: int,
    function: Seq<u8>,
) -> int
    decreases n,
{
    if n <= 0 {
        0
    } else if section_fits(section_name(all, sections[n - 1]), function) {
        n - 1
    } else {
        last_fitting(all, sections, n - 1, function)
    }
}

/// The section of a function: the one with its name, or else the only one whose
/// name holds that of the function or is held by it.
pub open spec fn section_of(
    all: Seq<Seq<u8>>,
    sections: Seq<SectionModel>,
    function: Seq<u8>,
) -> Result<int, Seq<char>> {
    let n = sections.len() as int;
    match section_at(all, sections, function) {
        Some(k) => Ok(k),
        None => {
            let count = fitting(all, sections, n, function);
            if count == 1 {
                Ok(last_fitting(all, sections, n, function))
            } else if count == 0 {
                Err("no SASS section for "@ + name_text(function))
            } else {
                Err("ambiguous SASS section for "@ + name_text(function))
            }
        },
    }
}

proof fn no_section_at(all: Seq<Seq<u8>>, sections: Seq<SectionModel>, name: Seq<u8>)
    requires
        forall|k: int|
            0 <= k < sections.len() ==> section_name(all, #[trigger] sections[k]) != name,
    ensures
        section_at(all, sections, name) is None,
    decreases sections.len(),
{
    if sections.len() > 0 {
        assert(section_name(all, sections[sections.len() - 1]) != name);
        assert forall|k: int| 0 <= k < sections.drop_last().len() implies section_name(
            all,
            #[trigger] sections.drop_last()[k],
        ) != name by {
            assert(section_name(all, sections[k]) != name);
        }
        no_section_at(all, sections.drop_last(), name);
    }
}

proof fn section_at_is_last(
    all: Seq<Seq<u8>>,
    sections: Seq<SectionModel>,
    name: Seq<u8>,
    k: int,
)
    requires
        0 <= k < sections.len(),
        section_name(all, sections[k]) == name,
        forall|j: int|
            k < j < sections.len() ==> section_name(all, #[trigger] sections[j]) != name,
    ensures
        section_at(all, sections, name) == Some(k),
    decreases sections.len(),
{
    if k < sections.len() - 1 {
        assert(section_name(all, sections[sections.len() - 1]) != name);
        let front = sections.drop_last();
        assert forall|j: int| k < j < front.len() implies section_name(all, #[trigger] front[j])
            != name by {
            assert(section_name(all, sections[j]) != name);
        }
        assert(front[k] == sections[k]);
        section_at_is_last(all, front, name, k);
    }
}

/// Finds the section of a function.
pub fn match_section(all: &Vec<&[u8]>, sections: &Vec<Section>, function: &[u8]) -> (r: Result<
    usize,
    String,
>)
    requires
        titles_fit(views(all@), sections@),
    ensures
        match (r, section_of(views(all@), section_models(sections@), function@)) {
            (Ok(k), Ok(expected)) => k == expected && k < sections@.len(),
            (Err(error), Err(expected)) => error@ == expected,
            _ => false,
        },
{
    let ghost texts = views(all@);
    let ghost models = section_models(sections@);
    let mut exact: Option<usize> = None;
    let mut count: usize = 0;
    let mut last: usize = 0;
    let mut n: usize = 0;
    while n < sections.len()
        invariant
            n <= sections.len(),
            texts == views(all@),
            models == section_models(sections@),
            titles_fit(texts, sections@),
            count == fitting(texts, models, n as int, function@),
            count <= n,
            last == last_fitting(texts, models, n as int, function@),
            n > 0 ==> last < n,
            n == 0 ==> last == 0,
            match exact {
                Some(k) => k < n && section_name(texts, models[k as int]) == function@
                    && forall|j: int|
                    k < j < n ==> section_name(texts, #[trigger] models[j]) != function@,
                None => forall|j: int|
                    0 <= j < n ==> section_name(texts, #[trigger] models[j]) != function@,
            },
        decreases sections.len() - n,
    {
        assert(sections@[n as int].title < texts.len());
        let line = all[sections[n].title];
        proof {
            assert(models[n as int] == section_model(sections@[n as int]));
            assert(texts[sections@[n as int].title as int] == line@);
        }
        if let Some(name) = function_title(line) {
            assert(section_name(texts, models[n as int]) == name@);
            if same(name, function) {
                exact = Some(n);
            }
            if has_part(name, function) || has_part(function, name) {
                count += 1;
                last = n;
            }
        }
        n += 1;
    }
    proof {
        match exact {
            Some(k) => {
                section_at_is_last(texts, models, function@, k as int);
            },
            None => {
                no_section_at(texts, models, function@);
            },
        }
    }
    if let Some(k) = exact {
        return Ok(k);
    }
    if count == 1 {
        return Ok(last);
    }
    let mut text = if count == 0 {
        "no SASS section for ".to_owned()
    } else {
        "ambiguous SASS section for ".to_owned()
    };
    append_name(&mut text, function);
    Err(text)
}

// Counting samples.

/// How many of the first callbacks are of the function.
pub open spec fn hits_of(hits: Seq<Hit>, n: int, slot: u32) -> nat
    decreases n,
{
    if n <= 0 {
        0
    } else {
        hits_of(hits, n - 1, slot) + if hits[n - 1].slot == slot {
            1nat
        } else {
            0
        }
    }
}

/// How many of the first callbacks are of the function at the offset.
pub open spec fn hits_on(hits: Seq<Hit>, n: int, slot: u32, offset: u64) -> nat
    decreases n,
{
    if n <= 0 {
        0
    } else {
        hits_on(hits, n - 1, slot, offset) + if hits[n - 1].slot == slot && hits[n - 1].offset
            == offset {
            1nat
        } else {
            0
        }
    }
}

/// Whether there is an instruction at the offset.
pub open spec fn has_offset(list: Seq<Instruction>, offset: u64) -> bool {
    exists|i: int| 0 <= i < list.len() && (#[trigger] list[i]).offset == offset
}

/// The first of the callbacks of the function at an offset without an
/// instruction.
pub open spec fn first_absent(hits: Seq<Hit>, n: int, slot: u32, list: Seq<Instruction>) -> Option<
    u64,
>
    decreases n,
{
    if n <= 0 {
        None
    } else {
        match first_absent(hits, n - 1, slot, list) {
            Some(offset) => Some(offset),
            None => if hits[n - 1].slot == slot && !has_offset(list, hits[n - 1].offset) {
                Some(hits[n - 1].offset)
            } else {
                None
            },
        }
    }
}

/// Whether the offsets increase.
pub open spec fn increasing(list: Seq<Instruction>) -> bool {
    forall|i: int, j: int|
        0 <= i < j < list.len() ==> (#[trigger] list[i]).offset < (#[trigger] list[j]).offset
}

pub(crate) fn find_offset(list: &Vec<Instruction>, offset: u64) -> (r: Option<usize>)
    requires
        increasing(list@),
    ensures
        match r {
            Some(i) => i < list@.len() && list@[i as int].offset == offset,
            None => !has_offset(list@, offset),
        },
{
    let mut low: usize = 0;
    let mut high: usize = list.len();
    while low < high
        invariant
            low <= high <= list.len(),
            increasing(list@),
            forall|k: int| 0 <= k < low ==> (#[trigger] list@[k]).offset < offset,
            forall|k: int| high <= k < list@.len() ==> (#[trigger] list@[k]).offset > offset,
        decreases high - low,
    {
        let middle: usize = low + (high - low) / 2;
        let here: u64 = list[middle].offset;
        if here == offset {
            return Some(middle);
        }
        if here < offset {
            low = middle + 1;
        } else {
            high = middle;
        }
    }
    None
}

/// An instruction with the number of its samples.
#[derive(Clone, Copy, Debug, PartialEq, Eq, Structural)]
pub struct SampledInstruction {
    pub offset: u64,
    pub line: usize,
    pub samples: u64,
}

pub open spec fn sampled_instructions(hits: Seq<Hit>, slot: u32, list: Seq<Instruction>) -> Seq<
    SampledInstruction,
> {
    Seq::new(
        list.len(),
        |i: int|
            SampledInstruction {
                offset: list[i].offset,
                line: list[i].line,
                samples: hits_on(hits, hits.len() as int, slot, list[i].offset) as u64,
            },
    )
}

/// How many of the first instructions were sampled.
pub open spec fn sampled_count(list: Seq<SampledInstruction>, n: int) -> nat
    decreases n,
{
    if n <= 0 {
        0
    } else {
        sampled_count(list, n - 1) + if list[n - 1].samples > 0 {
            1nat
        } else {
            0
        }
    }
}

/// A watched function with its instructions.
#[derive(Debug)]
pub struct FunctionView {
    pub function: Function,
    pub callback_count: u64,
    pub sampled_pc_count: usize,
    pub sass: Vec<SampledInstruction>,
}

pub open spec fn counters_complaint(function: Function, name: Seq<u8>, retained: nat) -> Seq<char> {
    "sanitizer function counters disagree for "@ + name_text(name) + ": callbacks="@ + decimal(
        function.callbacks as nat,
    ) + " emitted="@ + decimal(function.emitted as nat) + " retained="@ + decimal(retained)
}

pub open spec fn absent_complaint(offset: u64, name: Seq<u8>) -> Seq<char> {
    "sample PC offset 0x"@ + hexadecimal(offset as nat) + " is absent from SASS for "@ + name_text(
        name,
    )
}

/// Why a function cannot be shown, if it cannot.
pub open spec fn view_problem(
    function: Function,
    name: Seq<u8>,
    hits: Seq<Hit>,
    all: Seq<Seq<u8>>,
    sections: Seq<SectionModel>,
) -> Option<Seq<char>> {
    let total = hits_of(hits, hits.len() as int, function.slot);
    if total != function.emitted || function.callbacks != function.emitted {
        Some(counters_complaint(function, name, total))
    } else {
        match section_of(all, sections, name) {
            Err(error) => Some(error),
            Ok(k) => match first_absent(
                hits,
                hits.len() as int,
                function.slot,
                sections[k].instructions,
            ) {
                Some(offset) => Some(absent_complaint(offset, name)),
                None => None,
            },
        }
    }
}

/// Whether the view is that of the function.
pub open spec fn view_is(
    view: FunctionView,
    function: Function,
    name: Seq<u8>,
    hits: Seq<Hit>,
    all: Seq<Seq<u8>>,
    sections: Seq<SectionModel>,
) -> bool {
    let list = sections[section_of(all, sections, name)->Ok_0].instructions;
    &&& view.function == function
    &&& view.callback_count == hits_of(hits, hits.len() as int, function.slot)
    &&& view.sass@ == sampled_instructions(hits, function.slot, list)
    &&& view.sampled_pc_count == sampled_count(view.sass@, view.sass@.len() as int)
}

proof fn absent_stays(hits: Seq<Hit>, n: int, m: int, slot: u32, list: Seq<Instruction>)
    requires
        0 <= n <= m,
        first_absent(hits, n, slot, list) is Some,
    ensures
        first_absent(hits, m, slot, list) == first_absent(hits, n, slot, list),
    decreases m - n,
{
    if n < m {
        absent_stays(hits, n, m - 1, slot, list);
    }
}

fn count_hits(hits: &Vec<Hit>, slot: u32) -> (r: usize)
    ensures
        r == hits_of(hits@, hits@.len() as int, slot),
{
    let mut count: usize = 0;
    let mut n: usize = 0;
    while n < hits.len()
        invariant
            n <= hits.len(),
            count == hits_of(hits@, n as int, slot),
            count <= n,
        decreases hits.len() - n,
    {
        if hits[n].slot == slot {
            count += 1;
        }
        n += 1;
    }
    count
}

fn count_samples(hits: &Vec<Hit>, slot: u32, list: &Vec<Instruction>) -> (r: Result<Vec<u64>, u64>)
    requires
        increasing(list@),
    ensures
        match (r, first_absent(hits@, hits@.len() as int, slot, list@)) {
            (Ok(counts), None) => counts@.len() == list@.len() && forall|i: int|
                0 <= i < list@.len() ==> (#[trigger] counts@[i]) == hits_on(
                    hits@,
                    hits@.len() as int,
                    slot,
                    list@[i].offset,
                ),
            (Err(offset), Some(expected)) => offset == expected,
            _ => false,
        },
{
    let mut counts: Vec<u64> = Vec::new();
    let mut i: usize = 0;
    while i < list.len()
        invariant
            i <= list.len(),
            counts@.len() == i,
            forall|k: int| 0 <= k < i ==> (#[trigger] counts@[k]) == 0,
        decreases list.len() - i,
    {
        counts.push(0);
        i += 1;
    }
    let mut n: usize = 0;
    while n < hits.len()
        invariant
            n <= hits.len(),
            increasing(list@),
            counts@.len() == list@.len(),
            forall|k: int|
                0 <= k < list@.len() ==> (#[trigger] counts@[k]) == hits_on(
                    hits@,
                    n as int,
                    slot,
                    list@[k].offset,
                ) && counts@[k] <= n,
            first_absent(hits@, n as int, slot, list@) is None,
        decreases hits.len() - n,
    {
        let hit = hits[n];
        let ghost before = counts@;
        if hit.slot == slot {
            match find_offset(list, hit.offset) {
                None => {
                    proof {
                        absent_stays(hits@, n + 1, hits@.len() as int, slot, list@);
                    }
                    return Err(hit.offset);
                },
                Some(k) => {
                    assert(before[k as int] <= n);
                    let count: u64 = counts[k] + 1;
                    counts.set(k, count);
                    assert(has_offset(list@, hit.offset));
                },
            }
        }
        assert forall|k: int| 0 <= k < list@.len() implies (#[trigger] counts@[k]) == hits_on(
            hits@,
            n + 1,
            slot,
            list@[k].offset,
        ) && counts@[k] <= n + 1 by {
            assert(before[k] == hits_on(hits@, n as int, slot, list@[k].offset));
            if hit.slot == slot && list@[k].offset != hit.offset {
                assert(counts@[k] == before[k]);
            }
        }
        n += 1;
    }
    Ok(counts)
}

/// Whether the instructions of every section stand at increasing offsets.
pub open spec fn all_increasing(sections: Seq<SectionModel>) -> bool {
    forall|k: int|
        0 <= k < sections.len() ==> increasing((#[trigger] sections[k]).instructions)
}

fn view_function(
    function: &Function,
    name: &[u8],
    hits: &Vec<Hit>,
    all: &Vec<&[u8]>,
    sections: &Vec<Section>,
) -> (r: Result<FunctionView, String>)
    requires
        titles_fit(views(all@), sections@),
        all_increasing(section_models(sections@)),
    ensures
        match (
            r,
            view_problem(*function, name@, hits@, views(all@), section_models(sections@)),
        ) {
            (Ok(view), None) => view_is(
                view,
                *function,
                name@,
                hits@,
                views(all@),
                section_models(sections@),
            ),
            (Err(error), Some(problem)) => error@ == problem,
            _ => false,
        },
{
    let ghost models = section_models(sections@);
    let total: usize = count_hits(hits, function.slot);
    if total as u64 != function.emitted || function.callbacks != function.emitted {
        let mut text = "sanitizer function counters disagree for ".to_owned();
        append_name(&mut text, name);
        text.append(": callbacks=");
        append_decimal(&mut text, function.callbacks);
        text.append(" emitted=");
        append_decimal(&mut text, function.emitted);
        text.append(" retained=");
        append_decimal(&mut text, total as u64);
        return Err(text);
    }
    let k: usize = match_section(all, sections, name)?;
    let list = &sections[k].instructions;
    proof {
        assert(models[k as int] == section_model(sections@[k as int]));
        assert(increasing(models[k as int].instructions));
    }
    let counts = match count_samples(hits, function.slot, list) {
        Ok(counts) => counts,
        Err(offset) => {
            let mut text = "sample PC offset 0x".to_owned();
            append_hex(&mut text, offset);
            text.append(" is absent from SASS for ");
            append_name(&mut text, name);
            return Err(text);
        },
    };
    let ghost goal = sampled_instructions(hits@, function.slot, list@);
    let mut sass: Vec<SampledInstruction> = Vec::new();
    let mut sampled: usize = 0;
    let mut i: usize = 0;
    while i < list.len()
        invariant
            i <= list.len(),
            counts@.len() == list@.len(),
            goal == sampled_instructions(hits@, function.slot, list@),
            forall|j: int|
                0 <= j < list@.len() ==> (#[trigger] counts@[j]) == hits_on(
                    hits@,
                    hits@.len() as int,
                    function.slot,
                    list@[j].offset,
                ),
            sass@ == goal.take(i as int),
            sampled == sampled_count(goal, i as int),
            sampled <= i,
        decreases list.len() - i,
    {
        let samples: u64 = counts[i];
        assert(counts@[i as int] == goal[i as int].samples);
        sass.push(SampledInstruction { offset: list[i].offset, line: list[i].line, samples });
        assert(sass@ =~= goal.take(i + 1));
        if samples > 0 {
            sampled += 1;
        }
        i += 1;
    }
    assert(sass@ =~= goal);
    Ok(
        FunctionView {
            function: *function,
            callback_count: total as u64,
            sampled_pc_count: sampled,
            sass,
        },
    )
}

// The replay.

/// What a deep replay is made of.
pub struct DeepInput<'a> {
    pub module_hash: &'a [u8],
    pub target: &'a [u8],
    pub summary: &'a Vec<&'a [u8]>,
    pub events: &'a [u8],
    pub sass: &'a Vec<&'a [u8]>,
}

pub open spec fn input_hits(input: DeepInput, functions: Seq<Function>) -> Result<
    HitsModel,
    Seq<char>,
> {
    hits_from(
        input.events@,
        0,
        functions,
        HitsModel { hits: Seq::empty(), total: 0, drops: 0 },
    )
}

/// Why one of the first functions cannot be shown, if one cannot.
pub open spec fn views_problem(
    functions: Seq<Function>,
    n: int,
    summary: Seq<Seq<u8>>,
    hits: Seq<Hit>,
    all: Seq<Seq<u8>>,
    sections: Seq<SectionModel>,
) -> Option<Seq<char>>
    decreases n,
{
    if n <= 0 {
        None
    } else {
        match views_problem(functions, n - 1, summary, hits, all, sections) {
            Some(problem) => Some(problem),
            None => view_problem(
                functions[n - 1],
                function_name(summary[functions[n - 1].line as int]),
                hits,
                all,
                sections,
            ),
        }
    }
}

proof fn views_problem_stays(
    functions: Seq<Function>,
    n: int,
    m: int,
    summary: Seq<Seq<u8>>,
    hits: Seq<Hit>,
    all: Seq<Seq<u8>>,
    sections: Seq<SectionModel>,
)
    requires
        0 <= n <= m,
        views_problem(functions, n, summary, hits, all, sections) is Some,
    ensures
        views_problem(functions, m, summary, hits, all, sections) == views_problem(
            functions,
            n,
            summary,
            hits,
            all,
            sections,
        ),
    decreases m - n,
{
    if n < m {
        views_problem_stays(functions, n, m - 1, summary, hits, all, sections);
    }
}

/// Why there is no deep replay, if there is none.
pub open spec fn deep_problem(input: DeepInput) -> Option<Seq<char>> {
    let summary = views(input.summary@);
    let all = views(input.sass@);
    if !is_hash(input.module_hash@) {
        Some("module hash must be SHA-256 hex"@)
    } else {
        match replay_functions_of(summary, input.target@) {
            Err(error) => Some(error),
            Ok(functions) => match input_hits(input, functions) {
                Err(error) => Some(error),
                Ok(found) => if found.drops != 0 {
                    Some("refusing dropped sanitizer events"@)
                } else if found.total == 0 || found.hits.len() == 0 {
                    Some("refusing deep replay without target device callbacks"@)
                } else if found.hits.len() != found.total {
                    Some("sanitizer event file contains callbacks outside selected functions"@)
                } else {
                    match sections_of(all, input.target@) {
                        Err(error) => Some(error),
                        Ok(sections) => views_problem(
                            functions,
                            functions.len() as int,
                            summary,
                            arranged(found.hits),
                            all,
                            sections,
                        ),
                    }
                },
            },
        }
    }
}

/// A deep replay.
#[derive(Debug)]
pub struct DeepReplay {
    pub total_events: u64,
    pub total_drops: u64,
    pub functions: Vec<FunctionView>,
}

pub open spec fn deep_is(replay: DeepReplay, input: DeepInput) -> bool {
    let summary = views(input.summary@);
    let all = views(input.sass@);
    let functions = replay_functions_of(summary, input.target@)->Ok_0;
    let found = input_hits(input, functions)->Ok_0;
    let sections = sections_of(all, input.target@)->Ok_0;
    &&& replay.total_events == found.total
    &&& replay.total_drops == found.drops
    &&& replay.functions@.len() == functions.len()
    &&& forall|k: int|
        0 <= k < functions.len() ==> view_is(
            #[trigger] replay.functions@[k],
            functions[k],
            function_name(summary[functions[k].line as int]),
            arranged(found.hits),
            all,
            sections,
        )
}

proof fn sections_increase(all: Seq<Seq<u8>>, target: Seq<u8>)
    requires
        sections_of(all, target) is Ok,
    ensures
        all_increasing(sections_of(all, target)->Ok_0),
{
    let listing = crate::sass::listing_of(all, all.len() as int, target)->Ok_0;
    let sections = sections_of(all, target)->Ok_0;
    assert forall|k: int| 0 <= k < sections.len() implies increasing(
        (#[trigger] sections[k]).instructions,
    ) by {
        no_bad_section(all, listing.sections, listing.sections.len() as int, k);
        let section = listing.sections[k];
        assert(sections[k] == crate::sass::sorted_section(section));
        assert forall|i: int, j: int|
            0 <= i < j < sections[k].instructions.len() implies (
        #[trigger] sections[k].instructions[i]).offset < (
        #[trigger] sections[k].instructions[j]).offset by {
            crate::sass::offsets_are_distinct(section, i, j);
        }
    }
}

proof fn no_bad_section(all: Seq<Seq<u8>>, sections: Seq<SectionModel>, n: int, k: int)
    requires
        0 <= k < n,
        crate::sass::first_bad_section(all, sections, n) is None,
    ensures
        crate::sass::section_problem(sections[k]) is None,
    decreases n,
{
    if k < n - 1 {
        no_bad_section(all, sections, n - 1, k);
    }
}

/// Builds a deep replay.
pub fn deep_replay(input: &DeepInput) -> (r: Result<DeepReplay, String>)
    ensures
        match (r, deep_problem(*input)) {
            (Ok(replay), None) => deep_is(replay, *input),
            (Err(error), Some(problem)) => error@ == problem,
            _ => false,
        },
{
    let ghost summary = views(input.summary@);
    let ghost all = views(input.sass@);
    if !hash_is_valid(input.module_hash) {
        return Err("module hash must be SHA-256 hex".to_owned());
    }
    let functions = replay_functions(input.summary, input.target)?;
    let found = read_hits(input.events, functions.as_slice())?;
    if found.drops != 0 {
        return Err("refusing dropped sanitizer events".to_owned());
    }
    if found.total == 0 || found.hits.len() == 0 {
        return Err("refusing deep replay without target device callbacks".to_owned());
    }
    if found.hits.len() as u64 != found.total {
        return Err(
            "sanitizer event file contains callbacks outside selected functions".to_owned(),
        );
    }
    let sections = match sass_sections(input.sass, input.target) {
        Ok(sections) => sections,
        Err(error) => {
            return Err(error.to_owned());
        },
    };
    proof {
        sections_increase(all, input.target@);
    }
    let ghost models = section_models(sections@);
    let hits = arranged_copy(found.hits.as_slice());
    let mut list: Vec<FunctionView> = Vec::new();
    let mut n: usize = 0;
    while n < functions.len()
        invariant
            n <= functions.len(),
            summary == views(input.summary@),
            all == views(input.sass@),
            models == section_models(sections@),
            titles_fit(all, sections@),
            all_increasing(models),
            lines_fit(functions@, summary.len()),
            views_problem(functions@, n as int, summary, hits@, all, models) is None,
            list@.len() == n,
            forall|k: int|
                0 <= k < n ==> view_is(
                    #[trigger] list@[k],
                    functions@[k],
                    function_name(summary[functions@[k].line as int]),
                    hits@,
                    all,
                    models,
                ),
            deep_problem(*input) == views_problem(
                functions@,
                functions@.len() as int,
                summary,
                hits@,
                all,
                models,
            ),
        decreases functions.len() - n,
    {
        let function = functions[n];
        proof {
            assert(functions@[n as int].line < summary.len());
            assert(summary[function.line as int] == input.summary@[function.line as int]@);
            if views_problem(functions@, n + 1, summary, hits@, all, models) is Some {
                views_problem_stays(
                    functions@,
                    n + 1,
                    functions@.len() as int,
                    summary,
                    hits@,
                    all,
                    models,
                );
            }
        }
        let name = name_in_row(input.summary[function.line]);
        let view = view_function(&function, name, &hits, input.sass, &sections)?;
        list.push(view);
        n += 1;
    }
    Ok(DeepReplay { total_events: found.total, total_drops: found.drops, functions: list })
}

// Laws.

/// How many of the first callbacks are of the function at one of the first
/// instructions.
pub open spec fn hits_among(
    hits: Seq<Hit>,
    n: int,
    slot: u32,
    list: Seq<Instruction>,
    m: int,
) -> nat
    decreases m,
{
    if m <= 0 {
        0
    } else {
        hits_among(hits, n, slot, list, m - 1) + hits_on(hits, n, slot, list[m - 1].offset)
    }
}

/// The samples of the instructions of a function add up to its callbacks.
pub proof fn samples_add_up(hits: Seq<Hit>, n: int, slot: u32, list: Seq<Instruction>)
    requires
        0 <= n <= hits.len(),
        increasing(list),
        first_absent(hits, n, slot, list) is None,
    ensures
        hits_among(hits, n, slot, list, list.len() as int) == hits_of(hits, n, slot),
    decreases n,
{
    if n == 0 {
        none_among(hits, slot, list, list.len() as int);
    } else {
        samples_add_up(hits, n - 1, slot, list);
        let hit = hits[n - 1];
        let at = if hit.slot == slot {
            choose|i: int| 0 <= i < list.len() && (#[trigger] list[i]).offset == hit.offset
        } else {
            -1
        };
        if hit.slot == slot {
            assert(has_offset(list, hit.offset));
            assert(0 <= at < list.len() && list[at].offset == hit.offset);
        }
        one_more_among(hits, n, slot, list, list.len() as int, at);
    }
}

proof fn none_among(hits: Seq<Hit>, slot: u32, list: Seq<Instruction>, m: int)
    ensures
        hits_among(hits, 0, slot, list, m) == 0,
    decreases m,
{
    if m > 0 {
        none_among(hits, slot, list, m - 1);
    }
}

proof fn one_more_among(
    hits: Seq<Hit>,
    n: int,
    slot: u32,
    list: Seq<Instruction>,
    m: int,
    at: int,
)
    requires
        0 < n <= hits.len(),
        0 <= m <= list.len(),
        increasing(list),
        if hits[n - 1].slot == slot {
            0 <= at < list.len() && list[at].offset == hits[n - 1].offset
        } else {
            at == -1
        },
    ensures
        hits_among(hits, n, slot, list, m) == hits_among(hits, n - 1, slot, list, m) + if 0 <= at
            < m {
            1nat
        } else {
            0
        },
    decreases m,
{
    if m > 0 {
        one_more_among(hits, n, slot, list, m - 1, at);
        if 0 <= at && at != m - 1 {
            if at < m - 1 {
                assert(list[at].offset < list[m - 1].offset);
            } else {
                assert(list[m - 1].offset < list[at].offset);
            }
        }
    }
}

} // verus!
