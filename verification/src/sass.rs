//! Disassembly listings: the instructions of functions, by their offsets.

use crate::order::{arranged, arranged_copy, Keyed};
use crate::text::{
    all_digits, bytes_before, contains, digit_value, find_bytes, has_part, is_before, is_text,
    not_text, not_text_words, parse_hex_u64, place_is_the_one, place_of, same, trim, trimmed,
    unsigned_of, views,
};
use vstd::prelude::*;
use vstd::slice::slice_subrange;
use vstd::string::*;
use vstd::utf8::{encode_utf8, valid_utf8};

verus! {

pub const MAX_INSTRUCTIONS: usize = 65_536;

// Lines.

/// What stands behind the first occurrence of the word.
pub open spec fn behind(s: Seq<u8>, word: Seq<char>) -> Option<Seq<u8>> {
    let part = encode_utf8(word);
    if contains(s, part) {
        Some(s.skip(place_of(s, part) + part.len()))
    } else {
        None
    }
}

/// What stands before the first occurrence of the word.
pub open spec fn in_front(s: Seq<u8>, word: Seq<char>) -> Option<Seq<u8>> {
    let part = encode_utf8(word);
    if contains(s, part) {
        Some(s.take(place_of(s, part)))
    } else {
        None
    }
}

fn cut<'a>(s: &'a [u8], word: &str) -> (r: Option<(&'a [u8], &'a [u8])>)
    ensures
        match r {
            Some((front, rest)) => in_front(s@, word@) == Some(front@) && behind(s@, word@) == Some(
                rest@,
            ),
            None => in_front(s@, word@) is None && behind(s@, word@) is None,
        },
{
    let part = word.as_bytes();
    match find_bytes(s, part) {
        Some(i) => {
            proof {
                place_is_the_one(s@, part@, i as int);
                assert(contains(s@, part@));
            }
            let front = slice_subrange(s, 0, i);
            let rest = slice_subrange(s, i + part.len(), s.len());
            assert(front@ =~= s@.take(i as int));
            assert(rest@ =~= s@.skip(i + part@.len()));
            Some((front, rest))
        },
        None => None,
    }
}

/// The name of the function that a line opens.
pub open spec fn title_of(line: Seq<u8>) -> Option<Seq<u8>> {
    match behind(line, "Function :"@) {
        Some(rest) => Some(trimmed(rest)),
        None => None,
    }
}

/// The name of the function that a line opens.
pub fn function_title<'a>(line: &'a [u8]) -> (r: Option<&'a [u8]>)
    ensures
        title_of(line@) == match r {
            Some(name) => Some(name@),
            None => None,
        },
{
    match cut(line, "Function :") {
        Some((_, rest)) => Some(trim(rest)),
        None => None,
    }
}

/// What the first comment of a line holds.
pub open spec fn comment_of(line: Seq<u8>) -> Option<Seq<u8>> {
    match behind(line, "/*"@) {
        None => None,
        Some(rest) => match in_front(rest, "*/"@) {
            None => None,
            Some(inside) => Some(trimmed(inside)),
        },
    }
}

/// The digits of the offset in front of an instruction.
pub open spec fn offset_digits(line: Seq<u8>) -> Option<Seq<u8>> {
    match comment_of(line) {
        Some(digits) if digits.len() > 0 && all_digits(digits, 16) => Some(digits),
        _ => None,
    }
}

/// The instruction behind the first comment of a line.
pub open spec fn instruction_text(line: Seq<u8>) -> Seq<u8> {
    match behind(line, "/*"@) {
        None => Seq::empty(),
        Some(rest) => match behind(rest, "*/"@) {
            None => Seq::empty(),
            Some(text) => trimmed(text),
        },
    }
}

fn all_hex(s: &[u8]) -> (r: bool)
    ensures
        r == all_digits(s@, 16),
{
    let mut i: usize = 0;
    while i < s.len()
        invariant
            i <= s.len(),
            forall|k: int| 0 <= k < i ==> digit_value(#[trigger] s@[k]) < 16,
        decreases s.len() - i,
    {
        let byte: u8 = s[i];
        if !(0x30 <= byte && byte <= 0x39 || 0x61 <= byte && byte <= 0x66 || 0x41 <= byte && byte
            <= 0x46) {
            assert(digit_value(s@[i as int]) >= 16);
            return false;
        }
        i += 1;
    }
    true
}

/// Whether a line lists an instruction.
fn read_digits<'a>(line: &'a [u8]) -> (r: Option<&'a [u8]>)
    ensures
        offset_digits(line@) == match r {
            Some(digits) => Some(digits@),
            None => None,
        },
{
    match cut(line, "/*") {
        None => None,
        Some((_, rest)) => match cut(rest, "*/") {
            None => None,
            Some((inside, _)) => {
                let digits = trim(inside);
                if digits.len() > 0 && all_hex(digits) {
                    Some(digits)
                } else {
                    None
                }
            },
        },
    }
}

/// The instruction behind the first comment of a line.
pub fn instruction_of<'a>(line: &'a [u8]) -> (r: &'a [u8])
    ensures
        r@ == instruction_text(line@),
{
    match cut(line, "/*") {
        None => slice_subrange(line, 0, 0),
        Some((_, rest)) => match cut(rest, "*/") {
            None => slice_subrange(line, 0, 0),
            Some((_, text)) => trim(text),
        },
    }
}

/// What a line of a listing is.
#[derive(Clone, Copy, Debug, PartialEq, Eq, Structural)]
pub enum SassLine {
    Title,
    Instruction(u64),
    Excessive,
    Other,
    NotText,
}

pub open spec fn sass_line(line: Seq<u8>) -> SassLine {
    if !valid_utf8(line) {
        SassLine::NotText
    } else if title_of(line) is Some {
        SassLine::Title
    } else {
        match offset_digits(line) {
            None => SassLine::Other,
            Some(digits) => match unsigned_of(digits, 16, u64::MAX as nat) {
                Some(offset) => SassLine::Instruction(offset as u64),
                None => SassLine::Excessive,
            },
        }
    }
}

pub(crate) fn read_sass_line(line: &[u8]) -> (r: SassLine)
    ensures
        r == sass_line(line@),
{
    if !is_text(line) {
        return SassLine::NotText;
    }
    if function_title(line).is_some() {
        return SassLine::Title;
    }
    match read_digits(line) {
        None => SassLine::Other,
        Some(digits) => match parse_hex_u64(digits) {
            Some(offset) => SassLine::Instruction(offset),
            None => SassLine::Excessive,
        },
    }
}

// Sections.

/// An instruction: its offset, and the line that lists it.
#[derive(Clone, Copy, Debug, PartialEq, Eq, Structural)]
pub struct Instruction {
    pub offset: u64,
    pub line: usize,
}

impl Keyed for Instruction {
    open spec fn before(self, other: Self) -> bool {
        self.offset <= other.offset
    }

    proof fn before_is_total(a: Self, b: Self) {
    }

    proof fn before_is_transitive(a: Self, b: Self, c: Self) {
    }

    fn comes_before(&self, other: &Self) -> (r: bool) {
        self.offset <= other.offset
    }
}

/// The instructions of a function, and the line that names it.
#[derive(Debug)]
pub struct Section {
    pub title: usize,
    pub instructions: Vec<Instruction>,
}

#[verifier::ext_equal]
pub struct SectionModel {
    pub title: usize,
    pub instructions: Seq<Instruction>,
}

pub open spec fn section_model(section: Section) -> SectionModel {
    SectionModel { title: section.title, instructions: section.instructions@ }
}

pub open spec fn section_models(sections: Seq<Section>) -> Seq<SectionModel> {
    sections.map_values(|section: Section| section_model(section))
}

/// The name of a section.
pub open spec fn section_name(all: Seq<Seq<u8>>, section: SectionModel) -> Seq<u8> {
    title_of(all[section.title as int])->0
}

/// What has been read of a listing: the sections, and that of the function that
/// is being listed, where it is one of the target.
#[verifier::ext_equal]
pub struct Listing {
    pub sections: Seq<SectionModel>,
    pub current: Option<int>,
}

/// The section with the name.
pub open spec fn section_at(all: Seq<Seq<u8>>, sections: Seq<SectionModel>, name: Seq<u8>) -> Option<
    int,
>
    decreases sections.len(),
{
    if sections.len() == 0 {
        None
    } else if section_name(all, sections.last()) == name {
        Some(sections.len() - 1)
    } else {
        section_at(all, sections.drop_last(), name)
    }
}

/// The listing after the line at the place.
pub open spec fn after_sass_line(
    all: Seq<Seq<u8>>,
    i: int,
    target: Seq<u8>,
    listing: Listing,
) -> Result<Listing, Seq<char>> {
    let line = all[i];
    match sass_line(line) {
        SassLine::Title => {
            let name = title_of(line)->0;
            if !contains(name, target) {
                Ok(Listing { current: None, ..listing })
            } else {
                match section_at(all, listing.sections, name) {
                    Some(k) => Ok(Listing { current: Some(k), ..listing }),
                    None => Ok(
                        Listing {
                            sections: listing.sections.push(
                                SectionModel { title: i as usize, instructions: Seq::empty() },
                            ),
                            current: Some(listing.sections.len() as int),
                        },
                    ),
                }
            }
        },
        SassLine::NotText => Err(not_text()),
        SassLine::Other => Ok(listing),
        SassLine::Excessive => match listing.current {
            None => Ok(listing),
            Some(k) => if listing.sections[k].instructions.len() == MAX_INSTRUCTIONS {
                Err("SASS function exceeds instruction bound"@)
            } else {
                Err("number too large to fit in target type"@)
            },
        },
        SassLine::Instruction(offset) => match listing.current {
            None => Ok(listing),
            Some(k) => {
                let section = listing.sections[k];
                if section.instructions.len() == MAX_INSTRUCTIONS {
                    Err("SASS function exceeds instruction bound"@)
                } else {
                    Ok(
                        Listing {
                            sections: listing.sections.update(
                                k,
                                SectionModel {
                                    instructions: section.instructions.push(
                                        Instruction { offset, line: i as usize },
                                    ),
                                    ..section
                                },
                            ),
                            ..listing
                        },
                    )
                }
            },
        },
    }
}

/// The listing after the first lines.
pub open spec fn listing_of(all: Seq<Seq<u8>>, n: int, target: Seq<u8>) -> Result<
    Listing,
    Seq<char>,
>
    decreases n,
{
    if n <= 0 {
        Ok(Listing { sections: Seq::empty(), current: None })
    } else {
        match listing_of(all, n - 1, target) {
            Err(error) => Err(error),
            Ok(listing) => after_sass_line(all, n - 1, target, listing),
        }
    }
}

proof fn listing_failure_stays(all: Seq<Seq<u8>>, n: int, m: int, target: Seq<u8>)
    requires
        0 <= n <= m,
        listing_of(all, n, target) is Err,
    ensures
        listing_of(all, m, target) == listing_of(all, n, target),
    decreases m - n,
{
    if n < m {
        listing_failure_stays(all, n, m - 1, target);
    }
}

struct Reader {
    sections: Vec<Section>,
    current: Option<usize>,
}

impl Reader {
    spec fn model(self) -> Listing {
        Listing {
            sections: section_models(self.sections@),
            current: match self.current {
                Some(k) => Some(k as int),
                None => None,
            },
        }
    }

    spec fn wf(self, all: Seq<Seq<u8>>) -> bool {
        &&& self.current matches Some(k) ==> k < self.sections@.len()
        &&& titles_fit(all, self.sections@)
    }
}

/// Whether every section is named by a line.
pub open spec fn titles_fit(all: Seq<Seq<u8>>, sections: Seq<Section>) -> bool {
    forall|k: int|
        0 <= k < sections.len() ==> (#[trigger] sections[k]).title < all.len() && title_of(
            all[sections[k].title as int],
        ) is Some
}

fn find_section(all: &Vec<&[u8]>, sections: &Vec<Section>, name: &[u8]) -> (r: Option<usize>)
    requires
        titles_fit(views(all@), sections@),
    ensures
        section_at(views(all@), section_models(sections@), name@) == match r {
            Some(k) => Some(k as int),
            None => None,
        },
        r matches Some(k) ==> k < sections@.len(),
{
    let ghost texts = views(all@);
    let ghost models = section_models(sections@);
    let mut n: usize = sections.len();
    assert(models.take(n as int) =~= models);
    while n > 0
        invariant
            n <= sections.len(),
            texts == views(all@),
            models == section_models(sections@),
            titles_fit(texts, sections@),
            section_at(texts, models.take(n as int), name@) == section_at(texts, models, name@),
        decreases n,
    {
        let section = &sections[n - 1];
        proof {
            assert(sections@[n - 1].title < texts.len());
            assert(models.take(n as int).last() == section_model(sections@[n - 1]));
            assert(models.take(n as int).drop_last() =~= models.take(n - 1));
            assert(texts[section.title as int] == all@[section.title as int]@);
        }
        if let Some(title) = function_title(all[section.title]) {
            if same(title, name) {
                return Some(n - 1);
            }
        }
        n -= 1;
    }
    None
}

fn add_sass_line(reader: &mut Reader, all: &Vec<&[u8]>, i: usize, target: &[u8]) -> (r: Result<
    (),
    &'static str,
>)
    requires
        i < all@.len(),
        old(reader).wf(views(all@)),
    ensures
        final(reader).wf(views(all@)),
        match (r, after_sass_line(views(all@), i as int, target@, old(reader).model())) {
            (Ok(_), Ok(next)) => final(reader).model() == next,
            (Err(error), Err(expected)) => error@ == expected,
            _ => false,
        },
{
    let ghost texts = views(all@);
    let line = all[i];
    assert(texts[i as int] == line@);
    let ghost before = reader.sections@;
    match read_sass_line(line) {
        SassLine::Title => {
            if let Some(name) = function_title(line) {
                if !has_part(name, target) {
                    reader.current = None;
                    return Ok(());
                }
                match find_section(all, &reader.sections, name) {
                    Some(k) => {
                        reader.current = Some(k);
                    },
                    None => {
                        let k: usize = reader.sections.len();
                        let section = Section { title: i, instructions: Vec::new() };
                        reader.sections.push(section);
                        reader.current = Some(k);
                        proof {
                            let model = section_model(section);
                            assert(model =~= (SectionModel {
                                title: i,
                                instructions: Seq::empty(),
                            }));
                            assert(section_models(reader.sections@) =~= section_models(
                                before,
                            ).push(model));
                        }
                    },
                }
            }
            Ok(())
        },
        SassLine::NotText => Err(not_text_words()),
        SassLine::Other => Ok(()),
        SassLine::Excessive => match reader.current {
            None => Ok(()),
            Some(k) => {
                assert(section_models(before)[k as int].instructions
                    == before[k as int].instructions@);
                if reader.sections[k].instructions.len() == MAX_INSTRUCTIONS {
                    Err("SASS function exceeds instruction bound")
                } else {
                    Err("number too large to fit in target type")
                }
            },
        },
        SassLine::Instruction(offset) => match reader.current {
            None => Ok(()),
            Some(k) => {
                assert(section_models(before)[k as int] == section_model(before[k as int]));
                if reader.sections[k].instructions.len() == MAX_INSTRUCTIONS {
                    return Err("SASS function exceeds instruction bound");
                }
                reader.sections[k].instructions.push(Instruction { offset, line: i });
                proof {
                    let after = reader.sections@;
                    assert(after[k as int].title == before[k as int].title);
                    assert(after[k as int].instructions@ == before[k as int].instructions@.push(
                        Instruction { offset, line: i },
                    ));
                    let expected = section_models(before).update(
                        k as int,
                        SectionModel {
                            title: before[k as int].title,
                            instructions: before[k as int].instructions@.push(
                                Instruction { offset, line: i },
                            ),
                        },
                    );
                    assert forall|j: int| 0 <= j < after.len() implies section_models(after)[j]
                        == expected[j] by {
                        if j != k {
                            assert(after[j] == before[j]);
                        }
                    }
                    assert(section_models(after) =~= expected);
                    assert forall|j: int| 0 <= j < after.len() implies (#[trigger] after[j]).title
                        < texts.len() && title_of(texts[after[j].title as int]) is Some by {
                        assert(after[j].title == before[j].title);
                    }
                }
                Ok(())
            },
        },
    }
}

fn read_listing(all: &Vec<&[u8]>, target: &[u8]) -> (r: Result<Reader, &'static str>)
    ensures
        match (r, listing_of(views(all@), all@.len() as int, target@)) {
            (Ok(reader), Ok(listing)) => reader.model() == listing && reader.wf(views(all@)),
            (Err(error), Err(expected)) => error@ == expected,
            _ => false,
        },
{
    let ghost texts = views(all@);
    let mut reader = Reader { sections: Vec::new(), current: None };
    assert(section_models(reader.sections@) =~= Seq::<SectionModel>::empty());
    let mut i: usize = 0;
    while i < all.len()
        invariant
            i <= all.len(),
            texts == views(all@),
            reader.wf(texts),
            listing_of(texts, i as int, target@) == Ok::<Listing, Seq<char>>(reader.model()),
        decreases all.len() - i,
    {
        proof {
            if listing_of(texts, i + 1, target@) is Err {
                listing_failure_stays(texts, i + 1, texts.len() as int, target@);
            }
        }
        add_sass_line(&mut reader, all, i, target)?;
        i += 1;
    }
    Ok(reader)
}

// Sorted sections.

/// Whether two instructions in a row have the same offset.
pub open spec fn offsets_repeat(sorted: Seq<Instruction>) -> bool {
    exists|i: int| 0 <= i < sorted.len() - 1 && repeats_at(sorted, i)
}

pub open spec fn repeats_at(sorted: Seq<Instruction>, i: int) -> bool {
    sorted[i].offset == sorted[i + 1].offset
}

pub(crate) fn has_repeats(sorted: &Vec<Instruction>) -> (r: bool)
    ensures
        r == offsets_repeat(sorted@),
{
    let mut i: usize = 1;
    while i < sorted.len()
        invariant
            1 <= i,
            forall|k: int| 0 <= k < i - 1 && k < sorted@.len() - 1 ==> !repeats_at(sorted@, k),
        decreases sorted.len() - i,
    {
        if sorted[i - 1].offset == sorted[i].offset {
            assert(repeats_at(sorted@, i - 1));
            return true;
        }
        i += 1;
    }
    false
}

/// What is wrong with the instructions of a section, if anything.
pub open spec fn section_problem(section: SectionModel) -> Option<Seq<char>> {
    if section.instructions.len() == 0 {
        Some("target SASS section contains no instructions"@)
    } else if offsets_repeat(arranged(section.instructions)) {
        Some("target SASS section contains duplicate instruction offsets"@)
    } else {
        None
    }
}

/// The section whose name comes first among those with a problem.
pub open spec fn first_bad_section(
    all: Seq<Seq<u8>>,
    sections: Seq<SectionModel>,
    n: int,
) -> Option<int>
    decreases n,
{
    if n <= 0 {
        None
    } else {
        let before = first_bad_section(all, sections, n - 1);
        if section_problem(sections[n - 1]) is None {
            before
        } else {
            match before {
                Some(k) if bytes_before(
                    section_name(all, sections[k]),
                    section_name(all, sections[n - 1]),
                ) => before,
                _ => Some(n - 1),
            }
        }
    }
}

/// A section with its instructions in the order of their offsets.
pub open spec fn sorted_section(section: SectionModel) -> SectionModel {
    SectionModel { instructions: arranged(section.instructions), ..section }
}

/// The sections of a listing whose names hold the target, or why there are
/// none.
pub open spec fn sections_of(all: Seq<Seq<u8>>, target: Seq<u8>) -> Result<
    Seq<SectionModel>,
    Seq<char>,
> {
    match listing_of(all, all.len() as int, target) {
        Err(error) => Err(error),
        Ok(listing) => match first_bad_section(
            all,
            listing.sections,
            listing.sections.len() as int,
        ) {
            Some(k) => Err(section_problem(listing.sections[k])->0),
            None => if listing.sections.len() == 0 {
                Err("no target SASS section"@)
            } else {
                Ok(listing.sections.map_values(|section: SectionModel| sorted_section(section)))
            },
        },
    }
}

fn check_section(section: &Section) -> (r: (Option<&'static str>, Vec<Instruction>))
    ensures
        match (r.0, section_problem(section_model(*section))) {
            (None, None) => true,
            (Some(error), Some(problem)) => error@ == problem,
            _ => false,
        },
        r.1@ == arranged(section.instructions@),
{
    let sorted = arranged_copy(section.instructions.as_slice());
    if section.instructions.len() == 0 {
        return (Some("target SASS section contains no instructions"), sorted);
    }
    if has_repeats(&sorted) {
        return (Some("target SASS section contains duplicate instruction offsets"), sorted);
    }
    (None, sorted)
}

/// Reads the sections of a listing whose names hold the target.
pub fn sass_sections(all: &Vec<&[u8]>, target: &[u8]) -> (r: Result<Vec<Section>, &'static str>)
    ensures
        match (r, sections_of(views(all@), target@)) {
            (Ok(sections), Ok(expected)) => section_models(sections@) == expected && titles_fit(
                views(all@),
                sections@,
            ),
            (Err(error), Err(expected)) => error@ == expected,
            _ => false,
        },
{
    let ghost texts = views(all@);
    let reader = read_listing(all, target)?;
    let ghost models = section_models(reader.sections@);
    let ghost goal = models.map_values(|section: SectionModel| sorted_section(section));
    let mut out: Vec<Section> = Vec::new();
    let mut bad: Option<usize> = None;
    let mut problem: &'static str = "";
    let mut n: usize = 0;
    while n < reader.sections.len()
        invariant
            n <= reader.sections.len(),
            texts == views(all@),
            reader.wf(texts),
            models == section_models(reader.sections@),
            goal == models.map_values(|section: SectionModel| sorted_section(section)),
            first_bad_section(texts, models, n as int) == match bad {
                Some(k) => Some(k as int),
                None => None,
            },
            bad matches Some(k) ==> k < n && section_problem(models[k as int]) == Some(problem@),
            section_models(out@) == goal.take(n as int),
            titles_fit(texts, out@),
        decreases reader.sections.len() - n,
    {
        let section = &reader.sections[n];
        assert(models[n as int] == section_model(reader.sections@[n as int]));
        assert(reader.sections@[n as int].title < texts.len());
        let (error, sorted) = check_section(section);
        if let Some(text) = error {
            match bad {
                None => {
                    bad = Some(n);
                    problem = text;
                },
                Some(k) => {
                    assert(reader.sections@[k as int].title < texts.len());
                    let other = &reader.sections[k];
                    proof {
                        assert(models[k as int] == section_model(reader.sections@[k as int]));
                        assert(texts[other.title as int] == all@[other.title as int]@);
                        assert(texts[section.title as int] == all@[section.title as int]@);
                    }
                    match (
                        function_title(all[other.title]),
                        function_title(all[section.title]),
                    ) {
                        (Some(a), Some(b)) => {
                            if !is_before(a, b) {
                                bad = Some(n);
                                problem = text;
                            }
                        },
                        _ => {},
                    }
                },
            }
        }
        let ghost before = out@;
        let sorted_out = Section { title: section.title, instructions: sorted };
        out.push(sorted_out);
        proof {
            assert(section_model(sorted_out) == sorted_section(models[n as int]));
            assert(section_models(out@) =~= section_models(before).push(section_model(sorted_out)));
            assert(goal.take(n + 1) =~= goal.take(n as int).push(goal[n as int]));
        }
        n += 1;
    }
    assert(goal.take(goal.len() as int) =~= goal);
    if bad.is_some() {
        return Err(problem);
    }
    if out.len() == 0 {
        return Err("no target SASS section");
    }
    Ok(out)
}

// Laws.

/// In a section that is accepted, every offset has one instruction.
pub proof fn offsets_are_distinct(section: SectionModel, i: int, j: int)
    requires
        section_problem(section) is None,
        0 <= i < j < arranged(section.instructions).len(),
    ensures
        arranged(section.instructions)[i].offset < arranged(section.instructions)[j].offset,
{
    crate::order::arrangement_exists(section.instructions);
    let sorted = arranged(section.instructions);
    assert(!repeats_at(sorted, j - 1));
    assert(sorted[i].before(sorted[j - 1]));
    assert(sorted[j - 1].before(sorted[j]));
}

} // verus!
