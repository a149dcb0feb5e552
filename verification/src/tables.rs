//! Tab-separated trace tables.
//!
//! A table begins with a comment that names its format and a line of column
//! titles. Empty lines and other comments are skipped, and every other line is
//! a row.

use crate::digits::{append_decimal, decimal};
use crate::number_fault::{
    fault_text, fault_words, find_i32_fault, find_unsigned_fault, signed_fault,
    signed_text_has_fault_or_number, text_has_fault_or_number, unsigned_fault, NumberFault,
};
use crate::text::{
    has_prefix, is_text, lines, lines_of, not_text, not_text_words, parse_hex_u64, parse_i32,
    parse_u32, parse_u64, signed_of, starts_with, unsigned_of, views,
};
use vstd::prelude::*;
use vstd::slice::slice_subrange;
use vstd::string::*;
use vstd::utf8::{encode_utf8, valid_utf8};

verus! {

/// The byte between the fields of a row.
pub const TAB: u8 = 0x09;

// Numbers in fields.

pub open spec fn u64_of(s: Seq<u8>) -> Option<u64> {
    match unsigned_of(s, 10, u64::MAX as nat) {
        Some(n) => Some(n as u64),
        None => None,
    }
}

pub open spec fn u32_of(s: Seq<u8>) -> Option<u32> {
    match unsigned_of(s, 10, u32::MAX as nat) {
        Some(n) => Some(n as u32),
        None => None,
    }
}

pub open spec fn i32_of(s: Seq<u8>) -> Option<i32> {
    match signed_of(s, i32::MIN as int, i32::MAX as int) {
        Some(n) => Some(n as i32),
        None => None,
    }
}

/// The digits of a hexadecimal number, without `0x` in front.
pub open spec fn hex_digits(s: Seq<u8>) -> Seq<u8> {
    if s.len() >= 2 && s[0] == 0x30 && s[1] == 0x78 {
        s.skip(2)
    } else {
        s
    }
}

/// The hexadecimal number of a text, with or without `0x` in front.
pub open spec fn hex_of(s: Seq<u8>) -> Option<u64> {
    match unsigned_of(hex_digits(s), 16, u64::MAX as nat) {
        Some(n) => Some(n as u64),
        None => None,
    }
}

pub fn read_u64(s: &[u8]) -> (r: Option<u64>)
    ensures
        r == u64_of(s@),
{
    parse_u64(s)
}

pub fn read_u32(s: &[u8]) -> (r: Option<u32>)
    ensures
        r == u32_of(s@),
{
    parse_u32(s)
}

pub fn read_i32(s: &[u8]) -> (r: Option<i32>)
    ensures
        r == i32_of(s@),
{
    parse_i32(s)
}

pub fn read_hex(s: &[u8]) -> (r: Option<u64>)
    ensures
        r == hex_of(s@),
{
    if s.len() >= 2 && s[0] == 0x30 && s[1] == 0x78 {
        let digits = slice_subrange(s, 2, s.len());
        assert(digits@ == s@.skip(2));
        parse_hex_u64(digits)
    } else {
        parse_hex_u64(s)
    }
}

/// How a field is read.
#[derive(Clone, Copy, Debug, PartialEq, Eq, Structural)]
pub enum NumberShape {
    U64,
    U32,
    I32,
    Hex,
}

pub open spec fn is_number(s: Seq<u8>, shape: NumberShape) -> bool {
    match shape {
        NumberShape::U64 => u64_of(s) is Some,
        NumberShape::U32 => u32_of(s) is Some,
        NumberShape::I32 => i32_of(s) is Some,
        NumberShape::Hex => hex_of(s) is Some,
    }
}

/// What is wrong with a field that should hold a number.
pub open spec fn field_fault(s: Seq<u8>, shape: NumberShape) -> Option<NumberFault> {
    match shape {
        NumberShape::U64 => unsigned_fault(s, 10, u64::MAX as nat),
        NumberShape::U32 => unsigned_fault(s, 10, u32::MAX as nat),
        NumberShape::I32 => signed_fault(s, i32::MIN as int, i32::MAX as int),
        NumberShape::Hex => unsigned_fault(hex_digits(s), 16, u64::MAX as nat),
    }
}

/// What is wrong with the first of the columns, in the order in which they are
/// read, that the row has and that holds no number.
pub open spec fn row_fault(
    f: Seq<Seq<u8>>,
    columns: Seq<(usize, NumberShape)>,
) -> Option<NumberFault>
    decreases columns.len(),
{
    if columns.len() == 0 {
        None
    } else {
        let (i, shape) = columns.last();
        match row_fault(f, columns.drop_last()) {
            Some(fault) => Some(fault),
            None => if i < f.len() {
                field_fault(f[i as int], shape)
            } else {
                None
            },
        }
    }
}

/// What a fault is answered, or nothing where there is none.
pub open spec fn fault_answer(fault: Option<NumberFault>) -> Seq<char> {
    match fault {
        Some(fault) => fault_words(fault),
        None => ""@,
    }
}

/// What a row is answered whose columns do not all hold numbers.
pub open spec fn number_error(f: Seq<Seq<u8>>, columns: Seq<(usize, NumberShape)>) -> Seq<char> {
    fault_answer(row_fault(f, columns))
}

/// A field has a fault exactly where it holds no number.
pub proof fn field_has_fault_or_number(s: Seq<u8>, shape: NumberShape)
    ensures
        field_fault(s, shape) is None <==> is_number(s, shape),
{
    text_has_fault_or_number(s, 10, u64::MAX as nat);
    text_has_fault_or_number(s, 10, u32::MAX as nat);
    signed_text_has_fault_or_number(s, i32::MIN as int, i32::MAX as int);
    text_has_fault_or_number(hex_digits(s), 16, u64::MAX as nat);
}

/// A row has a fault exactly where one of its columns holds no number.
pub proof fn row_has_fault_or_numbers(f: Seq<Seq<u8>>, columns: Seq<(usize, NumberShape)>)
    ensures
        row_fault(f, columns) is None <==> forall|k: int|
            0 <= k < columns.len() && (#[trigger] columns[k]).0 < f.len() ==> is_number(
                f[columns[k].0 as int],
                columns[k].1,
            ),
    decreases columns.len(),
{
    if columns.len() > 0 {
        let front = columns.drop_last();
        row_has_fault_or_numbers(f, front);
        let (i, shape) = columns.last();
        if i < f.len() {
            field_has_fault_or_number(f[i as int], shape);
        }
        if row_fault(f, front) is None {
            assert(columns[columns.len() - 1] == (i, shape));
            assert forall|k: int|
                0 <= k < columns.len() && (#[trigger] columns[k]).0 < f.len() && row_fault(
                    f,
                    columns,
                ) is None implies is_number(f[columns[k].0 as int], columns[k].1) by {
                if k < front.len() {
                    assert(front[k] == columns[k]);
                }
            }
        } else {
            let k = choose|k: int|
                0 <= k < front.len() && (#[trigger] front[k]).0 < f.len() && !is_number(
                    f[front[k].0 as int],
                    front[k].1,
                );
            assert(columns[k] == front[k]);
        }
    }
}

proof fn row_fault_stays(f: Seq<Seq<u8>>, columns: Seq<(usize, NumberShape)>, n: int)
    requires
        0 <= n <= columns.len(),
        row_fault(f, columns.take(n)) is Some,
    ensures
        row_fault(f, columns) == row_fault(f, columns.take(n)),
    decreases columns.len() - n,
{
    if n < columns.len() {
        assert(columns.take(n + 1).drop_last() =~= columns.take(n));
        row_fault_stays(f, columns, n + 1);
    } else {
        assert(columns.take(n) =~= columns);
    }
}

fn find_field_fault(s: &[u8], shape: NumberShape) -> (r: Option<NumberFault>)
    ensures
        r == field_fault(s@, shape),
{
    match shape {
        NumberShape::U64 => find_unsigned_fault(s, 10, u64::MAX),
        NumberShape::U32 => find_unsigned_fault(s, 10, u32::MAX as u64),
        NumberShape::I32 => find_i32_fault(s),
        NumberShape::Hex => if s.len() >= 2 && s[0] == 0x30 && s[1] == 0x78 {
            let digits = slice_subrange(s, 2, s.len());
            assert(digits@ == s@.skip(2));
            find_unsigned_fault(digits, 16, u64::MAX)
        } else {
            find_unsigned_fault(s, 16, u64::MAX)
        },
    }
}

fn find_row_fault(f: &Vec<&[u8]>, columns: &Vec<(usize, NumberShape)>) -> (r: Option<NumberFault>)
    ensures
        r == row_fault(views(f@), columns@),
{
    let ghost row = views(f@);
    let mut k: usize = 0;
    assert(columns@.take(0) =~= Seq::<(usize, NumberShape)>::empty());
    while k < columns.len()
        invariant
            k <= columns.len(),
            row == views(f@),
            row_fault(row, columns@.take(k as int)) is None,
        decreases columns.len() - k,
    {
        let (i, shape) = columns[k];
        proof {
            assert(columns@.take(k + 1).drop_last() =~= columns@.take(k as int));
            assert(columns@.take(k + 1).last() == (i, shape));
        }
        if i < f.len() {
            assert(row[i as int] == f@[i as int]@);
            let fault = find_field_fault(f[i], shape);
            if fault.is_some() {
                proof {
                    row_fault_stays(row, columns@, k + 1);
                }
                return fault;
            }
        }
        k += 1;
    }
    assert(columns@.take(k as int) =~= columns@);
    None
}

fn answer_fault(fault: Option<NumberFault>) -> (text: String)
    ensures
        text@ == fault_answer(fault),
{
    match fault {
        Some(fault) => fault_text(fault).to_owned(),
        None => "".to_owned(),
    }
}

pub fn number_error_text(f: &Vec<&[u8]>, columns: &Vec<(usize, NumberShape)>) -> (text: String)
    ensures
        text@ == number_error(views(f@), columns@),
{
    answer_fault(find_row_fault(f, columns))
}

/// What a field that should hold a number is answered.
pub fn field_error_text(s: &[u8], shape: NumberShape) -> (text: String)
    ensures
        text@ == fault_answer(field_fault(s@, shape)),
{
    answer_fault(find_field_fault(s, shape))
}

/// A complaint about a row: what kind of row, its number, and what is wrong.
pub open spec fn row_error(label: Seq<char>, number: nat, problem: Seq<char>) -> Seq<char> {
    label + decimal(number) + problem
}

pub fn row_error_text(label: &str, number: usize, problem: &str) -> (text: String)
    ensures
        text@ == row_error(label@, number as nat, problem@),
{
    let mut text = label.to_owned();
    append_decimal(&mut text, number as u64);
    text.append(problem);
    text
}

/// Whether the line begins with the words.
pub open spec fn opens_with(line: Seq<u8>, words: Seq<char>) -> bool {
    starts_with(line, encode_utf8(words))
}

pub fn line_opens_with(line: &[u8], words: &str) -> (r: bool)
    ensures
        r == opens_with(line@, words@),
{
    has_prefix(line, words.as_bytes())
}

/// Whether the line is empty or a comment.
pub open spec fn is_comment(line: Seq<u8>) -> bool {
    line.len() == 0 || line[0] == 0x23
}

pub fn line_is_comment(line: &[u8]) -> (r: bool)
    ensures
        r == is_comment(line@),
{
    line.len() == 0 || line[0] == 0x23
}

/// Whether the size of an input is zero or beyond its bound.
pub open spec fn out_of_bounds(size: nat, max: nat) -> bool {
    size == 0 || size > max
}

/// The complaint about an input of such a size.
pub open spec fn size_complaint(size: nat, path: Seq<char>) -> Seq<char> {
    "invalid bounded input size "@ + decimal(size) + " for "@ + path
}

pub fn size_complaint_text(size: usize, path: &str) -> (text: String)
    ensures
        text@ == size_complaint(size as nat, path@),
{
    let mut text = "invalid bounded input size ".to_owned();
    append_decimal(&mut text, size as u64);
    text.append(" for ");
    text.append(path);
    text
}

// Tables.

/// What a line of a table is.
#[derive(Clone, Copy, Debug, PartialEq, Eq, Structural)]
pub enum LineKind {
    Format,
    Titles,
    Comment,
    Row,
    Refused,
}

/// A kind of table: how its lines are told apart and its rows are read.
pub trait TraceTable: Sized {
    type Row;

    spec fn kind_of(line: Seq<u8>) -> LineKind;

    /// What a row is read as, or what is wrong with it. The number is that of
    /// the line, from one on.
    spec fn row_of(line: Seq<u8>, number: nat, rows_before: nat) -> Result<Self::Row, Seq<char>>;

    /// How many rows a table may have.
    spec fn max_rows() -> nat;

    /// The complaint about more rows.
    spec fn excess() -> Seq<char>;

    /// The complaint about a line that is refused.
    spec fn refusal() -> Seq<char>;

    fn line_kind(line: &[u8]) -> (r: LineKind)
        ensures
            r == Self::kind_of(line@),
    ;

    fn read_row(line: &[u8], number: usize, rows_before: usize) -> (r: Result<Self::Row, String>)
        ensures
            match (r, Self::row_of(line@, number as nat, rows_before as nat)) {
                (Ok(row), Ok(expected)) => row == expected,
                (Err(error), Err(expected)) => error@ == expected,
                _ => false,
            },
    ;

    fn row_limit() -> (r: usize)
        ensures
            r == Self::max_rows(),
    ;

    fn excess_text() -> (r: &'static str)
        ensures
            r@ == Self::excess(),
    ;

    fn refusal_text() -> (r: &'static str)
        ensures
            r@ == Self::refusal(),
    ;
}

/// What has been read of a table.
#[verifier::reject_recursive_types(R)]
pub struct TableModel<R> {
    pub format: bool,
    pub titles: bool,
    pub rows: Seq<R>,
}

/// What has been read after one more line.
pub open spec fn after_line<T: TraceTable>(
    table: TableModel<T::Row>,
    index: int,
    line: Seq<u8>,
) -> Result<TableModel<T::Row>, Seq<char>> {
    if !valid_utf8(line) {
        Err(not_text())
    } else {
        match T::kind_of(line) {
            LineKind::Format => Ok(TableModel { format: true, ..table }),
            LineKind::Titles => Ok(TableModel { titles: true, ..table }),
            LineKind::Comment => Ok(table),
            LineKind::Refused => Err(T::refusal()),
            LineKind::Row => if table.rows.len() == T::max_rows() {
                Err(T::excess())
            } else {
                match T::row_of(line, (index + 1) as nat, table.rows.len()) {
                    Ok(row) => Ok(TableModel { rows: table.rows.push(row), ..table }),
                    Err(error) => Err(error),
                }
            },
        }
    }
}

/// What the lines are read as.
pub open spec fn table_of<T: TraceTable>(all: Seq<Seq<u8>>) -> Result<
    TableModel<T::Row>,
    Seq<char>,
>
    decreases all.len(),
{
    if all.len() == 0 {
        Ok(TableModel { format: false, titles: false, rows: Seq::empty() })
    } else {
        match table_of::<T>(all.drop_last()) {
            Ok(table) => after_line::<T>(table, all.len() - 1, all.last()),
            Err(error) => Err(error),
        }
    }
}

proof fn table_failure_stays<T: TraceTable>(all: Seq<Seq<u8>>, n: int)
    requires
        0 <= n <= all.len(),
        table_of::<T>(all.take(n)) is Err,
    ensures
        table_of::<T>(all) == table_of::<T>(all.take(n)),
    decreases all.len() - n,
{
    if n < all.len() {
        assert(all.take(n + 1).drop_last() =~= all.take(n));
        table_failure_stays::<T>(all, n + 1);
    } else {
        assert(all.take(n) =~= all);
    }
}

/// A table that was read.
pub struct Table<R> {
    pub format: bool,
    pub titles: bool,
    pub rows: Vec<R>,
}

pub open spec fn table_model<R>(table: Table<R>) -> TableModel<R> {
    TableModel { format: table.format, titles: table.titles, rows: table.rows@ }
}

/// Adds a line to a table.
fn add_line<T: TraceTable>(table: &mut Table<T::Row>, index: usize, line: &[u8]) -> (r: Result<
    (),
    String,
>)
    requires
        index < usize::MAX,
    ensures
        match (r, after_line::<T>(table_model(*old(table)), index as int, line@)) {
            (Ok(_), Ok(expected)) => table_model(*final(table)) == expected,
            (Err(error), Err(expected)) => error@ == expected,
            _ => false,
        },
{
    if !is_text(line) {
        return Err(not_text_words().to_owned());
    }
    match T::line_kind(line) {
        LineKind::Format => {
            table.format = true;
            Ok(())
        },
        LineKind::Titles => {
            table.titles = true;
            Ok(())
        },
        LineKind::Comment => Ok(()),
        LineKind::Refused => Err(T::refusal_text().to_owned()),
        LineKind::Row => {
            if table.rows.len() == T::row_limit() {
                return Err(T::excess_text().to_owned());
            }
            match T::read_row(line, index + 1, table.rows.len()) {
                Ok(row) => {
                    table.rows.push(row);
                    Ok(())
                },
                Err(error) => Err(error),
            }
        },
    }
}

/// Reads a table.
pub fn load_table<T: TraceTable>(bytes: &[u8]) -> (r: Result<Table<T::Row>, String>)
    ensures
        match (r, table_of::<T>(lines_of(bytes@))) {
            (Ok(table), Ok(expected)) => table_model(table) == expected,
            (Err(error), Err(expected)) => error@ == expected,
            _ => false,
        },
{
    let all = lines(bytes);
    let ghost parts = lines_of(bytes@);
    let mut table: Table<T::Row> = Table { format: false, titles: false, rows: Vec::new() };
    let mut i: usize = 0;
    assert(parts.take(0) =~= Seq::<Seq<u8>>::empty());
    assert(table_model(table).rows =~= Seq::<T::Row>::empty());
    while i < all.len()
        invariant
            i <= all.len(),
            parts == views(all@),
            table_of::<T>(parts.take(i as int)) == Ok::<TableModel<T::Row>, Seq<char>>(
                table_model(table),
            ),
            parts == lines_of(bytes@),
        decreases all.len() - i,
    {
        proof {
            assert(parts.take(i + 1).drop_last() =~= parts.take(i as int));
            assert(parts.take(i + 1).last() == all@[i as int]@);
            if table_of::<T>(parts.take(i + 1)) is Err {
                table_failure_stays::<T>(parts, i + 1);
            }
        }
        add_line::<T>(&mut table, i, all[i])?;
        i += 1;
    }
    assert(parts.take(parts.len() as int) =~= parts);
    Ok(table)
}

} // verus!
