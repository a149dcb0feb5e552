//! The two tables of the sample join, as text: one row for each request of a
//! step, and one for each sampled instruction.

use crate::deep_replay::{find_offset, has_offset, increasing};
use crate::digits::{append_decimal, append_hex, append_padded_hex, decimal, hexadecimal, padded_hex};
use crate::samples::{class_of, kind_name, lines_lie_in, name_of_kind, static_class};
use crate::samples_join::{PcRow, RequestRow};
use crate::sass::{instruction_of, instruction_text, Instruction};
use crate::text::views;
use vstd::prelude::*;
use vstd::string::*;
use vstd::utf8::encode_utf8;

verus! {

/// The titles of the table of requests.
pub open spec fn request_titles() -> Seq<char> {
    "step_id\trequest_id_hash\tphase\tsamples\tsampled_bytes\tglobal_reads\tglobal_writes\tshared_reads\tshared_writes\tlocal_reads\tlocal_writes\tbarriers\tdevice_first_raw\tdevice_last_raw\n"@
}

/// Numbers, each behind a tab.
pub open spec fn tabbed(numbers: Seq<u64>, n: int) -> Seq<char>
    decreases n,
{
    if n <= 0 {
        Seq::empty()
    } else {
        tabbed(numbers, n - 1) + "\t"@ + decimal(numbers[n - 1] as nat)
    }
}

/// The numbers of a request behind its name.
pub open spec fn request_numbers(row: RequestRow) -> Seq<u64> {
    seq![
        row.phase as u64,
        row.samples,
        row.sampled_bytes,
        row.global_reads,
        row.global_writes,
        row.shared_reads,
        row.shared_writes,
        row.local_reads,
        row.local_writes,
        row.barriers,
        row.first_device_timestamp,
        row.last_device_timestamp,
    ]
}

/// The row of a request.
pub open spec fn request_line(row: RequestRow) -> Seq<char> {
    decimal(row.step_id as nat) + "\t0x"@ + padded_hex(row.request_id as nat, 16) + tabbed(
        request_numbers(row),
        12,
    ) + "\n"@
}

/// The rows of the first requests.
pub open spec fn request_lines(rows: Seq<RequestRow>, n: int) -> Seq<char>
    decreases n,
{
    if n <= 0 {
        Seq::empty()
    } else {
        request_lines(rows, n - 1) + request_line(rows[n - 1])
    }
}

fn append_tabbed(out: &mut String, numbers: &[u64; 12])
    ensures
        final(out)@ == old(out)@ + tabbed(numbers@, 12),
{
    let ghost before = out@;
    let mut i: usize = 0;
    assert(out@ =~= before + tabbed(numbers@, 0));
    while i < 12
        invariant
            i <= 12,
            out@ == before + tabbed(numbers@, i as int),
        decreases 12 - i,
    {
        out.append("\t");
        append_decimal(out, numbers[i]);
        assert(out@ =~= before + tabbed(numbers@, i + 1));
        i = i + 1;
    }
}

/// The table of requests.
pub fn request_table(rows: &Vec<RequestRow>) -> (text: String)
    ensures
        text@ == request_titles() + request_lines(rows@, rows@.len() as int),
{
    let mut text =
        "step_id\trequest_id_hash\tphase\tsamples\tsampled_bytes\tglobal_reads\tglobal_writes\tshared_reads\tshared_writes\tlocal_reads\tlocal_writes\tbarriers\tdevice_first_raw\tdevice_last_raw\n".to_owned();
    let mut i: usize = 0;
    assert(text@ =~= request_titles() + request_lines(rows@, 0));
    while i < rows.len()
        invariant
            i <= rows.len(),
            text@ == request_titles() + request_lines(rows@, i as int),
        decreases rows.len() - i,
    {
        let row = rows[i];
        append_decimal(&mut text, row.step_id);
        text.append("\t0x");
        append_padded_hex(&mut text, row.request_id, 16);
        let numbers: [u64; 12] = [
            row.phase as u64,
            row.samples,
            row.sampled_bytes,
            row.global_reads,
            row.global_writes,
            row.shared_reads,
            row.shared_writes,
            row.local_reads,
            row.local_writes,
            row.barriers,
            row.first_device_timestamp,
            row.last_device_timestamp,
        ];
        assert(numbers@ =~= request_numbers(row));
        append_tabbed(&mut text, &numbers);
        text.append("\n");
        assert(text@ =~= request_titles() + request_lines(rows@, i + 1));
        i = i + 1;
    }
    text
}

// Sampled instructions.

/// A text on one line: tabs and line feeds become spaces.
pub open spec fn on_one_line(s: Seq<u8>) -> Seq<u8> {
    s.map_values(
        |byte: u8|
            if byte == 0x09 || byte == 0x0a {
                0x20u8
            } else {
                byte
            },
    )
}

/// A text on one line.
pub fn single_line(s: &[u8]) -> (r: Vec<u8>)
    ensures
        r@ == on_one_line(s@),
{
    let mut r: Vec<u8> = Vec::new();
    let mut i: usize = 0;
    while i < s.len()
        invariant
            i <= s.len(),
            r.len() == i,
            forall|j: int| 0 <= j < i ==> r@[j] == on_one_line(s@)[j],
        decreases s.len() - i,
    {
        let byte: u8 = s[i];
        r.push(
            if byte == 0x09 || byte == 0x0a {
                0x20
            } else {
                byte
            },
        );
        i = i + 1;
    }
    assert(r@ =~= on_one_line(s@));
    r
}

/// The instruction at an offset, on one line.
pub open spec fn listed_text(
    all: Seq<Seq<u8>>,
    list: Seq<Instruction>,
    offset: u64,
) -> Seq<u8> {
    let i = choose|i: int| 0 <= i < list.len() && (#[trigger] list[i]).offset == offset;
    on_one_line(instruction_text(all[list[i].line as int]))
}

/// The row of a sampled instruction.
pub open spec fn pc_line(all: Seq<Seq<u8>>, list: Seq<Instruction>, row: PcRow) -> Seq<u8> {
    let text = listed_text(all, list, row.offset);
    encode_utf8(
        "0x"@ + hexadecimal(row.offset as nat) + "\t"@ + decimal(row.kind as nat) + "\t"@
            + name_of_kind(row.kind) + "\t"@ + decimal(row.samples as nat) + "\t"@ + class_of(text)
            + "\t"@,
    ) + text + seq![0x0au8]
}

/// The rows of the first sampled instructions, or nothing where one of them is
/// not listed.
pub open spec fn pc_lines(
    all: Seq<Seq<u8>>,
    list: Seq<Instruction>,
    rows: Seq<PcRow>,
    n: int,
) -> Option<Seq<u8>>
    decreases n,
{
    if n <= 0 {
        Some(Seq::empty())
    } else {
        match pc_lines(all, list, rows, n - 1) {
            None => None,
            Some(before) => if has_offset(list, rows[n - 1].offset) {
                Some(before + pc_line(all, list, rows[n - 1]))
            } else {
                None
            },
        }
    }
}

pub open spec fn pc_titles() -> Seq<u8> {
    encode_utf8("pc_offset\tevent_kind\tevent_name\tsamples\tstatic_class\tsass\n"@)
}

proof fn missing_row_stays(
    all: Seq<Seq<u8>>,
    list: Seq<Instruction>,
    rows: Seq<PcRow>,
    n: int,
    m: int,
)
    requires
        n <= m,
        pc_lines(all, list, rows, n) is None,
    ensures
        pc_lines(all, list, rows, m) is None,
    decreases m - n,
{
    if n < m {
        missing_row_stays(all, list, rows, n, m - 1);
    }
}

fn append_pc_line(
    out: &mut Vec<u8>,
    all: &Vec<&[u8]>,
    list: &Vec<Instruction>,
    at: usize,
    row: PcRow,
)
    requires
        increasing(list@),
        at < list@.len(),
        list@[at as int].offset == row.offset,
        list@[at as int].line < all@.len(),
    ensures
        final(out)@ == old(out)@ + pc_line(views(all@), list@, row),
{
    let ghost before = out@;
    let line = all[list[at].line];
    let text = single_line(instruction_of(line));
    proof {
        let i = choose|i: int| 0 <= i < list@.len() && (#[trigger] list@[i]).offset == row.offset;
        assert(list@[at as int].offset == row.offset);
        assert(list@[i].offset == row.offset);
        assert(i == at);
        assert(views(all@)[list@[at as int].line as int] == line@);
    }
    let mut head = "0x".to_owned();
    append_hex(&mut head, row.offset);
    head.append("\t");
    append_decimal(&mut head, row.kind as u64);
    head.append("\t");
    head.append(kind_name(row.kind));
    head.append("\t");
    append_decimal(&mut head, row.samples);
    head.append("\t");
    head.append(static_class(text.as_slice()));
    head.append("\t");
    out.extend_from_slice(head.as_str().as_bytes());
    out.extend_from_slice(text.as_slice());
    out.push(0x0a);
    assert(out@ =~= before + pc_line(views(all@), list@, row));
}

/// The table of sampled instructions, each with its line of the listing.
pub fn pc_table(rows: &Vec<PcRow>, all: &Vec<&[u8]>, list: &Vec<Instruction>) -> (r: Result<
    Vec<u8>,
    &'static str,
>)
    requires
        increasing(list@),
        lines_lie_in(list@, all@.len()),
    ensures
        match (r, pc_lines(views(all@), list@, rows@, rows@.len() as int)) {
            (Ok(text), Some(lines)) => text@ == pc_titles() + lines,
            (Err(error), None) => error@ == "sampled PC missing from static SASS"@,
            _ => false,
        },
{
    let ghost texts = views(all@);
    let mut out: Vec<u8> = Vec::new();
    out.extend_from_slice(
        "pc_offset\tevent_kind\tevent_name\tsamples\tstatic_class\tsass\n".as_bytes(),
    );
    let mut i: usize = 0;
    assert(out@ =~= pc_titles() + pc_lines(texts, list@, rows@, 0)->0);
    while i < rows.len()
        invariant
            i <= rows.len(),
            texts == views(all@),
            increasing(list@),
            forall|i: int| 0 <= i < list@.len() ==> (#[trigger] list@[i]).line < all@.len(),
            pc_lines(texts, list@, rows@, i as int) is Some,
            out@ == pc_titles() + pc_lines(texts, list@, rows@, i as int)->0,
        decreases rows.len() - i,
    {
        let row = rows[i];
        match find_offset(list, row.offset) {
            None => {
                proof {
                    missing_row_stays(texts, list@, rows@, i + 1, rows@.len() as int);
                }
                return Err("sampled PC missing from static SASS");
            },
            Some(at) => {
                assert(has_offset(list@, row.offset));
                append_pc_line(&mut out, all, list, at, row);
                assert(out@ =~= pc_titles() + pc_lines(texts, list@, rows@, i + 1)->0);
            },
        }
        i = i + 1;
    }
    Ok(out)
}

} // verus!
