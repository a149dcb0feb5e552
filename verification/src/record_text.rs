//! Records written out field by field, as in `Point { x: 1, y: -2 }`.

use crate::digits::{append_decimal, decimal};
use vstd::prelude::*;

verus! {

/// The decimal text of a number that may be negative.
pub open spec fn signed_decimal(value: int) -> Seq<char> {
    if value < 0 {
        "-"@ + decimal((-value) as nat)
    } else {
        decimal(value as nat)
    }
}

pub open spec fn truth_words(value: bool) -> Seq<char> {
    if value {
        "true"@
    } else {
        "false"@
    }
}

/// The fields, each with its name, a colon and its value, parted by commas.
pub open spec fn field_words(fields: Seq<(Seq<char>, Seq<char>)>) -> Seq<char>
    decreases fields.len(),
{
    if fields.len() == 0 {
        Seq::empty()
    } else {
        let (name, value) = fields.last();
        let front = field_words(fields.drop_last());
        (if fields.len() == 1 {
            front
        } else {
            front + ", "@
        }) + name + ": "@ + value
    }
}

/// A record with its name and its fields.
pub open spec fn record_words(name: Seq<char>, fields: Seq<(Seq<char>, Seq<char>)>) -> Seq<char> {
    name + " { "@ + field_words(fields) + " }"@
}

pub open spec fn shown_fields(fields: Seq<(&'static str, String)>) -> Seq<(Seq<char>, Seq<char>)> {
    fields.map_values(|field: (&'static str, String)| (field.0@, field.1@))
}

pub fn signed_text(value: i32) -> (text: String)
    ensures
        text@ == signed_decimal(value as int),
{
    let mut text = String::new();
    if value < 0 {
        text.append("-");
        let size: i64 = -(value as i64);
        append_decimal(&mut text, size as u64);
        assert(text@ =~= "-"@ + decimal((-value) as nat));
    } else {
        append_decimal(&mut text, value as u64);
        assert(text@ =~= decimal(value as nat));
    }
    text
}

pub fn truth_text(value: bool) -> (text: String)
    ensures
        text@ == truth_words(value),
{
    if value {
        "true".to_owned()
    } else {
        "false".to_owned()
    }
}

/// Appends the record to the text.
pub fn append_record_text(
    out: &mut String,
    name: &'static str,
    fields: &Vec<(&'static str, String)>,
)
    ensures
        final(out)@ == old(out)@ + record_words(name@, shown_fields(fields@)),
{
    let ghost before = out@;
    let ghost shown = shown_fields(fields@);
    out.append(name);
    out.append(" { ");
    let ghost head = name@ + " { "@;
    assert(out@ =~= before + head);
    let mut i: usize = 0;
    assert(field_words(shown.take(0)) =~= Seq::<char>::empty());
    while i < fields.len()
        invariant
            i <= fields.len(),
            shown == shown_fields(fields@),
            out@ == before + head + field_words(shown.take(i as int)),
        decreases fields.len() - i,
    {
        let ghost part = shown.take(i + 1);
        let ghost text = out@;
        if i > 0 {
            out.append(", ");
        }
        out.append(fields[i].0);
        out.append(": ");
        out.append(fields[i].1.as_str());
        proof {
            assert(part.drop_last() =~= shown.take(i as int));
            assert(part.last() == (fields@[i as int].0@, fields@[i as int].1@));
            assert(out@ =~= before + head + field_words(part));
        }
        i += 1;
    }
    out.append(" }");
    assert(shown.take(i as int) =~= shown);
    assert(out@ =~= before + record_words(name@, shown));
}

} // verus!
