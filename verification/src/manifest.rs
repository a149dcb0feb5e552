//! Query manifests: what a frontend tells of a request and of its output.

use crate::digits::{append_decimal, decimal};
use crate::msgpack::{means, Item, Value};
use crate::text::text_is;
use vstd::prelude::*;
use vstd::string::*;

verus! {

// Reading values.

/// The first entry with the key.
pub open spec fn entry_of(entries: Seq<(Seq<char>, Item)>, key: Seq<char>) -> Option<Item>
    decreases entries.len(),
{
    if entries.len() == 0 {
        None
    } else {
        match entry_of(entries.drop_last(), key) {
            Some(item) => Some(item),
            None => if entries.last().0 == key {
                Some(entries.last().1)
            } else {
                None
            },
        }
    }
}

proof fn entry_stays(entries: Seq<(Seq<char>, Item)>, key: Seq<char>, n: int)
    requires
        0 <= n <= entries.len(),
        entry_of(entries.take(n), key) is Some,
    ensures
        entry_of(entries, key) == entry_of(entries.take(n), key),
    decreases entries.len() - n,
{
    if n < entries.len() {
        assert(entries.take(n + 1).drop_last() =~= entries.take(n));
        entry_stays(entries, key, n + 1);
    } else {
        assert(entries.take(n) =~= entries);
    }
}

impl Item {
    /// What an object has under the key.
    pub open spec fn entry(self, key: Seq<char>) -> Option<Item> {
        match self {
            Item::Object(entries) => entry_of(entries, key),
            _ => None,
        }
    }

    pub open spec fn text(self) -> Option<Seq<char>> {
        match self {
            Item::Text(text) => Some(text),
            _ => None,
        }
    }

    pub open spec fn number(self) -> Option<u64> {
        match self {
            Item::Unsigned(number) => Some(number),
            _ => None,
        }
    }

    pub open spec fn array(self) -> Option<Seq<Item>> {
        match self {
            Item::Array(items) => Some(items),
            _ => None,
        }
    }

    /// The text under the key.
    pub open spec fn text_under(self, key: Seq<char>) -> Option<Seq<char>> {
        match self.entry(key) {
            Some(item) => item.text(),
            None => None,
        }
    }

    /// The number under the key.
    pub open spec fn number_under(self, key: Seq<char>) -> Option<u64> {
        match self.entry(key) {
            Some(item) => item.number(),
            None => None,
        }
    }

    /// The list under the key.
    pub open spec fn array_under(self, key: Seq<char>) -> Option<Seq<Item>> {
        match self.entry(key) {
            Some(item) => item.array(),
            None => None,
        }
    }
}

/// Whether the values are the items.
pub open spec fn all_mean(values: Seq<Value>, items: Seq<Item>) -> bool {
    values.len() == items.len() && forall|i: int|
        0 <= i < items.len() ==> means(#[trigger] values[i], items[i])
}

impl Value {
    /// What an object has under the key.
    pub fn get(&self, key: &str) -> (r: Option<&Value>)
        ensures
            forall|item: Item| #[trigger]
                means(*self, item) ==> match (r, item.entry(key@)) {
                    (Some(value), Some(expected)) => means(*value, expected),
                    (None, None) => true,
                    _ => false,
                },
    {
        match self {
            Value::Object(entries) => {
                let mut i: usize = 0;
                assert forall|item: Item| #[trigger] means(*self, item) implies entry_of(
                    item->Object_0.take(0),
                    key@,
                ) is None by {
                    assert(item->Object_0.take(0).len() == 0);
                }
                while i < entries.len()
                    invariant
                        i <= entries.len(),
                        *self == Value::Object(*entries),
                        forall|item: Item| #[trigger]
                            means(*self, item) ==> entry_of(
                                item->Object_0.take(i as int),
                                key@,
                            ) is None,
                    decreases entries.len() - i,
                {
                    let here: bool = text_is(entries[i].0.as_str(), key);
                    assert forall|item: Item| #[trigger] means(*self, item) implies entry_of(
                        item->Object_0.take(i + 1),
                        key@,
                    ) == (if here {
                        Some(item->Object_0[i as int].1)
                    } else {
                        None
                    }) by {
                        let all = item->Object_0;
                        assert(entries@[i as int].0@ == all[i as int].0);
                        assert(all.take(i + 1).drop_last() =~= all.take(i as int));
                        assert(all.take(i + 1).last() == all[i as int]);
                    }
                    if here {
                        assert forall|item: Item| #[trigger]
                            means(*self, item) implies item.entry(key@) == Some(
                            item->Object_0[i as int].1,
                        ) && means(entries@[i as int].1, item->Object_0[i as int].1) by {
                            entry_stays(item->Object_0, key@, i + 1);
                            assert(entries@[i as int].0@ == item->Object_0[i as int].0);
                        }
                        return Some(&entries[i].1);
                    }
                    i += 1;
                }
                assert forall|item: Item| #[trigger] means(*self, item) implies item.entry(
                    key@,
                ) is None by {
                    let all = item->Object_0;
                    assert(all.take(all.len() as int) =~= all);
                }
                None
            },
            _ => None,
        }
    }

    /// The text of a text.
    pub fn as_str(&self) -> (r: Option<&str>)
        ensures
            forall|item: Item| #[trigger]
                means(*self, item) ==> item.text() == match r {
                    Some(text) => Some(text@),
                    None => None,
                },
    {
        match self {
            Value::Text(text) => Some(text.as_str()),
            _ => None,
        }
    }

    /// The number of a number that is not negative.
    pub fn as_u64(&self) -> (r: Option<u64>)
        ensures
            forall|item: Item| #[trigger] means(*self, item) ==> item.number() == r,
    {
        match self {
            Value::Unsigned(number) => Some(*number),
            _ => None,
        }
    }

    /// The items of a list.
    pub fn as_array(&self) -> (r: Option<&Vec<Value>>)
        ensures
            forall|item: Item| #[trigger]
                means(*self, item) ==> match (r, item.array()) {
                    (Some(values), Some(items)) => all_mean(values@, items),
                    (None, None) => true,
                    _ => false,
                },
    {
        match self {
            Value::Array(values) => Some(values),
            _ => None,
        }
    }

    pub fn is_null(&self) -> (r: bool)
        ensures
            r == (*self is Null),
            forall|item: Item| #[trigger] means(*self, item) ==> r == (item is Null),
    {
        match self {
            Value::Null => true,
            _ => false,
        }
    }

    pub fn is_string(&self) -> (r: bool)
        ensures
            r == (*self is Text),
            forall|item: Item| #[trigger] means(*self, item) ==> r == (item is Text),
    {
        match self {
            Value::Text(_) => true,
            _ => false,
        }
    }

    /// The text under the key.
    pub fn text_at(&self, key: &str) -> (r: Option<&str>)
        ensures
            forall|item: Item| #[trigger]
                means(*self, item) ==> item.text_under(key@) == match r {
                    Some(text) => Some(text@),
                    None => None,
                },
    {
        match self.get(key) {
            Some(value) => value.as_str(),
            None => None,
        }
    }

    /// The number under the key.
    pub fn number_at(&self, key: &str) -> (r: Option<u64>)
        ensures
            forall|item: Item| #[trigger] means(*self, item) ==> item.number_under(key@) == r,
    {
        match self.get(key) {
            Some(value) => value.as_u64(),
            None => None,
        }
    }

    /// The list under the key.
    pub fn array_at(&self, key: &str) -> (r: Option<&Vec<Value>>)
        ensures
            forall|item: Item| #[trigger]
                means(*self, item) ==> match (r, item.array_under(key@)) {
                    (Some(values), Some(items)) => all_mean(values@, items),
                    (None, None) => true,
                    _ => false,
                },
    {
        match self.get(key) {
            Some(value) => value.as_array(),
            None => None,
        }
    }
}

// Fields of a manifest.

pub open spec fn not_a_string(key: Seq<char>) -> Seq<char> {
    "manifest field "@ + key + " is missing or not a string"@
}

/// The text that a manifest must have under the key.
pub open spec fn required_text(item: Item, key: Seq<char>) -> Result<Seq<char>, Seq<char>> {
    match item.text_under(key) {
        Some(text) => Ok(text),
        None => Err(not_a_string(key)),
    }
}

/// The text that a manifest must have under the key.
pub fn required_string<'a>(value: &'a Value, key: &str) -> (r: Result<&'a str, String>)
    ensures
        forall|item: Item| #[trigger]
            means(*value, item) ==> match (r, required_text(item, key@)) {
                (Ok(text), Ok(expected)) => text@ == expected,
                (Err(error), Err(expected)) => error@ == expected,
                _ => false,
            },
{
    match value.text_at(key) {
        Some(text) => Ok(text),
        None => {
            let mut text = "manifest field ".to_owned();
            text.append(key);
            text.append(" is missing or not a string");
            Err(text)
        },
    }
}

pub open spec fn not_an_array(key: Seq<char>) -> Seq<char> {
    "manifest field "@ + key + " is missing or not an array"@
}

fn array_complaint(key: &str) -> (text: String)
    ensures
        text@ == not_an_array(key@),
{
    let mut text = "manifest field ".to_owned();
    text.append(key);
    text.append(" is missing or not an array");
    text
}

// Tokens of a manifest.

/// The words `manifest`, the key and the place.
pub open spec fn place_in(key: Seq<char>, i: nat) -> Seq<char> {
    "manifest "@ + key + "["@ + decimal(i) + "]"@
}

fn place_text(key: &str, i: usize) -> (text: String)
    ensures
        text@ == place_in(key@, i as nat),
{
    let mut text = "manifest ".to_owned();
    text.append(key);
    text.append("[");
    append_decimal(&mut text, i as u64);
    text.append("]");
    text
}

/// The number of a token, where there is one that is small enough.
pub open spec fn small(number: Option<u64>) -> Option<u32> {
    match number {
        Some(n) if n <= u32::MAX => Some(n as u32),
        _ => None,
    }
}

fn smaller(number: Option<u64>) -> (r: Option<u32>)
    ensures
        r == small(number),
{
    match number {
        Some(n) => if n <= u32::MAX as u64 {
            Some(n as u32)
        } else {
            None
        },
        None => None,
    }
}

/// Whether a token has a raw text, and a text or nothing to show.
pub open spec fn has_texts(token: Item) -> bool {
    &&& token.entry("raw"@) matches Some(raw) && raw is Text
    &&& token.entry("display"@) matches Some(display) && (display is Null || display is Text)
}

/// The number of the token at the place, which its description must agree with.
pub open spec fn token_number(
    ids: Seq<Item>,
    tokens: Seq<Item>,
    i: int,
    ids_key: Seq<char>,
    tokens_key: Seq<char>,
) -> Result<u32, Seq<char>> {
    let id = small(ids[i].number());
    let token_id = small(tokens[i].number_under("id"@));
    let position = tokens[i].number_under("position"@);
    if id is None {
        Err(place_in(ids_key, i as nat) + " is not a u32"@)
    } else if token_id is None {
        Err(place_in(tokens_key, i as nat) + ".id is not a u32"@)
    } else if position is None {
        Err(place_in(tokens_key, i as nat) + ".position is invalid"@)
    } else if position->0 != i || token_id->0 != id->0 {
        Err("manifest token metadata disagrees at position "@ + decimal(i as nat))
    } else if !has_texts(tokens[i]) {
        Err("manifest token strings are invalid at position "@ + decimal(i as nat))
    } else {
        Ok(id->0)
    }
}

/// The numbers of the first tokens.
pub open spec fn token_numbers(
    ids: Seq<Item>,
    tokens: Seq<Item>,
    n: int,
    ids_key: Seq<char>,
    tokens_key: Seq<char>,
) -> Result<Seq<u32>, Seq<char>>
    decreases n,
{
    if n <= 0 {
        Ok(Seq::empty())
    } else {
        match token_numbers(ids, tokens, n - 1, ids_key, tokens_key) {
            Err(error) => Err(error),
            Ok(front) => match token_number(ids, tokens, n - 1, ids_key, tokens_key) {
                Err(error) => Err(error),
                Ok(id) => Ok(front.push(id)),
            },
        }
    }
}

/// The token numbers of a manifest.
pub open spec fn manifest_ids(item: Item, ids_key: Seq<char>, tokens_key: Seq<char>) -> Result<
    Seq<u32>,
    Seq<char>,
> {
    match item.array_under(ids_key) {
        None => Err(not_an_array(ids_key)),
        Some(ids) => match item.array_under(tokens_key) {
            None => Err(not_an_array(tokens_key)),
            Some(tokens) => if ids.len() != tokens.len() {
                Err("manifest "@ + ids_key + " and "@ + tokens_key + " lengths differ"@)
            } else {
                token_numbers(ids, tokens, ids.len() as int, ids_key, tokens_key)
            },
        },
    }
}

proof fn token_error_stays(
    ids: Seq<Item>,
    tokens: Seq<Item>,
    n: int,
    m: int,
    ids_key: Seq<char>,
    tokens_key: Seq<char>,
)
    requires
        0 <= n <= m,
        token_numbers(ids, tokens, n, ids_key, tokens_key) is Err,
    ensures
        token_numbers(ids, tokens, m, ids_key, tokens_key) == token_numbers(
            ids,
            tokens,
            n,
            ids_key,
            tokens_key,
        ),
    decreases m - n,
{
    if n < m {
        token_error_stays(ids, tokens, n, m - 1, ids_key, tokens_key);
    }
}

fn read_token(
    ids: &Vec<Value>,
    tokens: &Vec<Value>,
    i: usize,
    ids_key: &str,
    tokens_key: &str,
    Ghost(id_items): Ghost<Seq<Item>>,
    Ghost(token_items): Ghost<Seq<Item>>,
) -> (r: Result<u32, String>)
    requires
        all_mean(ids@, id_items),
        all_mean(tokens@, token_items),
        i < ids@.len(),
        i < tokens@.len(),
    ensures
        match (r, token_number(id_items, token_items, i as int, ids_key@, tokens_key@)) {
            (Ok(id), Ok(expected)) => id == expected,
            (Err(error), Err(expected)) => error@ == expected,
            _ => false,
        },
{
    assert(means(ids@[i as int], id_items[i as int]));
    assert(means(tokens@[i as int], token_items[i as int]));
    let id: u32 = match smaller(ids[i].as_u64()) {
        Some(id) => id,
        None => {
            let mut text = place_text(ids_key, i);
            text.append(" is not a u32");
            return Err(text);
        },
    };
    let token = &tokens[i];
    let token_id: u32 = match smaller(token.number_at("id")) {
        Some(id) => id,
        None => {
            let mut text = place_text(tokens_key, i);
            text.append(".id is not a u32");
            return Err(text);
        },
    };
    let position: u64 = match token.number_at("position") {
        Some(position) => position,
        None => {
            let mut text = place_text(tokens_key, i);
            text.append(".position is invalid");
            return Err(text);
        },
    };
    if position != i as u64 || token_id != id {
        let mut text = "manifest token metadata disagrees at position ".to_owned();
        append_decimal(&mut text, i as u64);
        return Err(text);
    }
    let raw: bool = match token.get("raw") {
        Some(raw) => raw.is_string(),
        None => false,
    };
    let display: bool = match token.get("display") {
        Some(display) => display.is_null() || display.is_string(),
        None => false,
    };
    if !raw || !display {
        let mut text = "manifest token strings are invalid at position ".to_owned();
        append_decimal(&mut text, i as u64);
        return Err(text);
    }
    Ok(id)
}

fn read_tokens(
    value: &Value,
    ids_key: &str,
    tokens_key: &str,
    Ghost(item): Ghost<Item>,
) -> (r: Result<Vec<u32>, String>)
    requires
        means(*value, item),
    ensures
        match (r, manifest_ids(item, ids_key@, tokens_key@)) {
            (Ok(ids), Ok(expected)) => ids@ == expected,
            (Err(error), Err(expected)) => error@ == expected,
            _ => false,
        },
{
    let ids = match value.array_at(ids_key) {
        Some(ids) => ids,
        None => {
            return Err(array_complaint(ids_key));
        },
    };
    let tokens = match value.array_at(tokens_key) {
        Some(tokens) => tokens,
        None => {
            return Err(array_complaint(tokens_key));
        },
    };
    let ghost id_items = item.array_under(ids_key@)->0;
    let ghost token_items = item.array_under(tokens_key@)->0;
    if ids.len() != tokens.len() {
        let mut text = "manifest ".to_owned();
        text.append(ids_key);
        text.append(" and ");
        text.append(tokens_key);
        text.append(" lengths differ");
        return Err(text);
    }
    let mut out: Vec<u32> = Vec::new();
    let mut i: usize = 0;
    while i < ids.len()
        invariant
            i <= ids.len(),
            ids@.len() == tokens@.len(),
            all_mean(ids@, id_items),
            all_mean(tokens@, token_items),
            manifest_ids(item, ids_key@, tokens_key@) == token_numbers(
                id_items,
                token_items,
                ids@.len() as int,
                ids_key@,
                tokens_key@,
            ),
            token_numbers(id_items, token_items, i as int, ids_key@, tokens_key@) == Ok::<
                Seq<u32>,
                Seq<char>,
            >(out@),
        decreases ids.len() - i,
    {
        proof {
            if token_numbers(id_items, token_items, i + 1, ids_key@, tokens_key@) is Err {
                token_error_stays(
                    id_items,
                    token_items,
                    i + 1,
                    ids@.len() as int,
                    ids_key@,
                    tokens_key@,
                );
            }
        }
        let id: u32 = read_token(
            ids,
            tokens,
            i,
            ids_key,
            tokens_key,
            Ghost(id_items),
            Ghost(token_items),
        )?;
        out.push(id);
        i += 1;
    }
    Ok(out)
}

/// Reads the token numbers of a manifest.
pub fn manifest_token_ids(value: &Value, ids_key: &str, tokens_key: &str) -> (r: Result<
    Vec<u32>,
    String,
>)
    ensures
        forall|item: Item| #[trigger]
            means(*value, item) ==> match (r, manifest_ids(item, ids_key@, tokens_key@)) {
                (Ok(ids), Ok(expected)) => ids@ == expected,
                (Err(error), Err(expected)) => error@ == expected,
                _ => false,
            },
{
    let ghost item = model_of(*value);
    proof {
        value_means_its_model(*value);
    }
    let r = read_tokens(value, ids_key, tokens_key, Ghost(item));
    assert forall|other: Item| #[trigger] means(*value, other) implies other == item by {
        meaning_is_unique(*value, other, item);
    }
    r
}

// What a value means.

/// The item that a value means.
pub open spec fn model_of(value: Value) -> Item
    decreases value,
{
    match value {
        Value::Null => Item::Null,
        Value::Bool(b) => Item::Bool(b),
        Value::Unsigned(n) => Item::Unsigned(n),
        Value::Negative(n) => Item::Negative(n),
        Value::Float32(bits) => Item::Float32(bits),
        Value::Float64(bits) => Item::Float64(bits),
        Value::Text(text) => Item::Text(text@),
        Value::Array(values) => Item::Array(
            Seq::new(
                values@.len(),
                |i: int|
                    if 0 <= i < values@.len() {
                        model_of(values@[i])
                    } else {
                        Item::Null
                    },
            ),
        ),
        Value::Object(entries) => Item::Object(
            Seq::new(
                entries@.len(),
                |i: int|
                    if 0 <= i < entries@.len() {
                        (entries@[i].0@, model_of(entries@[i].1))
                    } else {
                        (Seq::empty(), Item::Null)
                    },
            ),
        ),
    }
}

/// Every value means its item.
pub proof fn value_means_its_model(value: Value)
    ensures
        means(value, model_of(value)),
    decreases value,
{
    match value {
        Value::Array(values) => {
            assert forall|i: int| 0 <= i < values@.len() implies means(
                #[trigger] values@[i],
                model_of(value)->Array_0[i],
            ) by {
                value_means_its_model(values@[i]);
            }
        },
        Value::Object(entries) => {
            assert forall|i: int| 0 <= i < entries@.len() implies (#[trigger] entries@[i]).0@
                == model_of(value)->Object_0[i].0 && means(
                entries@[i].1,
                model_of(value)->Object_0[i].1,
            ) by {
                value_means_its_model(entries@[i].1);
            }
        },
        _ => {},
    }
}

/// A value means one item only.
pub proof fn meaning_is_unique(value: Value, a: Item, b: Item)
    requires
        means(value, a),
        means(value, b),
    ensures
        a == b,
    decreases a,
{
    match (a, b) {
        (Item::Array(x), Item::Array(y)) => {
            assert forall|i: int| 0 <= i < x.len() implies x[i] == y[i] by {
                let values = value->Array_0;
                assert(means(values@[i], x[i]));
                assert(means(values@[i], y[i]));
                meaning_is_unique(values@[i], x[i], y[i]);
            }
            assert(x =~= y);
        },
        (Item::Object(x), Item::Object(y)) => {
            assert forall|i: int| 0 <= i < x.len() implies x[i] == y[i] by {
                let entries = value->Object_0;
                assert(entries@[i].0@ == x[i].0 && means(entries@[i].1, x[i].1));
                assert(entries@[i].0@ == y[i].0 && means(entries@[i].1, y[i].1));
                meaning_is_unique(entries@[i].1, x[i].1, y[i].1);
            }
            assert(x =~= y);
        },
        _ => {},
    }
}

} // verus!
