//! Fields of JSON documents: what identifies a run, and whether a deep replay
//! belongs to it.

use crate::text::text_is;
use vstd::prelude::*;
use vstd::string::*;

verus! {

/// The text of a string that may be missing.
pub open spec fn text_in(text: Option<String>) -> Option<Seq<char>> {
    match text {
        Some(text) => Some(text@),
        None => None,
    }
}

// What serde_json makes of a document.

/// What `serde_json::from_reader` says is wrong with a document.
pub uninterp spec fn json_fault_of(document: Seq<u8>) -> Option<Seq<char>>;

/// Whether a document is one that `serde_json::from_slice` reads as an object.
pub uninterp spec fn json_object_of(document: Seq<u8>) -> bool;

/// The string that serde_json finds under a key of a document.
pub uninterp spec fn json_text_of(document: Seq<u8>, key: Seq<char>) -> Option<Seq<char>>;

/// The unsigned number that serde_json finds under a key of a document.
pub uninterp spec fn json_unsigned_of(document: Seq<u8>, key: Seq<char>) -> Option<u64>;

/// The signed number that serde_json finds under a key of a document.
pub uninterp spec fn json_signed_of(document: Seq<u8>, key: Seq<char>) -> Option<i64>;

/// The string that serde_json finds in a document under a key, at an index of
/// the list there, and under two keys further in.
pub uninterp spec fn json_nested_text_of(
    document: Seq<u8>,
    list: Seq<char>,
    index: usize,
    inner: Seq<char>,
    key: Seq<char>,
) -> Option<Seq<char>>;

/// The error of `serde_json::from_reader` into a `serde_json::Value`, in its
/// own words, or nothing where it reads the document. The words are a
/// function of the document.
#[verifier::external_body]
fn json_fault(document: &[u8]) -> (r: Option<String>)
    ensures
        text_in(r) == json_fault_of(document@),
{
    match serde_json::from_reader::<&[u8], serde_json::Value>(document) {
        Ok(_) => None,
        Err(error) => Some(error.to_string()),
    }
}

/// Whether `serde_json::from_slice` reads the document, and
/// `serde_json::Value::is_object` holds of what it reads.
#[verifier::external_body]
fn json_object(document: &[u8]) -> (r: bool)
    ensures
        r == json_object_of(document@),
{
    match serde_json::from_slice::<serde_json::Value>(document) {
        Ok(value) => value.is_object(),
        Err(_) => false,
    }
}

/// `serde_json::Value::get` with the key and `serde_json::Value::as_str`, on
/// what `serde_json::from_slice` reads; nothing where it reads nothing. The
/// result is a function of the document and the key.
#[verifier::external_body]
pub(crate) fn json_text(document: &[u8], key: &str) -> (r: Option<String>)
    ensures
        text_in(r) == json_text_of(document@, key@),
{
    let value = serde_json::from_slice::<serde_json::Value>(document).ok()?;
    value.get(key)?.as_str().map(str::to_owned)
}

/// `serde_json::Value::get` with the key and `serde_json::Value::as_u64`, on
/// what `serde_json::from_slice` reads; nothing where it reads nothing. The
/// result is a function of the document and the key.
#[verifier::external_body]
pub(crate) fn json_unsigned(document: &[u8], key: &str) -> (r: Option<u64>)
    ensures
        r == json_unsigned_of(document@, key@),
{
    let value = serde_json::from_slice::<serde_json::Value>(document).ok()?;
    value.get(key)?.as_u64()
}

/// `serde_json::Value::get` with the key and `serde_json::Value::as_i64`, on
/// what `serde_json::from_slice` reads; nothing where it reads nothing. The
/// result is a function of the document and the key.
#[verifier::external_body]
pub(crate) fn json_signed(document: &[u8], key: &str) -> (r: Option<i64>)
    ensures
        r == json_signed_of(document@, key@),
{
    let value = serde_json::from_slice::<serde_json::Value>(document).ok()?;
    value.get(key)?.as_i64()
}

/// `serde_json::Value::get` with a key, an index and two more keys, each on
/// what the one before found, then `serde_json::Value::as_str`, on what
/// `serde_json::from_slice` reads; nothing where a step finds nothing. The
/// result is a function of the document, the keys and the index.
#[verifier::external_body]
pub(crate) fn json_nested_text(
    document: &[u8],
    list: &str,
    index: usize,
    inner: &str,
    key: &str,
) -> (r: Option<String>)
    ensures
        text_in(r) == json_nested_text_of(document@, list@, index, inner@, key@),
{
    let value = serde_json::from_slice::<serde_json::Value>(document).ok()?;
    let found = value.get(list)?.get(index)?.get(inner)?.get(key)?;
    found.as_str().map(str::to_owned)
}

// Run manifests.

/// What is wrong with a document that must be an object.
pub open spec fn object_problem(
    fault: Option<Seq<char>>,
    is_object: bool,
    complaint: Seq<char>,
) -> Option<Seq<char>> {
    match fault {
        Some(fault) => Some(fault),
        None => if is_object {
            None
        } else {
            Some(complaint)
        },
    }
}

/// What the reading of a document comes to, where it must be an object.
pub fn judge_object(fault: Option<String>, is_object: bool, complaint: String) -> (r: Result<
    (),
    String,
>)
    ensures
        match (r, object_problem(text_in(fault), is_object, complaint@)) {
            (Ok(()), None) => true,
            (Err(error), Some(problem)) => error@ == problem,
            _ => false,
        },
{
    match fault {
        Some(fault) => Err(fault),
        None => if is_object {
            Ok(())
        } else {
            Err(complaint)
        },
    }
}

pub open spec fn no_object(path: Seq<char>) -> Seq<char> {
    path + " must contain a JSON object"@
}

/// Holds a document of a bundle to be a JSON object.
pub fn check_manifest(document: &[u8], path: &str) -> (r: Result<(), String>)
    ensures
        match (
            r,
            object_problem(
                json_fault_of(document@),
                json_object_of(document@),
                no_object(path@),
            ),
        ) {
            (Ok(()), None) => true,
            (Err(error), Some(problem)) => error@ == problem,
            _ => false,
        },
{
    let mut complaint = path.to_owned();
    complaint.append(" must contain a JSON object");
    judge_object(json_fault(document), json_object(document), complaint)
}

/// What a manifest says of the run that it belongs to.
pub struct ReplayFields {
    pub fingerprint: Option<String>,
    pub signature: Option<String>,
}

/// The texts of what a manifest says of its run.
#[verifier::ext_equal]
pub struct ReplayModel {
    pub fingerprint: Option<Seq<char>>,
    pub signature: Option<Seq<char>>,
}

impl ReplayFields {
    pub open spec fn model(self) -> ReplayModel {
        ReplayModel { fingerprint: text_in(self.fingerprint), signature: text_in(self.signature) }
    }
}

/// What a document says of the run that it belongs to.
pub open spec fn replay_of(document: Seq<u8>) -> ReplayModel {
    ReplayModel {
        fingerprint: json_text_of(document, "replayFingerprint"@),
        signature: json_text_of(document, "semanticSignature"@),
    }
}

fn read_replay(document: &[u8]) -> (fields: ReplayFields)
    ensures
        fields.model() == replay_of(document@),
{
    ReplayFields {
        fingerprint: json_text(document, "replayFingerprint"),
        signature: json_text(document, "semanticSignature"),
    }
}

pub open spec fn field_missing(key: Seq<char>) -> Seq<char> {
    "manifest field "@ + key + " is missing or not a string"@
}

pub open spec fn field_differs(key: Seq<char>) -> Seq<char> {
    "deep replay "@ + key + " does not match the timed run"@
}

/// What is wrong with one field of two manifests that must agree.
pub open spec fn field_problem(
    key: Seq<char>,
    run: Option<Seq<char>>,
    deep: Option<Seq<char>>,
) -> Option<Seq<char>> {
    match (run, deep) {
        (Some(run), Some(deep)) => if run == deep {
            None
        } else {
            Some(field_differs(key))
        },
        _ => Some(field_missing(key)),
    }
}

/// What is wrong with a deep replay of a run: the fingerprint is held first,
/// then the signature.
pub open spec fn replay_problem(run: ReplayModel, deep: ReplayModel) -> Option<Seq<char>> {
    match field_problem("replayFingerprint"@, run.fingerprint, deep.fingerprint) {
        Some(problem) => Some(problem),
        None => field_problem("semanticSignature"@, run.signature, deep.signature),
    }
}

fn compare_field(key: &str, run: &Option<String>, deep: &Option<String>) -> (r: Result<(), String>)
    ensures
        match (r, field_problem(key@, text_in(*run), text_in(*deep))) {
            (Ok(()), None) => true,
            (Err(error), Some(problem)) => error@ == problem,
            _ => false,
        },
{
    match (run, deep) {
        (Some(run), Some(deep)) => {
            if text_is(run.as_str(), deep.as_str()) {
                Ok(())
            } else {
                let mut text = "deep replay ".to_owned();
                text.append(key);
                text.append(" does not match the timed run");
                Err(text)
            }
        },
        _ => {
            let mut text = "manifest field ".to_owned();
            text.append(key);
            text.append(" is missing or not a string");
            Err(text)
        },
    }
}

/// Holds what two manifests say of their run against each other.
pub fn compare_replays(run: &ReplayFields, deep: &ReplayFields) -> (r: Result<(), String>)
    ensures
        match (r, replay_problem(run.model(), deep.model())) {
            (Ok(()), None) => true,
            (Err(error), Some(problem)) => error@ == problem,
            _ => false,
        },
{
    compare_field("replayFingerprint", &run.fingerprint, &deep.fingerprint)?;
    compare_field("semanticSignature", &run.signature, &deep.signature)
}

/// Whether a deep replay is one of the timed run.
pub fn validate_replay(run: &[u8], deep: &[u8]) -> (r: Result<(), String>)
    ensures
        match (r, replay_problem(replay_of(run@), replay_of(deep@))) {
            (Ok(()), None) => true,
            (Err(error), Some(problem)) => error@ == problem,
            _ => false,
        },
{
    compare_replays(&read_replay(run), &read_replay(deep))
}

/// A deep replay that is accepted names the same run as the timed one, in
/// both of the fields that identify it.
pub proof fn accepted_replay_is_of_the_run(run: ReplayModel, deep: ReplayModel)
    requires
        replay_problem(run, deep) is None,
    ensures
        run == deep,
        run.fingerprint is Some,
        run.signature is Some,
{
}

/// A manifest that names its run is accepted as a replay of itself.
pub proof fn replay_of_itself_is_accepted(run: ReplayModel)
    requires
        run.fingerprint is Some,
        run.signature is Some,
    ensures
        replay_problem(run, run) is None,
{
}

/// What names a run.
pub struct RunIdentity {
    pub fingerprint: String,
    pub signature: String,
}

pub open spec fn run_lacks(key: Seq<char>) -> Seq<char> {
    "run manifest lacks "@ + key
}

/// What names a run, from the reading of its manifest.
pub open spec fn identity_of(
    fault: Option<Seq<char>>,
    is_object: bool,
    fields: ReplayModel,
) -> Result<(Seq<char>, Seq<char>), Seq<char>> {
    match object_problem(fault, is_object, "run manifest must be an object"@) {
        Some(problem) => Err(problem),
        None => match (fields.fingerprint, fields.signature) {
            (None, _) => Err(run_lacks("replayFingerprint"@)),
            (_, None) => Err(run_lacks("semanticSignature"@)),
            (Some(fingerprint), Some(signature)) => Ok((fingerprint, signature)),
        },
    }
}

fn lacking(key: &str) -> (text: String)
    ensures
        text@ == run_lacks(key@),
{
    let mut text = "run manifest lacks ".to_owned();
    text.append(key);
    text
}

/// What names a run, from the reading of its manifest.
pub fn judge_identity(fault: Option<String>, is_object: bool, fields: ReplayFields) -> (r: Result<
    RunIdentity,
    String,
>)
    ensures
        match (r, identity_of(text_in(fault), is_object, fields.model())) {
            (Ok(identity), Ok(expected)) => identity.fingerprint@ == expected.0
                && identity.signature@ == expected.1,
            (Err(error), Err(expected)) => error@ == expected,
            _ => false,
        },
{
    judge_object(fault, is_object, "run manifest must be an object".to_owned())?;
    match (fields.fingerprint, fields.signature) {
        (None, _) => Err(lacking("replayFingerprint")),
        (_, None) => Err(lacking("semanticSignature")),
        (Some(fingerprint), Some(signature)) => Ok(RunIdentity { fingerprint, signature }),
    }
}

/// What names a run, from its manifest.
pub fn read_identity(document: &[u8]) -> (r: Result<RunIdentity, String>)
    ensures
        match (
            r,
            identity_of(
                json_fault_of(document@),
                json_object_of(document@),
                replay_of(document@),
            ),
        ) {
            (Ok(identity), Ok(expected)) => identity.fingerprint@ == expected.0
                && identity.signature@ == expected.1,
            (Err(error), Err(expected)) => error@ == expected,
            _ => false,
        },
{
    judge_identity(json_fault(document), json_object(document), read_replay(document))
}

} // verus!
