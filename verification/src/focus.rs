//! The request that a trace bundle is about, and what the bundle can claim of
//! it.

use crate::bundle::{
    output_problem, prompt_problem, validate_output_tokens, validate_prompt_tokens,
};
use crate::client::{request_number, stable_request_id};
use crate::digits::{append_padded_hex, padded_hex};
use crate::manifest::{model_of, required_string, required_text, value_means_its_model};
use crate::msgpack::{Item, Value};
use crate::query::optional_model;
use crate::semantic::SemanticWireRecord;
use vstd::prelude::*;
use vstd::string::*;
use vstd::utf8::*;

verus! {

/// What an engine trace says of the requests that it ran.
pub struct FocusTrace<'a> {
    pub loss_markers: u64,
    pub slices: &'a [SemanticWireRecord],
    pub packed_tokens: &'a [SemanticWireRecord],
    pub output_tokens: &'a [SemanticWireRecord],
}

/// The request that a bundle is about.
pub struct Focus {
    pub external_request_id: String,
    pub internal_request_id: String,
    pub request: u64,
}

/// The request that a bundle is about, by its names and its number.
pub struct FocusModel {
    pub external_request_id: Seq<char>,
    pub internal_request_id: Seq<char>,
    pub request: u64,
}

impl Focus {
    pub open spec fn model(self) -> FocusModel {
        FocusModel {
            external_request_id: self.external_request_id@,
            internal_request_id: self.internal_request_id@,
            request: self.request,
        }
    }
}

/// Whether the request had tokens scheduled in some step.
pub open spec fn takes_part(slices: Seq<SemanticWireRecord>, request: u64) -> bool {
    exists|i: int| 0 <= i < slices.len() && (#[trigger] slices[i]).request_id == request
}

pub open spec fn absent_words(name: Seq<char>, request: u64) -> Seq<char> {
    "focused request "@ + name + " (0x"@ + padded_hex(request as nat, 16)
        + ") is absent from semantic membership"@
}

/// The request that a manifest names, where the trace lost nothing and the
/// request took part in it.
pub open spec fn named_request(query: Item, trace: FocusTrace<'_>) -> Result<
    FocusModel,
    Seq<char>,
> {
    if trace.loss_markers != 0 {
        Err("refusing lossy semantic trace"@)
    } else {
        match (
            required_text(query, "internal_request_id"@),
            required_text(query, "external_request_id"@),
        ) {
            (Err(error), _) => Err(error),
            (Ok(_), Err(error)) => Err(error),
            (Ok(internal), Ok(external)) => {
                let request = request_number(encode_utf8(internal));
                if takes_part(trace.slices@, request) {
                    Ok(
                        FocusModel {
                            external_request_id: external,
                            internal_request_id: internal,
                            request,
                        },
                    )
                } else {
                    Err(absent_words(internal, request))
                }
            },
        }
    }
}

/// The request that a bundle is about, where its tokens are those that the
/// engine packed and accepted.
pub open spec fn focus_of(query: Item, output: Option<Item>, trace: FocusTrace<'_>) -> Result<
    FocusModel,
    Seq<char>,
> {
    match named_request(query, trace) {
        Err(error) => Err(error),
        Ok(focus) => match prompt_problem(query, trace.packed_tokens@, focus.request) {
            Some(problem) => Err(problem),
            None => match output {
                None => Ok(focus),
                Some(output) => match output_problem(
                    output,
                    trace.output_tokens@,
                    focus.request,
                ) {
                    Some(problem) => Err(problem),
                    None => Ok(focus),
                },
            },
        },
    }
}

fn takes_part_in(slices: &[SemanticWireRecord], request: u64) -> (r: bool)
    ensures
        r == takes_part(slices@, request),
{
    let mut i: usize = 0;
    while i < slices.len()
        invariant
            i <= slices.len(),
            forall|j: int| 0 <= j < i ==> (#[trigger] slices@[j]).request_id != request,
        decreases slices.len() - i,
    {
        if slices[i].request_id == request {
            return true;
        }
        i += 1;
    }
    false
}

fn find_request(query: &Value, trace: &FocusTrace<'_>) -> (r: Result<Focus, String>)
    ensures
        match (r, named_request(model_of(*query), *trace)) {
            (Ok(focus), Ok(expected)) => focus.model() == expected,
            (Err(error), Err(expected)) => error@ == expected,
            _ => false,
        },
{
    if trace.loss_markers != 0 {
        return Err("refusing lossy semantic trace".to_owned());
    }
    proof {
        value_means_its_model(*query);
    }
    let internal = required_string(query, "internal_request_id")?;
    let external = required_string(query, "external_request_id")?;
    let request: u64 = stable_request_id(internal.as_bytes());
    if !takes_part_in(trace.slices, request) {
        let mut text = "focused request ".to_owned();
        text.append(internal);
        text.append(" (0x");
        append_padded_hex(&mut text, request, 16);
        text.append(") is absent from semantic membership");
        return Err(text);
    }
    Ok(
        Focus {
            external_request_id: external.to_owned(),
            internal_request_id: internal.to_owned(),
            request,
        },
    )
}

/// Finds the request that a bundle is about, and holds the manifests of its
/// prompt and its output to what the engine packed and accepted.
pub fn focus_request(query: &Value, output: &Option<Value>, trace: &FocusTrace<'_>) -> (r: Result<
    Focus,
    String,
>)
    ensures
        match (r, focus_of(model_of(*query), optional_model(*output), *trace)) {
            (Ok(focus), Ok(expected)) => focus.model() == expected,
            (Err(error), Err(expected)) => error@ == expected,
            _ => false,
        },
{
    let focus = find_request(query, trace)?;
    validate_prompt_tokens(query, trace.packed_tokens, focus.request)?;
    if let Some(output) = output {
        validate_output_tokens(output, trace.output_tokens, focus.request)?;
    }
    Ok(focus)
}

// Evidence.

/// What a bundle claims, by how it is known.
pub struct Evidence {
    pub measured: Vec<&'static str>,
    pub reconstructed: Vec<&'static str>,
    pub matched_replay: bool,
    pub matched: Vec<&'static str>,
    pub unavailable: Vec<&'static str>,
}

/// The texts of a list of claims.
pub open spec fn claims(list: Seq<&'static str>) -> Seq<Seq<char>> {
    list.map_values(|claim: &'static str| claim@)
}

/// What every capture measures.
pub open spec fn always_measured() -> Seq<Seq<char>> {
    seq![
        "OpenAI request, rendered prompt, tokenizer output, and prompt token IDs"@,
        "EngineCore scheduler membership and step boundaries"@,
        "GPUModelRunner authoritative packed rows and focused token positions"@,
        "Frontend prompt token IDs exactly match authoritative packed prefill tokens"@,
        "CUPTI runtime correlation IDs and actual GPU kernel intervals"@,
    ]
}

/// What a capture measures where it has a manifest of the output.
pub open spec fn measured_of_output() -> Seq<Seq<char>> {
    seq![
        "Completed response text, output token IDs, and tokenizer strings"@,
        "Frontend output token IDs exactly match EngineCore accepted tokens"@,
    ]
}

/// What no capture has.
pub open spec fn never_available() -> Seq<Seq<char>> {
    seq![
        "PTX for shipped Qwen3-14B BF16 FlashAttention and vLLM operator binaries"@,
        "Exact per-request ownership for kernel families without a validated row-to-block rule"@,
    ]
}

/// What a capture lacks where it has no manifest of the output.
pub open spec fn lacking_output() -> Seq<char> {
    "Frontend output-token strings; no output manifest was captured"@
}

pub open spec fn always_reconstructed() -> Seq<Seq<char>> {
    seq![
        "Focused request identity from the shared stable 64-bit hash"@,
        "Cache-kernel block ownership from authoritative half-open packed rows"@,
    ]
}

/// What a deep replay of the run adds.
pub open spec fn matched_by_replay() -> Seq<Seq<char>> {
    seq![
        "Compute Sanitizer device PC samples mapped to exact SASS offsets"@,
        "Replay fingerprint and canonical semantic step signature match the timed run"@,
    ]
}

/// Whether the evidence claims what such a bundle has, and nothing else.
pub open spec fn evidence_is(evidence: Evidence, has_output: bool, has_replay: bool) -> bool {
    &&& claims(evidence.measured@) == if has_output {
        always_measured() + measured_of_output()
    } else {
        always_measured()
    }
    &&& claims(evidence.reconstructed@) == always_reconstructed()
    &&& evidence.matched_replay == has_replay
    &&& claims(evidence.matched@) == if has_replay {
        matched_by_replay()
    } else {
        Seq::empty()
    }
    &&& claims(evidence.unavailable@) == if has_output {
        never_available()
    } else {
        never_available().push(lacking_output())
    }
}

/// What a bundle claims, with or without a manifest of the output and a deep
/// replay of the run.
pub fn evidence_for(has_output: bool, has_replay: bool) -> (evidence: Evidence)
    ensures
        evidence_is(evidence, has_output, has_replay),
{
    let mut measured: Vec<&'static str> = vec![
        "OpenAI request, rendered prompt, tokenizer output, and prompt token IDs",
        "EngineCore scheduler membership and step boundaries",
        "GPUModelRunner authoritative packed rows and focused token positions",
        "Frontend prompt token IDs exactly match authoritative packed prefill tokens",
        "CUPTI runtime correlation IDs and actual GPU kernel intervals",
    ];
    let mut unavailable: Vec<&'static str> = vec![
        "PTX for shipped Qwen3-14B BF16 FlashAttention and vLLM operator binaries",
        "Exact per-request ownership for kernel families without a validated row-to-block rule",
    ];
    if has_output {
        measured.push("Completed response text, output token IDs, and tokenizer strings");
        measured.push("Frontend output token IDs exactly match EngineCore accepted tokens");
        assert(claims(measured@) =~= always_measured() + measured_of_output());
        assert(claims(unavailable@) =~= never_available());
    } else {
        unavailable.push("Frontend output-token strings; no output manifest was captured");
        assert(claims(measured@) =~= always_measured());
        assert(claims(unavailable@) =~= never_available().push(lacking_output()));
    }
    let reconstructed: Vec<&'static str> = vec![
        "Focused request identity from the shared stable 64-bit hash",
        "Cache-kernel block ownership from authoritative half-open packed rows",
    ];
    assert(claims(reconstructed@) =~= always_reconstructed());
    let matched: Vec<&'static str> = if has_replay {
        vec![
            "Compute Sanitizer device PC samples mapped to exact SASS offsets",
            "Replay fingerprint and canonical semantic step signature match the timed run",
        ]
    } else {
        Vec::new()
    };
    assert(claims(matched@) =~= if has_replay {
        matched_by_replay()
    } else {
        Seq::empty()
    });
    Evidence { measured, reconstructed, matched_replay: has_replay, matched, unavailable }
}

/// A request is in focus only where nothing was lost, the request took part,
/// and its prompt and output are those of the engine.
pub proof fn focus_is_backed(query: Item, output: Option<Item>, trace: FocusTrace<'_>)
    requires
        focus_of(query, output, trace) is Ok,
    ensures
        ({
            let focus = focus_of(query, output, trace)->Ok_0;
            &&& trace.loss_markers == 0
            &&& focus.request == request_number(encode_utf8(focus.internal_request_id))
            &&& takes_part(trace.slices@, focus.request)
            &&& prompt_problem(query, trace.packed_tokens@, focus.request) is None
            &&& output matches Some(output) ==> output_problem(
                output,
                trace.output_tokens@,
                focus.request,
            ) is None
        }),
{
}

/// What a bundle says of the output is measured where the output was captured,
/// and said to be unavailable where it was not. A match with a replay is
/// claimed only where there is one.
pub proof fn claims_follow_the_capture(evidence: Evidence, has_output: bool, has_replay: bool)
    requires
        evidence_is(evidence, has_output, has_replay),
    ensures
        has_output ==> forall|i: int|
            0 <= i < measured_of_output().len() ==> claims(evidence.measured@).contains(
                #[trigger] measured_of_output()[i],
            ),
        !has_output ==> claims(evidence.unavailable@).contains(lacking_output()),
        !has_replay <==> evidence.matched@.len() == 0,
{
    if has_output {
        assert forall|i: int| 0 <= i < measured_of_output().len() implies claims(
            evidence.measured@,
        ).contains(#[trigger] measured_of_output()[i]) by {
            let at = always_measured().len() + i;
            assert(claims(evidence.measured@)[at as int] == measured_of_output()[i]);
        }
    } else {
        let at = never_available().len() as int;
        assert(claims(evidence.unavailable@)[at] == lacking_output());
    }
    assert(claims(evidence.matched@).len() == evidence.matched@.len());
}

} // verus!
