//! What a report says of requests and steps, in terms of the events that went in
//! and of the steps that it lists.

use crate::compact::slice_requests;
use crate::names::{distinct, increasing, listing_exists, lists_once};
use crate::report::{CorrelatedStep, RequestExecution};
use crate::reporting::{
    after_slices, after_steps, companions, event_facts, fact_name, fact_names, first_service,
    optional_text, other_requests, request_ids, request_reports, requests_report, served_names,
    serves, serving_steps, string_texts, RequestFacts,
};
use crate::trace_event::{Event, RequestSlice};
use vstd::prelude::*;

verus! {

// Who takes part in a step.

/// Whether one of the step's slices is the request's.
pub open spec fn takes_part(step: CorrelatedStep, id: Seq<char>) -> bool {
    exists|i: int|
        0 <= i < step.request_slices@.len() && (#[trigger] step.request_slices@[i]).request_id@
            == id
}

proof fn serving_is_taking_part(step: CorrelatedStep, id: Seq<char>)
    ensures
        serves(step, id) == takes_part(step, id),
{
    let names = slice_requests(step.request_slices@);
    if serves(step, id) {
        let i = choose|i: int| 0 <= i < names.len() && names[i] == id;
        assert(step.request_slices@[i].request_id@ == id);
    }
    if takes_part(step, id) {
        let i = choose|i: int|
            0 <= i < step.request_slices@.len() && (
            #[trigger] step.request_slices@[i]).request_id@ == id;
        assert(names[i] == id);
    }
}

// What the events say of a request.

/// The time of the event on the common clock, where it has one.
pub open spec fn time_of(e: Event) -> u64 {
    if e.normalized_timestamp_ns is Some {
        e.normalized_timestamp_ns->0
    } else {
        e.timestamp_ns
    }
}

/// Whether the event queues the request.
pub open spec fn queues(e: Event, id: Seq<char>) -> bool {
    e.kind is RequestQueued && e.kind->RequestQueued_request_id@ == id
}

/// Whether the event completes the request.
pub open spec fn completes(e: Event, id: Seq<char>) -> bool {
    e.kind is RequestCompleted && e.kind->RequestCompleted_request_id@ == id
}

/// Whether the event receives the request.
pub open spec fn receives(e: Event, id: Seq<char>) -> bool {
    e.kind is RequestReceived && e.kind->RequestReceived_request_id@ == id
}

/// What queues the request.
pub open spec fn queueing(id: Seq<char>) -> spec_fn(Event) -> bool {
    |e: Event| queues(e, id)
}

/// What completes the request.
pub open spec fn completing(id: Seq<char>) -> spec_fn(Event) -> bool {
    |e: Event| completes(e, id)
}

/// What receives the request.
pub open spec fn receiving(id: Seq<char>) -> spec_fn(Event) -> bool {
    |e: Event| receives(e, id)
}

/// Whether the event at the place is the last with the property.
pub open spec fn is_last(events: Seq<Event>, at: int, p: spec_fn(Event) -> bool) -> bool {
    &&& 0 <= at < events.len()
    &&& p(events[at])
    &&& forall|j: int| at < j < events.len() ==> !p(#[trigger] events[j])
}

/// Whether no event has the property.
pub open spec fn never(events: Seq<Event>, p: spec_fn(Event) -> bool) -> bool {
    forall|j: int| 0 <= j < events.len() ==> !p(#[trigger] events[j])
}

proof fn last_stays(events: Seq<Event>, at: int, p: spec_fn(Event) -> bool)
    requires
        events.len() > 0,
        is_last(events.drop_last(), at, p),
        !p(events.last()),
    ensures
        is_last(events, at, p),
{
    let front = events.drop_last();
    assert(events[at] == front[at]);
    assert forall|j: int| at < j < events.len() implies !p(#[trigger] events[j]) by {
        if j < front.len() {
            assert(front[j] == events[j]);
        }
    }
}

proof fn never_stays(events: Seq<Event>, p: spec_fn(Event) -> bool)
    requires
        events.len() > 0,
        never(events.drop_last(), p),
        !p(events.last()),
    ensures
        never(events, p),
{
    let front = events.drop_last();
    assert forall|j: int| 0 <= j < events.len() implies !p(#[trigger] events[j]) by {
        if j < front.len() {
            assert(front[j] == events[j]);
        }
    }
}

proof fn queued_fact_is_of_the_last(events: Seq<Event>, id: Seq<char>)
    ensures
        event_facts(events, id).queued_at_ns matches Some(t) ==> exists|at: int|
            #[trigger] is_last(events, at, queueing(id)) && time_of(events[at]) == t,
        event_facts(events, id).queued_at_ns is None ==> never(events, queueing(id)),
    decreases events.len(),
{
    let p = queueing(id);
    if events.len() > 0 {
        let front = events.drop_last();
        queued_fact_is_of_the_last(front, id);
        let last = events.len() - 1;
        assert(events[last] == events.last());
        if queues(events.last(), id) {
            assert(is_last(events, last, p));
        } else {
            if event_facts(front, id).queued_at_ns is Some {
                let at = choose|at: int|
                    #[trigger] is_last(front, at, p) && Some(time_of(front[at])) == event_facts(
                        front,
                        id,
                    ).queued_at_ns;
                last_stays(events, at, p);
            } else {
                never_stays(events, p);
            }
        }
    }
}

proof fn completed_facts_are_of_the_last(events: Seq<Event>, id: Seq<char>)
    ensures
        event_facts(events, id).e2e_latency_ns matches Some(t) ==> exists|at: int|
            {
                &&& #[trigger] is_last(events, at, completing(id))
                &&& events[at].kind->RequestCompleted_e2e_latency_ns == t
                &&& events[at].kind->RequestCompleted_ttft_ns == event_facts(events, id).ttft_ns
            },
        event_facts(events, id).e2e_latency_ns is None ==> never(events, completing(id)) && event_facts(events, id).ttft_ns is None,
    decreases events.len(),
{
    let p = completing(id);
    if events.len() > 0 {
        let front = events.drop_last();
        completed_facts_are_of_the_last(front, id);
        let last = events.len() - 1;
        assert(events[last] == events.last());
        if completes(events.last(), id) {
            assert(is_last(events, last, p));
        } else {
            if event_facts(front, id).e2e_latency_ns is Some {
                let at = choose|at: int|
                    {
                        &&& #[trigger] is_last(front, at, p)
                        &&& Some(front[at].kind->RequestCompleted_e2e_latency_ns) == event_facts(
                            front,
                            id,
                        ).e2e_latency_ns
                        &&& front[at].kind->RequestCompleted_ttft_ns == event_facts(
                            front,
                            id,
                        ).ttft_ns
                    };
                last_stays(events, at, p);
            } else {
                never_stays(events, p);
            }
        }
    }
}

proof fn received_fact_is_of_the_last(events: Seq<Event>, id: Seq<char>)
    ensures
        (exists|at: int|
            #[trigger] is_last(events, at, receiving(id)) && optional_text(
                events[at].kind->RequestReceived_service_class,
            ) == event_facts(events, id).service_class) || never(events, receiving(id)) && event_facts(events, id).service_class is None,
    decreases events.len(),
{
    let p = receiving(id);
    if events.len() > 0 {
        let front = events.drop_last();
        received_fact_is_of_the_last(front, id);
        let last = events.len() - 1;
        assert(events[last] == events.last());
        if receives(events.last(), id) {
            assert(is_last(events, last, p));
        } else {
            if !never(front, p) {
                let at = choose|at: int|
                    #[trigger] is_last(front, at, p) && optional_text(
                        front[at].kind->RequestReceived_service_class,
                    ) == event_facts(front, id).service_class;
                last_stays(events, at, p);
            } else if exists|at: int| #[trigger] is_last(front, at, p) {
                let at = choose|at: int| #[trigger] is_last(front, at, p);
                assert(!p(front[at]));
            } else {
                never_stays(events, p);
            }
        }
    }
}

// How steps add to it.

/// Whether the slice gives the request a service class.
pub open spec fn classes_request(s: RequestSlice, id: Seq<char>) -> bool {
    s.request_id@ == id && s.service_class is Some
}

proof fn slices_give_the_first_class(facts: RequestFacts, slices: Seq<RequestSlice>, id: Seq<char>)
    ensures
        after_slices(facts, slices, id).queued_at_ns == facts.queued_at_ns,
        after_slices(facts, slices, id).ttft_ns == facts.ttft_ns,
        after_slices(facts, slices, id).e2e_latency_ns == facts.e2e_latency_ns,
        facts.service_class is Some ==> after_slices(facts, slices, id).service_class
            == facts.service_class,
        facts.service_class is None ==> match after_slices(facts, slices, id).service_class {
            Some(class) => exists|m: int|
                {
                    &&& 0 <= m < slices.len()
                    &&& classes_request(#[trigger] slices[m], id)
                    &&& (slices[m].service_class->0)@ == class
                    &&& forall|k: int|
                        0 <= k < m ==> !classes_request(#[trigger] slices[k], id)
                },
            None => forall|k: int|
                0 <= k < slices.len() ==> !classes_request(#[trigger] slices[k], id),
        },
    decreases slices.len(),
{
    if slices.len() > 0 {
        let front = slices.drop_last();
        slices_give_the_first_class(facts, front, id);
        let last = slices.len() - 1;
        assert(slices[last] == slices.last());
        let before = after_slices(facts, front, id).service_class;
        if facts.service_class is None {
            if before is Some {
                let m = choose|m: int|
                    {
                        &&& 0 <= m < front.len()
                        &&& classes_request(#[trigger] front[m], id)
                        &&& (front[m].service_class->0)@ == before->0
                        &&& forall|k: int|
                            0 <= k < m ==> !classes_request(#[trigger] front[k], id)
                    };
                assert(slices[m] == front[m]);
                assert forall|k: int| 0 <= k < m implies !classes_request(
                    #[trigger] slices[k],
                    id,
                ) by {
                    assert(front[k] == slices[k]);
                }
                assert(classes_request(slices[m], id));
            } else {
                assert forall|k: int| 0 <= k < last implies !classes_request(
                    #[trigger] slices[k],
                    id,
                ) by {
                    assert(front[k] == slices[k]);
                }
                if classes_request(slices.last(), id) {
                    assert(classes_request(slices[last], id));
                }
            }
        }
    }
}

/// Whether a slice of the step gives the request a service class.
pub open spec fn step_classes(step: CorrelatedStep, id: Seq<char>) -> bool {
    exists|m: int|
        0 <= m < step.request_slices@.len() && classes_request(
            #[trigger] step.request_slices@[m],
            id,
        )
}

/// Whether the class is that of the first slice that gives the request one.
pub open spec fn is_first_class(
    steps: Seq<CorrelatedStep>,
    id: Seq<char>,
    class: Seq<char>,
    n: int,
    m: int,
) -> bool {
    &&& 0 <= n < steps.len()
    &&& 0 <= m < steps[n].request_slices@.len()
    &&& classes_request(steps[n].request_slices@[m], id)
    &&& (steps[n].request_slices@[m].service_class->0)@ == class
    &&& forall|k: int|
        0 <= k < m ==> !classes_request(#[trigger] steps[n].request_slices@[k], id)
    &&& forall|j: int| 0 <= j < n ==> !step_classes(#[trigger] steps[j], id)
}

proof fn steps_give_the_first_class(facts: RequestFacts, steps: Seq<CorrelatedStep>, id: Seq<char>)
    ensures
        after_steps(facts, steps, id).queued_at_ns == facts.queued_at_ns,
        after_steps(facts, steps, id).ttft_ns == facts.ttft_ns,
        after_steps(facts, steps, id).e2e_latency_ns == facts.e2e_latency_ns,
        facts.service_class is Some ==> after_steps(facts, steps, id).service_class
            == facts.service_class,
        facts.service_class is None ==> match after_steps(facts, steps, id).service_class {
            Some(class) => exists|n: int, m: int|
                #[trigger] is_first_class(steps, id, class, n, m),
            None => forall|j: int| 0 <= j < steps.len() ==> !step_classes(#[trigger] steps[j], id),
        },
    decreases steps.len(),
{
    if steps.len() > 0 {
        let front = steps.drop_last();
        steps_give_the_first_class(facts, front, id);
        let before = after_steps(facts, front, id);
        let last = steps.len() - 1;
        let slices = steps.last().request_slices@;
        assert(steps[last] == steps.last());
        slices_give_the_first_class(before, slices, id);
        if facts.service_class is None {
            if before.service_class is Some {
                let class = before.service_class->0;
                let (n, m) = choose|n: int, m: int|
                    #[trigger] is_first_class(front, id, class, n, m);
                assert(steps[n] == front[n]);
                assert forall|j: int| 0 <= j < n implies !step_classes(#[trigger] steps[j], id) by {
                    assert(front[j] == steps[j]);
                }
                assert(is_first_class(steps, id, class, n, m));
            } else {
                assert forall|j: int| 0 <= j < last implies !step_classes(
                    #[trigger] steps[j],
                    id,
                ) by {
                    assert(front[j] == steps[j]);
                }
                let after = after_slices(before, slices, id).service_class;
                if after is Some {
                    let m = choose|m: int|
                        {
                            &&& 0 <= m < slices.len()
                            &&& classes_request(#[trigger] slices[m], id)
                            &&& (slices[m].service_class->0)@ == after->0
                            &&& forall|k: int|
                                0 <= k < m ==> !classes_request(#[trigger] slices[k], id)
                        };
                    assert(is_first_class(steps, id, after->0, last, m));
                } else {
                    assert(!step_classes(steps[last], id));
                }
            }
        }
    }
}

proof fn first_service_is_earliest(steps: Seq<CorrelatedStep>, id: Seq<char>)
    ensures
        first_service(steps, id) matches Some(t) ==> {
            &&& exists|n: int|
                0 <= n < steps.len() && takes_part(#[trigger] steps[n], id)
                    && steps[n].begin_timestamp_ns == t
            &&& forall|n: int|
                0 <= n < steps.len() && takes_part(#[trigger] steps[n], id) ==> t
                    <= steps[n].begin_timestamp_ns
        },
        first_service(steps, id) is None ==> forall|n: int|
            0 <= n < steps.len() ==> !takes_part(#[trigger] steps[n], id),
    decreases steps.len(),
{
    if steps.len() > 0 {
        let front = steps.drop_last();
        first_service_is_earliest(front, id);
        serving_is_taking_part(steps.last(), id);
        let last = steps.len() - 1;
        assert(steps[last] == steps.last());
        assert forall|n: int| 0 <= n < last implies #[trigger] steps[n] == front[n] by {}
        if first_service(front, id) is Some {
            let t = first_service(front, id)->0;
            let n = choose|n: int|
                0 <= n < front.len() && takes_part(#[trigger] front[n], id)
                    && front[n].begin_timestamp_ns == t;
            assert(takes_part(steps[n], id));
        }
    }
}

/// A request waited from its last queueing to the begin of the first step that
/// it takes part in: where a delay is given, one of its steps begins that much
/// after the queueing, and none earlier. None is given only where the request was
/// never queued, takes part in no step, or takes part in one that began before.
pub proof fn request_waits_until_its_first_step(
    r: RequestExecution,
    events: Seq<Event>,
    steps: Seq<CorrelatedStep>,
    id: Seq<char>,
)
    requires
        request_reports(r, events, steps, id),
    ensures
        r.queue_delay_ns matches Some(d) ==> exists|at: int|
            {
                &&& #[trigger] is_last(events, at, queueing(id))
                &&& exists|n: int|
                    0 <= n < steps.len() && takes_part(#[trigger] steps[n], id)
                        && steps[n].begin_timestamp_ns == time_of(events[at]) + d
                &&& forall|n: int|
                    0 <= n < steps.len() && takes_part(#[trigger] steps[n], id)
                        ==> steps[n].begin_timestamp_ns >= time_of(events[at]) + d
            },
        r.queue_delay_ns is None ==> {
            ||| never(events, queueing(id))
            ||| forall|n: int| 0 <= n < steps.len() ==> !takes_part(#[trigger] steps[n], id)
            ||| exists|at: int, n: int|
                {
                    &&& #[trigger] is_last(events, at, queueing(id))
                    &&& 0 <= n < steps.len() && takes_part(#[trigger] steps[n], id)
                    &&& steps[n].begin_timestamp_ns < time_of(events[at])
                }
        },
{
    let facts = event_facts(events, id);
    steps_give_the_first_class(facts, steps, id);
    queued_fact_is_of_the_last(events, id);
    first_service_is_earliest(steps, id);
    let p = queueing(id);
    if facts.queued_at_ns is Some && first_service(steps, id) is Some {
        let at = choose|at: int|
            #[trigger] is_last(events, at, p) && Some(time_of(events[at])) == facts.queued_at_ns;
        assert(is_last(events, at, p));
        let n = choose|n: int|
            0 <= n < steps.len() && takes_part(#[trigger] steps[n], id) && Some(
                steps[n].begin_timestamp_ns,
            ) == first_service(steps, id);
        assert(takes_part(steps[n], id));
    }
}

/// The latencies of a request are those of its last completion, and there are none
/// without one.
pub proof fn latencies_are_of_the_last_completion(
    r: RequestExecution,
    events: Seq<Event>,
    steps: Seq<CorrelatedStep>,
    id: Seq<char>,
)
    requires
        request_reports(r, events, steps, id),
    ensures
        r.request_id@ == id,
        r.e2e_latency_ns matches Some(t) ==> exists|at: int|
            {
                &&& #[trigger] is_last(events, at, completing(id))
                &&& events[at].kind->RequestCompleted_e2e_latency_ns == t
                &&& events[at].kind->RequestCompleted_ttft_ns == r.ttft_ns
            },
        r.e2e_latency_ns is None ==> never(events, completing(id)) && r.ttft_ns is None,
{
    steps_give_the_first_class(event_facts(events, id), steps, id);
    completed_facts_are_of_the_last(events, id);
}

/// The service class of a request is the one that it was last received with, and
/// where that is none, the first that a step gave it.
pub proof fn class_is_received_or_given(
    r: RequestExecution,
    events: Seq<Event>,
    steps: Seq<CorrelatedStep>,
    id: Seq<char>,
)
    requires
        request_reports(r, events, steps, id),
    ensures
        forall|at: int|
            #[trigger] is_last(events, at, receiving(id))
                && events[at].kind->RequestReceived_service_class is Some ==> optional_text(
                r.service_class,
            ) == Some((events[at].kind->RequestReceived_service_class->0)@),
        (forall|at: int|
            #[trigger] is_last(events, at, receiving(id))
                ==> events[at].kind->RequestReceived_service_class is None) ==> match r.service_class {
            Some(class) => exists|n: int, m: int|
                #[trigger] is_first_class(steps, id, class@, n, m),
            None => forall|j: int| 0 <= j < steps.len() ==> !step_classes(#[trigger] steps[j], id),
        },
{
    let facts = event_facts(events, id);
    let p = receiving(id);
    steps_give_the_first_class(facts, steps, id);
    received_fact_is_of_the_last(events, id);
    assert forall|a: int, b: int| #[trigger] is_last(events, a, p) && #[trigger] is_last(
        events,
        b,
        p,
    ) implies a == b by {
        if a < b {
            assert(!p(events[b]));
        } else if b < a {
            assert(!p(events[a]));
        }
    }
    assert forall|at: int| #[trigger] is_last(events, at, p) implies optional_text(
        events[at].kind->RequestReceived_service_class,
    ) == facts.service_class by {
        assert(p(events[at]));
        let own = choose|own: int|
            #[trigger] is_last(events, own, p) && optional_text(
                events[own].kind->RequestReceived_service_class,
            ) == facts.service_class;
        assert(own == at);
    }
}

// The steps of a request.

/// Whether the places are those of the request's steps, in order.
pub open spec fn are_steps_of(places: Seq<int>, steps: Seq<CorrelatedStep>, id: Seq<char>) -> bool {
    &&& forall|k: int|
        0 <= k < places.len() ==> 0 <= (#[trigger] places[k]) < steps.len() && takes_part(
            steps[places[k]],
            id,
        )
    &&& forall|k: int, m: int|
        0 <= k < m < places.len() ==> (#[trigger] places[k]) < (#[trigger] places[m])
    &&& forall|n: int|
        0 <= n < steps.len() && takes_part(#[trigger] steps[n], id) ==> places.contains(n)
}

proof fn serving_steps_are_those(steps: Seq<CorrelatedStep>, id: Seq<char>)
    ensures
        exists|places: Seq<int>|
            {
                &&& #[trigger] are_steps_of(places, steps, id)
                &&& places.len() == serving_steps(steps, id).len()
                &&& forall|k: int|
                    0 <= k < places.len() ==> serving_steps(steps, id)[k]
                        == steps[#[trigger] places[k]].step_id
            },
    decreases steps.len(),
{
    if steps.len() == 0 {
        let places = Seq::<int>::empty();
        assert(are_steps_of(places, steps, id));
    } else {
        let front = steps.drop_last();
        serving_steps_are_those(front, id);
        serving_is_taking_part(steps.last(), id);
        let last = steps.len() - 1;
        assert(steps[last] == steps.last());
        assert forall|n: int| 0 <= n < last implies #[trigger] steps[n] == front[n] by {}
        let old_places = choose|places: Seq<int>|
            {
                &&& #[trigger] are_steps_of(places, front, id)
                &&& places.len() == serving_steps(front, id).len()
                &&& forall|k: int|
                    0 <= k < places.len() ==> serving_steps(front, id)[k]
                        == front[#[trigger] places[k]].step_id
            };
        let places = if takes_part(steps.last(), id) {
            old_places.push(last)
        } else {
            old_places
        };
        assert forall|k: int| 0 <= k < places.len() implies 0 <= (#[trigger] places[k])
            < steps.len() && takes_part(steps[places[k]], id) && serving_steps(steps, id)[k]
            == steps[places[k]].step_id by {
            if k < old_places.len() {
                assert(places[k] == old_places[k]);
                assert(steps[old_places[k]] == front[old_places[k]]);
            }
        }
        assert forall|n: int| 0 <= n < steps.len() && takes_part(#[trigger] steps[n], id) implies
            places.contains(n) by {
            if n < last {
                assert(takes_part(front[n], id));
                let k = choose|k: int| 0 <= k < old_places.len() && old_places[k] == n;
                assert(places[k] == n);
            } else {
                assert(places[old_places.len() as int] == n);
            }
        }
        assert(are_steps_of(places, steps, id));
    }
}

/// The steps of a request are those that it takes part in, each once and in the
/// order of the report.
pub proof fn request_lists_its_steps(
    r: RequestExecution,
    events: Seq<Event>,
    steps: Seq<CorrelatedStep>,
    id: Seq<char>,
)
    requires
        request_reports(r, events, steps, id),
    ensures
        exists|places: Seq<int>|
            {
                &&& #[trigger] are_steps_of(places, steps, id)
                &&& places.len() == r.step_ids@.len()
                &&& forall|k: int|
                    0 <= k < places.len() ==> r.step_ids@[k] == steps[#[trigger] places[k]].step_id
            },
{
    serving_steps_are_those(steps, id);
}

// Companions.

proof fn others_are_those(slices: Seq<RequestSlice>, id: Seq<char>, other: Seq<char>)
    ensures
        other_requests(slices, id).contains(other) <==> other != id && exists|i: int|
            0 <= i < slices.len() && (#[trigger] slices[i]).request_id@ == other,
    decreases slices.len(),
{
    if slices.len() > 0 {
        let front = slices.drop_last();
        others_are_those(front, id, other);
        let s = other_requests(front, id);
        let t = other_requests(slices, id);
        let last = slices.len() - 1;
        assert(slices[last] == slices.last());
        if t.contains(other) {
            let k = choose|k: int| 0 <= k < t.len() && t[k] == other;
            if k < s.len() {
                assert(s[k] == other);
                let i = choose|i: int|
                    0 <= i < front.len() && (#[trigger] front[i]).request_id@ == other;
                assert(slices[i] == front[i]);
            } else {
                assert(slices[last].request_id@ == other);
            }
        }
        if other != id && exists|i: int|
            0 <= i < slices.len() && (#[trigger] slices[i]).request_id@ == other {
            let i = choose|i: int|
                0 <= i < slices.len() && (#[trigger] slices[i]).request_id@ == other;
            if i < last {
                assert(front[i] == slices[i]);
                let k = choose|k: int| 0 <= k < s.len() && s[k] == other;
                assert(t[k] == other);
            } else {
                assert(t[s.len() as int] == other);
            }
        }
    }
}

proof fn companions_are_those(steps: Seq<CorrelatedStep>, id: Seq<char>, other: Seq<char>)
    ensures
        companions(steps, id).contains(other) <==> other != id && exists|n: int|
            0 <= n < steps.len() && takes_part(#[trigger] steps[n], id) && takes_part(
                steps[n],
                other,
            ),
    decreases steps.len(),
{
    if steps.len() > 0 {
        let front = steps.drop_last();
        companions_are_those(front, id, other);
        let slices = steps.last().request_slices@;
        others_are_those(slices, id, other);
        serving_is_taking_part(steps.last(), id);
        let s = companions(front, id);
        let o = other_requests(slices, id);
        let t = companions(steps, id);
        let last = steps.len() - 1;
        assert(steps[last] == steps.last());
        if t.contains(other) {
            let k = choose|k: int| 0 <= k < t.len() && t[k] == other;
            if k < s.len() {
                assert(s[k] == other);
                let n = choose|n: int|
                    0 <= n < front.len() && takes_part(#[trigger] front[n], id) && takes_part(
                        front[n],
                        other,
                    );
                assert(steps[n] == front[n]);
            } else {
                assert(o[k - s.len()] == other);
                assert(takes_part(steps[last], id) && takes_part(steps[last], other));
            }
        }
        if other != id && exists|n: int|
            0 <= n < steps.len() && takes_part(#[trigger] steps[n], id) && takes_part(
                steps[n],
                other,
            ) {
            let n = choose|n: int|
                0 <= n < steps.len() && takes_part(#[trigger] steps[n], id) && takes_part(
                    steps[n],
                    other,
                );
            if n < last {
                assert(front[n] == steps[n]);
                let k = choose|k: int| 0 <= k < s.len() && s[k] == other;
                assert(t[k] == other);
            } else {
                let k = choose|k: int| 0 <= k < o.len() && o[k] == other;
                assert(t[s.len() + k] == other);
            }
        }
    }
}

proof fn listed_are_the_values(values: Seq<Seq<char>>, x: Seq<char>)
    ensures
        distinct(values).contains(x) <==> values.contains(x),
        increasing(distinct(values)),
{
    listing_exists(values);
    assert(lists_once(values, distinct(values)));
    assert(distinct(values).to_set().contains(x) <==> values.to_set().contains(x));
}

/// A request shares its steps with exactly the other requests that take part in
/// one of them, each listed once, in the order of their names.
pub proof fn companions_share_a_step(
    r: RequestExecution,
    events: Seq<Event>,
    steps: Seq<CorrelatedStep>,
    id: Seq<char>,
    other: Seq<char>,
)
    requires
        request_reports(r, events, steps, id),
    ensures
        string_texts(r.shared_with_request_ids@).contains(other) <==> other != id && exists|n: int|
            0 <= n < steps.len() && takes_part(#[trigger] steps[n], id) && takes_part(
                steps[n],
                other,
            ),
        increasing(string_texts(r.shared_with_request_ids@)),
{
    companions_are_those(steps, id, other);
    listed_are_the_values(companions(steps, id), other);
}

// The requests.

/// Whether the event tells of the request.
pub open spec fn tells_of(e: Event, id: Seq<char>) -> bool {
    receives(e, id) || queues(e, id) || completes(e, id)
}

proof fn facts_name_the_request(events: Seq<Event>, id: Seq<char>)
    ensures
        fact_names(events).contains(id) <==> exists|i: int|
            0 <= i < events.len() && tells_of(#[trigger] events[i], id),
    decreases events.len(),
{
    if events.len() > 0 {
        let front = events.drop_last();
        facts_name_the_request(front, id);
        let s = fact_names(front);
        let o = fact_name(events.last());
        let t = fact_names(events);
        let last = events.len() - 1;
        assert(events[last] == events.last());
        if t.contains(id) {
            let k = choose|k: int| 0 <= k < t.len() && t[k] == id;
            if k < s.len() {
                assert(s[k] == id);
                let i = choose|i: int| 0 <= i < front.len() && tells_of(#[trigger] front[i], id);
                assert(events[i] == front[i]);
            } else {
                assert(o[k - s.len()] == id);
                assert(tells_of(events[last], id));
            }
        }
        if exists|i: int| 0 <= i < events.len() && tells_of(#[trigger] events[i], id) {
            let i = choose|i: int| 0 <= i < events.len() && tells_of(#[trigger] events[i], id);
            if i < last {
                assert(front[i] == events[i]);
                let k = choose|k: int| 0 <= k < s.len() && s[k] == id;
                assert(t[k] == id);
            } else {
                assert(o[0] == id);
                assert(t[s.len() as int] == id);
            }
        }
    }
}

proof fn steps_name_the_request(steps: Seq<CorrelatedStep>, id: Seq<char>)
    ensures
        served_names(steps).contains(id) <==> exists|n: int|
            0 <= n < steps.len() && takes_part(#[trigger] steps[n], id),
    decreases steps.len(),
{
    if steps.len() > 0 {
        let front = steps.drop_last();
        steps_name_the_request(front, id);
        serving_is_taking_part(steps.last(), id);
        let s = served_names(front);
        let o = slice_requests(steps.last().request_slices@);
        let t = served_names(steps);
        let last = steps.len() - 1;
        assert(steps[last] == steps.last());
        if t.contains(id) {
            let k = choose|k: int| 0 <= k < t.len() && t[k] == id;
            if k < s.len() {
                assert(s[k] == id);
                let n = choose|n: int| 0 <= n < front.len() && takes_part(#[trigger] front[n], id);
                assert(steps[n] == front[n]);
            } else {
                assert(o[k - s.len()] == id);
                assert(takes_part(steps[last], id));
            }
        }
        if exists|n: int| 0 <= n < steps.len() && takes_part(#[trigger] steps[n], id) {
            let n = choose|n: int| 0 <= n < steps.len() && takes_part(#[trigger] steps[n], id);
            if n < last {
                assert(front[n] == steps[n]);
                let k = choose|k: int| 0 <= k < s.len() && s[k] == id;
                assert(t[k] == id);
            } else {
                let k = choose|k: int| 0 <= k < o.len() && o[k] == id;
                assert(t[s.len() + k] == id);
            }
        }
    }
}

/// Whether the report has an entry for the request.
pub open spec fn reports_request(requests: Seq<RequestExecution>, id: Seq<char>) -> bool {
    exists|k: int| 0 <= k < requests.len() && (#[trigger] requests[k]).request_id@ == id
}

/// A report has an entry for exactly the requests that an event tells of or that
/// take part in a step, one each, in the order of their names.
pub proof fn every_request_is_reported_once(
    requests: Seq<RequestExecution>,
    events: Seq<Event>,
    steps: Seq<CorrelatedStep>,
    id: Seq<char>,
)
    requires
        requests_report(requests, events, steps),
    ensures
        reports_request(requests, id) <==> (exists|i: int|
            0 <= i < events.len() && tells_of(#[trigger] events[i], id)) || (exists|n: int|
            0 <= n < steps.len() && takes_part(#[trigger] steps[n], id)),
        increasing(requests.map_values(|r: RequestExecution| r.request_id@)),
{
    let ids = request_ids(events, steps);
    let a = fact_names(events);
    let b = served_names(steps);
    facts_name_the_request(events, id);
    steps_name_the_request(steps, id);
    listed_are_the_values(a + b, id);
    assert((a + b).contains(id) <==> a.contains(id) || b.contains(id)) by {
        if a.contains(id) {
            let k = choose|k: int| 0 <= k < a.len() && a[k] == id;
            assert((a + b)[k] == id);
        }
        if b.contains(id) {
            let k = choose|k: int| 0 <= k < b.len() && b[k] == id;
            assert((a + b)[a.len() + k] == id);
        }
        if (a + b).contains(id) {
            let k = choose|k: int| 0 <= k < (a + b).len() && (a + b)[k] == id;
            if k < a.len() {
                assert(a[k] == id);
            } else {
                assert(b[k - a.len()] == id);
            }
        }
    }
    let names = requests.map_values(|r: RequestExecution| r.request_id@);
    assert forall|k: int| 0 <= k < names.len() implies #[trigger] names[k] == ids[k] by {
        assert(request_reports(requests[k], events, steps, ids[k]));
    }
    assert(names =~= ids);
    if reports_request(requests, id) {
        let k = choose|k: int|
            0 <= k < requests.len() && (#[trigger] requests[k]).request_id@ == id;
        assert(names[k] == id);
    }
    if ids.contains(id) {
        let k = choose|k: int| 0 <= k < ids.len() && ids[k] == id;
        assert(names[k] == id);
        assert(requests[k].request_id@ == id);
    }
}

} // verus!
