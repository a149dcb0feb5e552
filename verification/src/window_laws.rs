//! What holds of the rolling window over all that a view was told.

use crate::intervals::union_length;
use crate::ui_state::{
    clipped, is_new, launch_recorded, query_reset, recent, stretch_ints, window_read, AppState,
    ROLLING_WINDOW_NS,
};
use vstd::prelude::*;

verus! {

/// A use of a view's state, as far as the rolling window goes.
pub enum StateUse {
    Launch(Seq<char>, i64, i64),
    Reset,
    Look((i64, i64, usize)),
    Other,
}

/// Whether the use leads from one state to the other.
pub open spec fn leads(before: AppState, after: AppState, action: StateUse) -> bool {
    match action {
        StateUse::Launch(name, start_ns, end_ns) => launch_recorded(
            before,
            after,
            name,
            start_ns,
            end_ns,
        ),
        StateUse::Reset => query_reset(before, after),
        StateUse::Look(seen) => window_read(before, after, seen),
        StateUse::Other => after.recent_launches == before.recent_launches && after.latest_end_ns
            == before.latest_end_ns && after.first_start_ns == before.first_start_ns,
    }
}

/// Whether the states are those of a new view through its uses, with launches
/// that start at zero or later.
pub open spec fn is_course(states: Seq<AppState>, uses: Seq<StateUse>) -> bool {
    &&& states.len() == uses.len() + 1
    &&& is_new(states[0])
    &&& forall|i: int|
        0 <= i < uses.len() ==> leads(states[i], states[i + 1], #[trigger] uses[i]) && (
        uses[i] matches StateUse::Launch(_, start_ns, _) ==> start_ns >= 0)
}

/// The launches with a length that the uses recorded.
pub open spec fn recorded(uses: Seq<StateUse>) -> Seq<(i64, i64)>
    decreases uses.len(),
{
    if uses.len() == 0 {
        Seq::empty()
    } else {
        let before = recorded(uses.drop_last());
        match uses.last() {
            StateUse::Launch(_, start_ns, end_ns) if end_ns > start_ns => before.push(
                (start_ns, end_ns),
            ),
            _ => before,
        }
    }
}

/// The latest end of the launches, or zero.
pub open spec fn latest_end(launches: Seq<(i64, i64)>) -> i64
    decreases launches.len(),
{
    if launches.len() == 0 {
        0
    } else {
        let before = latest_end(launches.drop_last());
        if launches.last().1 > before {
            launches.last().1
        } else {
            before
        }
    }
}

/// Where the rolling window of the launches begins.
pub open spec fn window_start(launches: Seq<(i64, i64)>) -> i64 {
    let rolling = latest_end(launches) - ROLLING_WINDOW_NS;
    if rolling > launches[0].0 {
        rolling as i64
    } else {
        launches[0].0
    }
}

/// What there is to see in the rolling window of the launches.
pub open spec fn window_of(launches: Seq<(i64, i64)>) -> (int, int, nat) {
    if launches.len() == 0 {
        (0, 0, 0)
    } else {
        let start = window_start(launches);
        let inside = recent(launches, start);
        (
            union_length(stretch_ints(clipped(inside, start))) as int,
            latest_end(launches) - start,
            inside.len(),
        )
    }
}

/// Whether the state still knows what the window needs of the launches.
spec fn tracks(state: AppState, launches: Seq<(i64, i64)>) -> bool {
    &&& state.latest_end_ns == latest_end(launches)
    &&& state.first_start_ns == if launches.len() == 0 {
        None
    } else {
        Some(launches[0].0)
    }
    &&& forall|i: int| 0 <= i < launches.len() ==> 0 <= (#[trigger] launches[i]).0 < launches[i].1
    &&& forall|c: i64|
        c >= state.cutoff() ==> #[trigger] recent(state.recent_launches@, c) == recent(launches, c)
}

proof fn recent_push(launches: Seq<(i64, i64)>, x: (i64, i64), c: i64)
    ensures
        recent(launches.push(x), c) == if x.1 >= c {
            recent(launches, c).push(x)
        } else {
            recent(launches, c)
        },
{
    reveal(Seq::filter);
    assert(launches.push(x).drop_last() =~= launches);
}

proof fn recent_of_recent(launches: Seq<(i64, i64)>, c: i64, d: i64)
    requires
        c <= d,
    ensures
        recent(recent(launches, c), d) == recent(launches, d),
    decreases launches.len(),
{
    reveal(Seq::filter);
    if launches.len() > 0 {
        let front = launches.drop_last();
        let x = launches.last();
        recent_of_recent(front, c, d);
        assert(launches =~= front.push(x));
        recent_push(front, x, c);
        recent_push(front, x, d);
        recent_push(recent(front, c), x, d);
    }
}

proof fn latest_end_bounds(launches: Seq<(i64, i64)>, i: int)
    requires
        0 <= i < launches.len(),
    ensures
        launches[i].1 <= latest_end(launches),
    decreases launches.len(),
{
    if i < launches.len() - 1 {
        latest_end_bounds(launches.drop_last(), i);
    }
}

proof fn course_is_tracked(states: Seq<AppState>, uses: Seq<StateUse>)
    requires
        is_course(states, uses),
    ensures
        tracks(states.last(), recorded(uses)),
    decreases uses.len(),
{
    if uses.len() == 0 {
        assert(states.last() == states[0]);
        assert(states[0].recent_launches@ =~= Seq::<(i64, i64)>::empty());
    } else {
        let front = uses.drop_last();
        let earlier = states.drop_last();
        assert forall|i: int| 0 <= i < front.len() implies leads(
            earlier[i],
            earlier[i + 1],
            #[trigger] front[i],
        ) && (front[i] matches StateUse::Launch(_, start_ns, _) ==> start_ns >= 0) by {
            assert(front[i] == uses[i]);
        }
        course_is_tracked(earlier, front);
        let before = earlier.last();
        let after = states.last();
        let known = recorded(front);
        let now = recorded(uses);
        let n = uses.len() - 1;
        assert(leads(states[n], states[n + 1], uses[n]));
        assert(states[n] == before && states[n + 1] == after);
        match uses.last() {
            StateUse::Launch(_, start_ns, end_ns) => {
                if end_ns > start_ns {
                    let x = (start_ns, end_ns);
                    assert(now == known.push(x));
                    assert(now.drop_last() =~= known);
                    assert(after.cutoff() >= before.cutoff());
                    assert forall|c: i64| c >= after.cutoff() implies #[trigger] recent(
                        after.recent_launches@,
                        c,
                    ) == recent(now, c) by {
                        recent_push(known, x, c);
                        recent_push(before.recent_launches@, x, c);
                        assert(recent(before.recent_launches@, c) == recent(known, c));
                    }
                }
            },
            StateUse::Look(_) => {
                if before.latest_end_ns != 0 {
                    assert forall|c: i64| c >= after.cutoff() implies #[trigger] recent(
                        after.recent_launches@,
                        c,
                    ) == recent(now, c) by {
                        recent_of_recent(before.recent_launches@, before.cutoff(), c);
                        assert(recent(before.recent_launches@, c) == recent(known, c));
                    }
                }
            },
            _ => {},
        }
    }
}

/// What a look at the rolling window shows depends only on the launches that
/// were recorded so far, whatever was looked at, reset or forgotten in between.
/// The busy time fits into the window, and the window into its bound. A second
/// look shows the same.
pub proof fn window_is_of_all_launches(
    states: Seq<AppState>,
    uses: Seq<StateUse>,
    after: AppState,
    seen: (i64, i64, usize),
    again: AppState,
    seen_again: (i64, i64, usize),
)
    requires
        is_course(states, uses),
        window_read(states.last(), after, seen),
        window_read(after, again, seen_again),
    ensures
        (seen.0 as int, seen.1 as int, seen.2 as nat) == window_of(recorded(uses)),
        0 <= seen.0 <= seen.1 <= ROLLING_WINDOW_NS,
        seen_again == seen,
        again.recent_launches@ == after.recent_launches@,
{
    let state = states.last();
    let launches = recorded(uses);
    course_is_tracked(states, uses);
    if launches.len() > 0 {
        latest_end_bounds(launches, 0);
        assert(state.latest_end_ns != 0);
        assert(state.cutoff() == window_start(launches));
        let c = state.cutoff();
        assert(recent(state.recent_launches@, c) == recent(launches, c));
        recent_of_recent(state.recent_launches@, c, c);
        assert(after.cutoff() == c);
    }
}

/// Two looks at a window see the same, where nothing that it depends on changed
/// in between. The second forgets no launch.
pub proof fn second_look_sees_the_same(
    before: AppState,
    after: AppState,
    seen: (i64, i64, usize),
    state: AppState,
    again: AppState,
    seen_again: (i64, i64, usize),
)
    requires
        window_read(before, after, seen),
        leads(after, state, StateUse::Other),
        window_read(state, again, seen_again),
    ensures
        seen_again == seen,
        again.recent_launches@ == after.recent_launches@,
{
    if before.latest_end_ns != 0 {
        let c = before.cutoff();
        recent_of_recent(before.recent_launches@, c, c);
    }
}

} // verus!
