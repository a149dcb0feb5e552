//! What holds of one tick of the live page after another.

use crate::page::{
    busy_refreshed, refreshed, second_refresh_writes_nothing, writes_nothing, BusyRefresh, Refresh,
};
use crate::ui_state::{recent, window_read, AppState};
use crate::window_laws::second_look_sees_the_same;
use vstd::prelude::*;

verus! {

/// A tick: what it found to write, and the states on the way. The share of busy
/// time is shown by the percentage and the caption that the window came to.
pub struct Tick {
    pub before: AppState,
    pub refresh: Refresh,
    pub shown: AppState,
    pub seen: (i64, i64, usize),
    pub read: AppState,
    pub percent: i32,
    pub caption: Seq<char>,
    pub busy: BusyRefresh,
    pub after: AppState,
}

/// Whether the page is refreshed, the window is read and its share is shown, in
/// turn.
pub open spec fn is_tick(t: Tick) -> bool {
    &&& refreshed(t.before, t.shown, t.refresh)
    &&& window_read(t.shown, t.read, t.seen)
    &&& busy_refreshed(t.read, t.after, t.seen.2, t.percent, t.caption, t.busy)
}

/// A tick changes what counts as shown and forgets launches that ended before
/// the window, and nothing else.
pub proof fn tick_only_shows_and_forgets(t: Tick)
    requires
        is_tick(t),
    ensures
        t.after == (AppState {
            recent_launches: t.after.recent_launches,
            render_cache: t.after.render_cache,
            ..t.before
        }),
        t.after.recent_launches@ == if t.before.latest_end_ns == 0 {
            t.before.recent_launches@
        } else {
            recent(t.before.recent_launches@, t.before.cutoff())
        },
{
}

/// Where nothing changed since a tick, the next one sees the same window, and,
/// with the same share shown of it, writes nothing and leaves the state as it
/// is.
pub proof fn second_tick_writes_nothing(first: Tick, second: Tick)
    requires
        is_tick(first),
        is_tick(second),
        second.before == first.after,
        second.seen == first.seen ==> second.percent == first.percent && second.caption
            == first.caption,
    ensures
        second.seen == first.seen,
        writes_nothing(second.refresh),
        second.busy.width is None,
        second.busy.caption is None,
        second.after == (AppState {
            recent_launches: second.after.recent_launches,
            ..first.after
        }),
        second.after.recent_launches@ == first.after.recent_launches@,
{
    second_refresh_writes_nothing(
        first.before,
        first.shown,
        first.refresh,
        second.before,
        second.shown,
        second.refresh,
    );
    second_look_sees_the_same(
        first.shown,
        first.read,
        first.seen,
        second.shown,
        second.read,
        second.seen,
    );
}

} // verus!
