//! What the live view writes to its page: only what changed since it last
//! wrote.

use crate::digits::{append_decimal, decimal};
use crate::json::text_in;
use crate::text::text_is;
use crate::ui_state::{
    best_rows, best_rows_are_unique, rows_view, tally_of, AppState, KernelStat, RenderCache,
    MAX_ROWS,
};
use vstd::prelude::*;
use vstd::string::*;

verus! {

pub open spec fn status_of(connected: bool) -> Seq<char> {
    if connected {
        "connected"@
    } else {
        "connecting…"@
    }
}

/// How the state of a connection reads.
pub fn status_text(connected: bool) -> (r: &'static str)
    ensures
        r@ == status_of(connected),
{
    if connected {
        "connected"
    } else {
        "connecting…"
    }
}

/// Notes that the state of a connection is shown, and tells whether it was
/// not yet.
pub fn renew_status(shown: &mut Option<bool>, connected: bool) -> (changed: bool)
    ensures
        *final(shown) == Some(connected),
        changed == (*old(shown) != Some(connected)),
{
    let changed: bool = match *shown {
        Some(shown) => shown != connected,
        None => true,
    };
    *shown = Some(connected);
    changed
}

/// Notes that a text is shown, and tells whether it was not yet.
pub fn renew_text(shown: &mut Option<String>, text: &str) -> (changed: bool)
    ensures
        text_in(*final(shown)) == Some(text@),
        changed == (text_in(*old(shown)) != Some(text@)),
        !changed ==> *final(shown) == *old(shown),
{
    let changed: bool = match &*shown {
        Some(shown) => !text_is(shown.as_str(), text),
        None => true,
    };
    if changed {
        *shown = Some(text.to_owned());
    }
    changed
}

/// Notes that a share in percent is shown, and tells whether it was not yet.
pub fn renew_percent(shown: &mut Option<i32>, percent: i32) -> (changed: bool)
    ensures
        *final(shown) == Some(percent),
        changed == (*old(shown) != Some(percent)),
{
    let changed: bool = match *shown {
        Some(shown) => shown != percent,
        None => true,
    };
    *shown = Some(percent);
    changed
}

pub open spec fn executing_of(name: Option<Seq<char>>) -> Seq<char> {
    match name {
        Some(name) => name,
        None => "waiting for the first real launch…"@,
    }
}

pub open spec fn prompt_of(tokens: Option<u32>) -> Seq<char> {
    match tokens {
        Some(tokens) => decimal(tokens as nat) + " tokens"@,
        None => "— tokens"@,
    }
}

/// How the length of a prompt reads.
pub fn prompt_text(tokens: Option<u32>) -> (text: String)
    ensures
        text@ == prompt_of(tokens),
{
    match tokens {
        Some(tokens) => {
            let mut text = String::new();
            append_decimal(&mut text, tokens as u64);
            assert(text@ =~= decimal(tokens as nat));
            text.append(" tokens");
            text
        },
        None => "— tokens".to_owned(),
    }
}

pub open spec fn overflow_of(left_out: usize) -> Seq<char> {
    if left_out > 0 {
        "+"@ + decimal(left_out as nat) + " more distinct kernels"@
    } else {
        Seq::empty()
    }
}

/// How the number of kernels that are not listed reads.
pub fn overflow_text(left_out: usize) -> (text: String)
    ensures
        text@ == overflow_of(left_out),
{
    if left_out > 0 {
        let mut text = "+".to_owned();
        append_decimal(&mut text, left_out as u64);
        text.append(" more distinct kernels");
        text
    } else {
        String::new()
    }
}

// The list of kernels.

/// A row of the list: a kernel's name, and its launches in the two phases.
pub type RowModel = (Seq<char>, u32, u32);

pub open spec fn rows_model(rows: Seq<(String, u32, u32)>) -> Seq<RowModel> {
    rows.map_values(|row: (String, u32, u32)| (row.0@, row.1, row.2))
}

/// The rows of the best-ranked kernels.
pub open spec fn rows_of(rows: Seq<(Seq<char>, KernelStat)>) -> Seq<RowModel> {
    rows.map_values(
        |row: (Seq<char>, KernelStat)| (row.0, row.1.thinking, row.1.response),
    )
}

/// The launches of the row that has most of them, and at least one.
pub open spec fn longest(rows: Seq<RowModel>) -> u32
    decreases rows.len(),
{
    if rows.len() == 0 {
        1
    } else {
        let before = longest(rows.drop_last());
        let total = rows.last().1.wrapping_add(rows.last().2);
        if total > before {
            total
        } else {
            before
        }
    }
}

/// The launches of the row that has most of them, and at least one.
pub fn longest_row(rows: &Vec<(String, u32, u32)>) -> (most: u32)
    ensures
        most == longest(rows_model(rows@)),
        most >= 1,
        forall|i: int|
            0 <= i < rows@.len() ==> (#[trigger] rows@[i]).1.wrapping_add(rows@[i].2) <= most,
{
    let ghost model = rows_model(rows@);
    let mut most: u32 = 1;
    let mut i: usize = 0;
    assert(model.take(0) =~= Seq::<RowModel>::empty());
    while i < rows.len()
        invariant
            i <= rows.len(),
            model == rows_model(rows@),
            most == longest(model.take(i as int)),
            most >= 1,
            forall|j: int|
                0 <= j < i ==> (#[trigger] rows@[j]).1.wrapping_add(rows@[j].2) <= most,
        decreases rows.len() - i,
    {
        let row = &rows[i];
        let total: u32 = row.1.wrapping_add(row.2);
        assert(model.take(i + 1).drop_last() =~= model.take(i as int));
        assert(model.take(i + 1).last() == model[i as int]);
        if total > most {
            most = total;
        }
        i = i + 1;
    }
    assert(model.take(i as int) =~= model);
    most
}

fn same_rows(a: &Vec<(String, u32, u32)>, b: &Vec<(String, u32, u32)>) -> (r: bool)
    ensures
        r == (rows_model(a@) == rows_model(b@)),
{
    if a.len() != b.len() {
        assert(rows_model(a@).len() != rows_model(b@).len());
        return false;
    }
    let mut i: usize = 0;
    while i < a.len()
        invariant
            i <= a.len(),
            a.len() == b.len(),
            forall|j: int| 0 <= j < i ==> rows_model(a@)[j] == rows_model(b@)[j],
        decreases a.len() - i,
    {
        let one = &a[i];
        let other = &b[i];
        if !text_is(one.0.as_str(), other.0.as_str()) || one.1 != other.1 || one.2 != other.2 {
            assert(rows_model(a@)[i as int] != rows_model(b@)[i as int]);
            return false;
        }
        i = i + 1;
    }
    assert(rows_model(a@) =~= rows_model(b@));
    true
}

fn copy_rows(rows: &Vec<(String, u32, u32)>) -> (copy: Vec<(String, u32, u32)>)
    ensures
        rows_model(copy@) == rows_model(rows@),
{
    let mut copy: Vec<(String, u32, u32)> = Vec::new();
    let mut i: usize = 0;
    while i < rows.len()
        invariant
            i <= rows.len(),
            copy.len() == i,
            forall|j: int| 0 <= j < i ==> rows_model(copy@)[j] == rows_model(rows@)[j],
        decreases rows.len() - i,
    {
        let ghost before = copy@;
        let row = &rows[i];
        copy.push((row.0.clone(), row.1, row.2));
        proof {
            assert forall|j: int| 0 <= j <= i implies rows_model(copy@)[j] == rows_model(
                rows@,
            )[j] by {
                if j < i {
                    assert(copy@[j] == before[j]);
                    assert(rows_model(before)[j] == rows_model(rows@)[j]);
                }
            }
        }
        i = i + 1;
    }
    assert(rows_model(copy@) =~= rows_model(rows@));
    copy
}

/// What is written to the page at a refresh: each part only where it changed.
pub struct Refresh {
    pub semantic_status: Option<bool>,
    pub cupti_status: Option<bool>,
    pub now_executing: Option<String>,
    pub prompt_tokens: Option<String>,
    pub rows: Option<(Vec<(String, u32, u32)>, usize)>,
}

/// Whether rows are the ones to list: the best-ranked kernels, as many as
/// there is room for, and how many were left out.
pub open spec fn are_listed(
    stats: Seq<(String, KernelStat)>,
    rows: Seq<RowModel>,
    left_out: usize,
) -> bool {
    exists|best: Seq<(String, KernelStat)>| #[trigger]
        best_rows(tally_of(stats), rows_view(best)) && rows == rows_of(rows_view(best))
            && best.len() == (if stats.len() <= MAX_ROWS {
            stats.len()
        } else {
            MAX_ROWS as nat
        }) && left_out == stats.len() - best.len()
}

pub open spec fn changed_status(shown: Option<bool>, connected: bool) -> Option<bool> {
    if shown == Some(connected) {
        None
    } else {
        Some(connected)
    }
}

/// The list of kernels, where it is not the one that is shown.
fn renew_rows(state: &mut AppState) -> (r: Option<(Vec<(String, u32, u32)>, usize)>)
    requires
        old(state).wf(),
    ensures
        final(state).wf(),
        final(state).tally() == old(state).tally(),
        *final(state) == (AppState { render_cache: final(state).render_cache, ..*old(state) }),
        final(state).render_cache == (RenderCache {
            rows: final(state).render_cache.rows,
            overflow_count: final(state).render_cache.overflow_count,
            ..old(state).render_cache
        }),
        are_listed(
            old(state).kernel_stats@,
            rows_model(final(state).render_cache.rows@),
            final(state).render_cache.overflow_count,
        ),
        match r {
            Some(list) => rows_model(list.0@) == rows_model(final(state).render_cache.rows@)
                && list.1 == final(state).render_cache.overflow_count && (rows_model(list.0@)
                != rows_model(old(state).render_cache.rows@) || list.1 != old(
                state,
            ).render_cache.overflow_count),
            None => final(state).render_cache == old(state).render_cache,
        },
{
    let (best, left_out) = state.top_rows(MAX_ROWS);
    let mut rows: Vec<(String, u32, u32)> = Vec::new();
    let mut i: usize = 0;
    let ghost wanted = rows_of(rows_view(best@));
    while i < best.len()
        invariant
            i <= best.len(),
            rows.len() == i,
            wanted == rows_of(rows_view(best@)),
            forall|j: int| 0 <= j < i ==> rows_model(rows@)[j] == wanted[j],
        decreases best.len() - i,
    {
        let ghost before = rows@;
        let entry = &best[i];
        rows.push((entry.0.clone(), entry.1.thinking, entry.1.response));
        proof {
            assert forall|j: int| 0 <= j <= i implies rows_model(rows@)[j] == wanted[j] by {
                if j < i {
                    assert(rows@[j] == before[j]);
                    assert(rows_model(before)[j] == wanted[j]);
                }
            }
        }
        i = i + 1;
    }
    assert(rows_model(rows@) =~= wanted);
    assert(are_listed(state.kernel_stats@, wanted, left_out)) by {
        assert(best_rows(state.tally(), rows_view(best@)));
    }
    if same_rows(&state.render_cache.rows, &rows) && state.render_cache.overflow_count == left_out {
        return None;
    }
    state.render_cache.rows = copy_rows(&rows);
    state.render_cache.overflow_count = left_out;
    Some((rows, left_out))
}

/// Whether there is nothing to write.
pub open spec fn writes_nothing(r: Refresh) -> bool {
    &&& r.semantic_status is None
    &&& r.cupti_status is None
    &&& r.now_executing is None
    &&& r.prompt_tokens is None
    &&& r.rows is None
}

/// Whether one state follows another by a refresh, with what is to be written.
/// Where that is nothing, the state stays as it was.
pub open spec fn refreshed(before: AppState, after: AppState, r: Refresh) -> bool {
    &&& after == (AppState { render_cache: after.render_cache, ..before })
    &&& after.render_cache.busy_percent == before.render_cache.busy_percent
    &&& after.render_cache.busy_caption == before.render_cache.busy_caption
    &&& after.render_cache.semantic_connected == Some(before.semantic_connected)
    &&& r.semantic_status == changed_status(
        before.render_cache.semantic_connected,
        before.semantic_connected,
    )
    &&& after.render_cache.cupti_connected == Some(before.cupti_connected)
    &&& r.cupti_status == changed_status(
        before.render_cache.cupti_connected,
        before.cupti_connected,
    )
    &&& text_in(after.render_cache.now_executing) == Some(
        executing_of(text_in(before.now_executing)),
    )
    &&& text_in(r.now_executing) == if text_in(before.render_cache.now_executing) == Some(
        executing_of(text_in(before.now_executing)),
    ) {
        None
    } else {
        Some(executing_of(text_in(before.now_executing)))
    }
    &&& after.render_cache.prompt_tokens == before.prompt_tokens
    &&& text_in(r.prompt_tokens) == if before.render_cache.prompt_tokens == before.prompt_tokens {
        None
    } else {
        Some(prompt_of(before.prompt_tokens))
    }
    &&& are_listed(
        before.kernel_stats@,
        rows_model(after.render_cache.rows@),
        after.render_cache.overflow_count,
    )
    &&& match r.rows {
        Some(list) => rows_model(list.0@) == rows_model(after.render_cache.rows@)
            && list.1 == after.render_cache.overflow_count && (rows_model(list.0@)
            != rows_model(before.render_cache.rows@) || list.1 != before.render_cache.overflow_count),
        None => rows_model(after.render_cache.rows@) == rows_model(
            before.render_cache.rows@,
        ) && after.render_cache.overflow_count == before.render_cache.overflow_count,
    }
    &&& writes_nothing(r) ==> after == before
}

/// What is to be written to the page now, but for the share of busy time. It
/// counts as shown from here on.
pub fn refresh(state: &mut AppState) -> (r: Refresh)
    requires
        old(state).wf(),
    ensures
        final(state).wf(),
        refreshed(*old(state), *final(state), r),
{
    let semantic: bool = state.semantic_connected;
    let semantic_status = if renew_status(&mut state.render_cache.semantic_connected, semantic) {
        Some(semantic)
    } else {
        None
    };
    let cupti: bool = state.cupti_connected;
    let cupti_status = if renew_status(&mut state.render_cache.cupti_connected, cupti) {
        Some(cupti)
    } else {
        None
    };
    let executing: String = match &state.now_executing {
        Some(name) => name.clone(),
        None => "waiting for the first real launch…".to_owned(),
    };
    let now_executing = if renew_text(
        &mut state.render_cache.now_executing,
        executing.as_str(),
    ) {
        Some(executing)
    } else {
        None
    };
    let known: bool = match (state.render_cache.prompt_tokens, state.prompt_tokens) {
        (Some(shown), Some(tokens)) => shown == tokens,
        (None, None) => true,
        _ => false,
    };
    let prompt_tokens = if known {
        None
    } else {
        state.render_cache.prompt_tokens = state.prompt_tokens;
        Some(prompt_text(state.prompt_tokens))
    };
    let rows = renew_rows(state);
    Refresh { semantic_status, cupti_status, now_executing, prompt_tokens, rows }
}

/// Whether nothing that a refresh shows changed from one state to the other:
/// only launches may have been forgotten, and the share of busy time shown.
pub open spec fn shows_the_same(shown: AppState, state: AppState) -> bool {
    state == (AppState {
        recent_launches: state.recent_launches,
        render_cache: RenderCache {
            busy_percent: state.render_cache.busy_percent,
            busy_caption: state.render_cache.busy_caption,
            ..shown.render_cache
        },
        ..shown
    })
}

/// A second refresh of a state where nothing to be shown changed in between
/// writes nothing, and leaves the state as it is.
pub proof fn second_refresh_writes_nothing(
    before: AppState,
    shown: AppState,
    first: Refresh,
    state: AppState,
    after: AppState,
    second: Refresh,
)
    requires
        refreshed(before, shown, first),
        shows_the_same(shown, state),
        refreshed(state, after, second),
    ensures
        writes_nothing(second),
        after == state,
{
    listing_is_unique(
        state.kernel_stats@,
        rows_model(state.render_cache.rows@),
        state.render_cache.overflow_count,
        rows_model(after.render_cache.rows@),
        after.render_cache.overflow_count,
    );
}

proof fn listing_is_unique(
    stats: Seq<(String, KernelStat)>,
    a: Seq<RowModel>,
    a_left_out: usize,
    b: Seq<RowModel>,
    b_left_out: usize,
)
    requires
        are_listed(stats, a, a_left_out),
        are_listed(stats, b, b_left_out),
    ensures
        a == b,
        a_left_out == b_left_out,
{
    let room = if stats.len() <= MAX_ROWS {
        stats.len()
    } else {
        MAX_ROWS as nat
    };
    let x = choose|best: Seq<(String, KernelStat)>| #[trigger]
        best_rows(tally_of(stats), rows_view(best)) && a == rows_of(rows_view(best)) && best.len()
            == room && a_left_out == stats.len() - best.len();
    let y = choose|best: Seq<(String, KernelStat)>| #[trigger]
        best_rows(tally_of(stats), rows_view(best)) && b == rows_of(rows_view(best)) && best.len()
            == room && b_left_out == stats.len() - best.len();
    best_rows_are_unique(tally_of(stats), rows_view(x), rows_view(y));
}

// The share of busy time.

/// What is to be written of the share of busy time: the width of its bar in
/// percent, and its caption.
pub struct BusyRefresh {
    pub width: Option<i32>,
    pub caption: Option<String>,
}

/// Whether one state follows another by showing a share of busy time, with what
/// is to be written. Without a launch the bar is empty, and the caption says so.
pub open spec fn busy_refreshed(
    before: AppState,
    after: AppState,
    launches: usize,
    percent: i32,
    caption: Seq<char>,
    r: BusyRefresh,
) -> bool {
    let shown = before.render_cache;
    let waiting = launches == 0;
    let level = if waiting {
        -1i32
    } else {
        percent
    };
    &&& after == (AppState {
        render_cache: RenderCache {
            busy_percent: Some(level),
            busy_caption: after.render_cache.busy_caption,
            ..before.render_cache
        },
        ..before
    })
    &&& r.width == if shown.busy_percent == Some(level) {
        None
    } else if waiting {
        Some(0i32)
    } else {
        Some(percent)
    }
    &&& text_in(r.caption) == if waiting {
        if shown.busy_percent == Some(level) {
            None
        } else {
            Some(executing_of(None))
        }
    } else if text_in(shown.busy_caption) == Some(caption) {
        None
    } else {
        Some(caption)
    }
    &&& if waiting || text_in(shown.busy_caption) == Some(caption) {
        after.render_cache.busy_caption == shown.busy_caption
    } else {
        text_in(after.render_cache.busy_caption) == Some(caption)
    }
}

/// What is to be written of the share of busy time now. It counts as shown from
/// here on.
pub fn refresh_busy(state: &mut AppState, launches: usize, percent: i32, caption: &str) -> (r:
    BusyRefresh)
    requires
        old(state).wf(),
    ensures
        final(state).wf(),
        busy_refreshed(*old(state), *final(state), launches, percent, caption@, r),
{
    if launches == 0 {
        return if renew_percent(&mut state.render_cache.busy_percent, -1) {
            BusyRefresh {
                width: Some(0),
                caption: Some("waiting for the first real launch…".to_owned()),
            }
        } else {
            BusyRefresh { width: None, caption: None }
        };
    }
    let width = if renew_percent(&mut state.render_cache.busy_percent, percent) {
        Some(percent)
    } else {
        None
    };
    let caption = if renew_text(&mut state.render_cache.busy_caption, caption) {
        Some(caption.to_owned())
    } else {
        None
    };
    BusyRefresh { width, caption }
}

} // verus!
