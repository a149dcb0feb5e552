//! State of the live view: per-kernel tallies of one query, the rolling
//! busy time of the device, and what was last shown.

use crate::intervals::{covered, pass_start, pass_state, pass_step, union_length};
use crate::order::{arranged_copy, sorted, Keyed};
use crate::text::{
    bytes_before, bytes_before_is_total, bytes_before_is_transitive, is_before,
};
use vstd::prelude::*;
use vstd::utf8::{encode_utf8, encode_utf8_decode_utf8};

verus! {

/// The rolling window on the device clock.
pub const ROLLING_WINDOW_NS: i64 = 3_000_000_000;

/// How many distinct kernel names are listed before the rest is summed up.
pub const MAX_ROWS: usize = 15;

/// How often the view is refreshed.
pub const RENDER_INTERVAL_MS: i32 = 150;

#[derive(Clone, Copy, Debug, PartialEq, Eq, Structural)]
pub enum Phase {
    Response,
    Thinking,
}

/// How often a kernel was launched in each phase. The counts wrap.
#[derive(Clone, Copy, Debug, Default, PartialEq, Eq, Structural)]
pub struct KernelStat {
    pub thinking: u32,
    pub response: u32,
}

impl KernelStat {
    pub open spec fn spec_total(self) -> u32 {
        self.thinking.wrapping_add(self.response)
    }

    pub fn total(&self) -> (r: u32)
        ensures
            r == self.spec_total(),
    {
        self.thinking.wrapping_add(self.response)
    }

    pub open spec fn counted(self, phase: Phase) -> KernelStat {
        match phase {
            Phase::Thinking => KernelStat { thinking: self.thinking.wrapping_add(1), ..self },
            Phase::Response => KernelStat { response: self.response.wrapping_add(1), ..self },
        }
    }
}

/// What was last written to the page, so that only changes are written.
pub struct RenderCache {
    pub now_executing: Option<String>,
    pub rows: Vec<(String, u32, u32)>,
    pub overflow_count: usize,
    pub busy_percent: Option<i32>,
    pub busy_caption: Option<String>,
    pub prompt_tokens: Option<u32>,
    pub semantic_connected: Option<bool>,
    pub cupti_connected: Option<bool>,
}

pub struct AppState {
    pub kernel_stats: Vec<(String, KernelStat)>,
    pub phase: Phase,
    pub now_executing: Option<String>,
    pub recent_launches: Vec<(i64, i64)>,
    pub latest_end_ns: i64,
    pub first_start_ns: Option<i64>,
    pub prompt_tokens: Option<u32>,
    pub semantic_connected: bool,
    pub cupti_connected: bool,
    pub reply_text: String,
    pub chat_busy: bool,
    pub render_cache: RenderCache,
}

/// The position of the name in the list.
pub open spec fn listed_at(stats: Seq<(String, KernelStat)>, name: Seq<char>, i: int) -> bool {
    0 <= i < stats.len() && (#[trigger] stats[i]).0@ == name
}

/// The tally that a list stands for.
pub open spec fn tally_of(stats: Seq<(String, KernelStat)>) -> Map<Seq<char>, KernelStat> {
    Map::new(
        |name: Seq<char>| exists|i: int| listed_at(stats, name, i),
        |name: Seq<char>| stats[choose|i: int| listed_at(stats, name, i)].1,
    )
}

pub open spec fn names_distinct(stats: Seq<(String, KernelStat)>) -> bool {
    forall|i: int, j: int|
        0 <= i < j < stats.len() ==> (#[trigger] stats[i]).0@ != (#[trigger] stats[j]).0@
}

/// A stretch of device time.
#[derive(Clone, Copy, Debug, PartialEq, Eq, Structural)]
pub struct Stretch {
    pub start_ns: i64,
    pub end_ns: i64,
}

/// The stretches as pairs of mathematical integers.
pub open spec fn stretch_ints(s: Seq<Stretch>) -> Seq<(int, int)> {
    s.map_values(|x: Stretch| (x.start_ns as int, x.end_ns as int))
}

/// The launches that end at or after the cutoff.
pub open spec fn recent(launches: Seq<(i64, i64)>, cutoff: i64) -> Seq<(i64, i64)> {
    launches.filter(|x: (i64, i64)| x.1 >= cutoff)
}

/// The part of a launch from the cutoff on.
pub open spec fn clipped(launches: Seq<(i64, i64)>, cutoff: i64) -> Seq<Stretch> {
    launches.map_values(
        |x: (i64, i64)|
            Stretch {
                start_ns: if x.0 > cutoff {
                    x.0
                } else {
                    cutoff
                },
                end_ns: x.1,
            },
    )
}

impl Keyed for Stretch {
    open spec fn before(self, other: Self) -> bool {
        self.start_ns <= other.start_ns
    }

    proof fn before_is_total(a: Self, b: Self) {
    }

    proof fn before_is_transitive(a: Self, b: Self, c: Self) {
    }

    fn comes_before(&self, other: &Self) -> (r: bool) {
        self.start_ns <= other.start_ns
    }
}

/// The covered instants do not depend on the order of the intervals.
proof fn covered_is_orderless(a: Seq<Stretch>, b: Seq<Stretch>)
    requires
        a.to_multiset() == b.to_multiset(),
    ensures
        covered(stretch_ints(a)) == covered(stretch_ints(b)),
{
    assert forall|t: int| covered(stretch_ints(a)).contains(t) implies covered(
        stretch_ints(b),
    ).contains(t) by {
        covered_in_both(a, b, t);
    }
    assert forall|t: int| covered(stretch_ints(b)).contains(t) implies covered(
        stretch_ints(a),
    ).contains(t) by {
        covered_in_both(b, a, t);
    }
    assert(covered(stretch_ints(a)) =~= covered(stretch_ints(b)));
}

proof fn covered_in_both(a: Seq<Stretch>, b: Seq<Stretch>, t: int)
    requires
        a.to_multiset() == b.to_multiset(),
        covered(stretch_ints(a)).contains(t),
    ensures
        covered(stretch_ints(b)).contains(t),
{
    let x = stretch_ints(a);
    let i = choose|i: int| 0 <= i < x.len() && (#[trigger] x[i]).0 <= t < x[i].1;
    a.to_multiset_ensures();
    b.to_multiset_ensures();
    assert(a.contains(a[i]));
    assert(a.to_multiset().count(a[i]) > 0);
    assert(b.contains(a[i]));
    let j = choose|j: int| 0 <= j < b.len() && b[j] == a[i];
    assert(stretch_ints(b)[j] == x[i]);
}

/// The length of the union of the intervals.
fn merged_busy_ns(intervals: &Vec<Stretch>, low: i64, high: i64) -> (busy: i64)
    requires
        low <= high,
        high - low <= i64::MAX,
        forall|i: int|
            0 <= i < intervals.len() ==> low <= (#[trigger] intervals@[i]).start_ns && intervals@[i].start_ns
                <= intervals@[i].end_ns && intervals@[i].end_ns <= high,
    ensures
        busy == union_length(stretch_ints(intervals@)),
        0 <= busy <= high - low,
{
    if intervals.len() == 0 {
        assert(covered(stretch_ints(intervals@)) =~= Set::<int>::empty());
        return 0;
    }
    let by_start = arranged_copy(intervals.as_slice());
    let ghost s = stretch_ints(by_start@);
    proof {
        covered_is_orderless(intervals@, by_start@);
        intervals@.to_multiset_ensures();
        by_start@.to_multiset_ensures();
        assert forall|i: int| 0 <= i < by_start.len() implies low <= (
        #[trigger] by_start@[i]).start_ns && by_start@[i].start_ns <= by_start@[i].end_ns && by_start@[i].end_ns
            <= high by {
            assert(by_start@.contains(by_start@[i]));
            assert(by_start@.to_multiset().count(by_start@[i]) > 0);
            assert(intervals@.contains(by_start@[i]));
            let j = choose|j: int| 0 <= j < intervals@.len() && intervals@[j] == by_start@[i];
            assert(low <= intervals@[j].start_ns);
        }
    }
    let first = by_start[0];
    let mut busy: i64 = 0;
    let mut run_start: i64 = first.start_ns;
    let mut run_end: i64 = first.end_ns;
    let mut i: usize = 1;
    proof {
        pass_start(low as int, s[0]);
        assert(s.take(1) =~= seq![s[0]]);
    }
    while i < by_start.len()
        invariant
            1 <= i <= by_start.len(),
            s == stretch_ints(by_start@),
            sorted(by_start@),
            high - low <= i64::MAX,
            forall|j: int|
                0 <= j < by_start.len() ==> low <= (#[trigger] by_start@[j]).start_ns && by_start@[j].start_ns
                    <= by_start@[j].end_ns && by_start@[j].end_ns <= high,
            pass_state(s.take(i as int), low as int, busy as int, (run_start as int, run_end as int)),
            run_start <= by_start@[i - 1].start_ns,
            run_end <= high,
            low <= run_start,
        decreases by_start.len() - i,
    {
        let next = by_start[i];
        proof {
            assert(by_start@[i - 1].before(by_start@[i as int]));
            assert(low <= by_start@[i as int].start_ns);
            assert(s.take(i + 1) =~= s.take(i as int).push(s[i as int]));
            pass_step(
                s.take(i as int),
                low as int,
                busy as int,
                (run_start as int, run_end as int),
                s[i as int],
            );
        }
        if next.start_ns <= run_end {
            if next.end_ns > run_end {
                run_end = next.end_ns;
            }
        } else {
            busy = busy + (run_end - run_start);
            run_start = next.start_ns;
            run_end = next.end_ns;
        }
        i = i + 1;
    }
    assert(s.take(i as int) =~= s);
    busy + (run_end - run_start)
}

/// A kernel name with its tally.
pub type Row = (Seq<char>, KernelStat);

/// Rows with more launches come first, and of those with as many the one
/// whose name stands first.
pub open spec fn ranks_before(a: Row, b: Row) -> bool {
    a.1.spec_total() > b.1.spec_total() || (a.1.spec_total() == b.1.spec_total() && bytes_before(
        encode_utf8(a.0),
        encode_utf8(b.0),
    ))
}

proof fn ranking_is_total(a: Row, b: Row)
    requires
        a.0 != b.0,
    ensures
        ranks_before(a, b) || ranks_before(b, a),
{
    if encode_utf8(a.0) == encode_utf8(b.0) {
        encode_utf8_decode_utf8(a.0);
        encode_utf8_decode_utf8(b.0);
    }
    bytes_before_is_total(encode_utf8(a.0), encode_utf8(b.0));
}

proof fn ranking_is_transitive(a: Row, b: Row, c: Row)
    requires
        ranks_before(a, b),
        ranks_before(b, c),
    ensures
        ranks_before(a, c),
{
    if bytes_before(encode_utf8(a.0), encode_utf8(b.0)) && bytes_before(
        encode_utf8(b.0),
        encode_utf8(c.0),
    ) {
        bytes_before_is_transitive(encode_utf8(a.0), encode_utf8(b.0), encode_utf8(c.0));
    }
}

pub open spec fn row_at(stats: Seq<(String, KernelStat)>, i: int) -> Row {
    (stats[i].0@, stats[i].1)
}

fn row_ranks_before(a: &(String, KernelStat), b: &(String, KernelStat)) -> (r: bool)
    ensures
        r == ranks_before((a.0@, a.1), (b.0@, b.1)),
{
    let left: u32 = a.1.total();
    let right: u32 = b.1.total();
    if left != right {
        return left > right;
    }
    is_before(a.0.as_str().as_bytes(), b.0.as_str().as_bytes())
}

/// Whether the position is listed.
spec fn lists(order: Seq<usize>, q: int) -> bool {
    exists|i: int| 0 <= i < order.len() && #[trigger] order[i] == q
}

/// The positions of all entries, best rank first.
fn ranking(stats: &Vec<(String, KernelStat)>) -> (order: Vec<usize>)
    requires
        names_distinct(stats@),
    ensures
        order.len() == stats.len(),
        forall|i: int| 0 <= i < order.len() ==> #[trigger] order@[i] < stats.len(),
        forall|q: int| 0 <= q < stats.len() ==> #[trigger] lists(order@, q),
        forall|i: int, j: int|
            0 <= i < j < order.len() ==> ranks_before(
                row_at(stats@, #[trigger] order@[i] as int),
                row_at(stats@, #[trigger] order@[j] as int),
            ),
{
    let mut order: Vec<usize> = Vec::new();
    let mut k: usize = 0;
    while k < stats.len()
        invariant
            k <= stats.len(),
            order.len() == k,
            names_distinct(stats@),
            forall|i: int| 0 <= i < order.len() ==> #[trigger] order@[i] < k,
            forall|q: int| 0 <= q < k ==> #[trigger] lists(order@, q),
            forall|i: int, j: int|
                0 <= i < j < order.len() ==> ranks_before(
                    row_at(stats@, #[trigger] order@[i] as int),
                    row_at(stats@, #[trigger] order@[j] as int),
                ),
        decreases stats.len() - k,
    {
        let ghost row = row_at(stats@, k as int);
        let mut p: usize = 0;
        while p < order.len() && row_ranks_before(&stats[order[p]], &stats[k])
            invariant
                p <= order.len(),
                k < stats.len(),
                row == row_at(stats@, k as int),
                forall|i: int| 0 <= i < order.len() ==> #[trigger] order@[i] < k,
                forall|i: int|
                    0 <= i < p ==> ranks_before(row_at(stats@, #[trigger] order@[i] as int), row),
            decreases order.len() - p,
        {
            p = p + 1;
        }
        let ghost before = order@;
        proof {
            assert forall|i: int| p <= i < order.len() implies ranks_before(
                row,
                row_at(stats@, #[trigger] order@[i] as int),
            ) by {
                let head = row_at(stats@, order@[p as int] as int);
                assert(stats@[order@[p as int] as int].0@ != stats@[k as int].0@);
                ranking_is_total(head, row);
                if i > p {
                    ranking_is_transitive(row, head, row_at(stats@, order@[i] as int));
                }
            }
        }
        order.insert(p, k);
        proof {
            assert forall|i: int, j: int| 0 <= i < j < order.len() implies ranks_before(
                row_at(stats@, #[trigger] order@[i] as int),
                row_at(stats@, #[trigger] order@[j] as int),
            ) by {
                let a = if i < p {
                    i
                } else {
                    i - 1
                };
                let b = if j < p {
                    j
                } else {
                    j - 1
                };
                if i == p {
                    assert(order@[j] == before[b]);
                } else if j == p {
                    assert(order@[i] == before[a]);
                } else {
                    assert(order@[i] == before[a] && order@[j] == before[b]);
                }
            }
            assert forall|q: int| 0 <= q < k + 1 implies #[trigger] lists(order@, q) by {
                if q == k {
                    assert(order@[p as int] == q);
                } else {
                    assert(lists(before, q));
                    let i = choose|i: int| 0 <= i < before.len() && #[trigger] before[i] == q;
                    if i < p {
                        assert(order@[i] == q);
                    } else {
                        assert(order@[i + 1] == q);
                    }
                }
            }
        }
        k = k + 1;
    }
    order
}

/// Whether `rows` are the best-ranked entries of the tally.
pub open spec fn best_rows(tally: Map<Seq<char>, KernelStat>, rows: Seq<Row>) -> bool {
    &&& forall|i: int|
        0 <= i < rows.len() ==> tally.contains_pair((#[trigger] rows[i]).0, rows[i].1)
    &&& forall|i: int, j: int|
        0 <= i < j < rows.len() ==> ranks_before(#[trigger] rows[i], #[trigger] rows[j])
    &&& forall|name: Seq<char>, i: int|
        tally.dom().contains(name) && 0 <= i < rows.len() ==> #[trigger] rows.contains(
            (name, tally[name]),
        ) || ranks_before(#[trigger] rows[i], (name, tally[name]))
}

/// A tally has one list of best-ranked entries of each length.
pub proof fn best_rows_are_unique(
    tally: Map<Seq<char>, KernelStat>,
    a: Seq<Row>,
    b: Seq<Row>,
)
    requires
        best_rows(tally, a),
        best_rows(tally, b),
        a.len() == b.len(),
    ensures
        a == b,
{
    same_front(tally, a, b, a.len() as int);
    assert(a.take(a.len() as int) =~= a);
    assert(b.take(b.len() as int) =~= b);
}

proof fn same_front(
    tally: Map<Seq<char>, KernelStat>,
    a: Seq<Row>,
    b: Seq<Row>,
    n: int,
)
    requires
        best_rows(tally, a),
        best_rows(tally, b),
        a.len() == b.len(),
        0 <= n <= a.len(),
    ensures
        a.take(n) == b.take(n),
    decreases n,
{
    if n > 0 {
        let i = n - 1;
        same_front(tally, a, b, i);
        assert forall|j: int| 0 <= j < i implies a[j] == b[j] by {
            assert(a.take(i)[j] == b.take(i)[j]);
        }
        if a[i] != b[i] {
            outranked(tally, a, b, i);
            outranked(tally, b, a, i);
            ranking_is_transitive(a[i], b[i], a[i]);
            ranking_is_irreflexive(a[i]);
        }
        assert(a.take(n) =~= b.take(n));
    }
}

proof fn ranking_is_irreflexive(a: Row)
    ensures
        !ranks_before(a, a),
{
    bytes_are_not_before(encode_utf8(a.0));
}

proof fn bytes_are_not_before(s: Seq<u8>)
    ensures
        !bytes_before(s, s),
    decreases s.len(),
{
    if s.len() > 0 {
        bytes_are_not_before(s.drop_first());
    }
}

/// Where two lists of best entries part, each entry outranks the other.
proof fn outranked(tally: Map<Seq<char>, KernelStat>, a: Seq<Row>, b: Seq<Row>, i: int)
    requires
        best_rows(tally, a),
        best_rows(tally, b),
        0 <= i < a.len() == b.len(),
        forall|j: int| 0 <= j < i ==> a[j] == b[j],
        a[i] != b[i],
    ensures
        ranks_before(b[i], a[i]),
{
    let (name, stat) = a[i];
    assert(tally.contains_pair(a[i].0, a[i].1));
    assert(a[i] == (name, tally[name]));
    assert(b.contains((name, tally[name])) || ranks_before(b[i], (name, tally[name])));
    if b.contains(a[i]) {
        let k = choose|k: int| 0 <= k < b.len() && b[k] == a[i];
        if k < i {
            assert(ranks_before(a[k], a[i]));
            ranking_is_irreflexive(a[i]);
        } else {
            assert(ranks_before(b[i], b[k]));
        }
    }
}

pub open spec fn rows_view(rows: Seq<(String, KernelStat)>) -> Seq<Row> {
    rows.map_values(|r: (String, KernelStat)| (r.0@, r.1))
}

proof fn tally_at(stats: Seq<(String, KernelStat)>, i: int)
    requires
        names_distinct(stats),
        0 <= i < stats.len(),
    ensures
        tally_of(stats).contains_pair(stats[i].0@, stats[i].1),
{
    let name = stats[i].0@;
    assert(listed_at(stats, name, i));
    let j = choose|j: int| listed_at(stats, name, j);
    assert(listed_at(stats, name, j));
    assert(i == j);
}

/// Whether the state is empty, with nothing shown yet.
pub open spec fn is_new(state: AppState) -> bool {
    &&& state.tally() == Map::<Seq<char>, KernelStat>::empty()
    &&& state.kernel_stats@.len() == 0
    &&& state.phase == Phase::Response
    &&& state.now_executing is None
    &&& state.recent_launches@.len() == 0
    &&& state.latest_end_ns == 0
    &&& state.first_start_ns is None
    &&& state.prompt_tokens is None
    &&& !state.semantic_connected
    &&& !state.cupti_connected
    &&& state.reply_text@.len() == 0
    &&& !state.chat_busy
    &&& state.render_cache.now_executing is None
    &&& state.render_cache.rows@.len() == 0
    &&& state.render_cache.overflow_count == 0
    &&& state.render_cache.busy_percent is None
    &&& state.render_cache.busy_caption is None
    &&& state.render_cache.prompt_tokens is None
    &&& state.render_cache.semantic_connected is None
    &&& state.render_cache.cupti_connected is None
}

/// Whether one state follows another by the beginning of a query.
pub open spec fn query_reset(before: AppState, after: AppState) -> bool {
    &&& after.tally() == Map::<Seq<char>, KernelStat>::empty()
    &&& after.kernel_stats@.len() == 0
    &&& after.phase == Phase::Response
    &&& after.prompt_tokens is None
    &&& after.reply_text@.len() == 0
    &&& after.now_executing == before.now_executing
    &&& after.recent_launches == before.recent_launches
    &&& after.latest_end_ns == before.latest_end_ns
    &&& after.first_start_ns == before.first_start_ns
    &&& after.semantic_connected == before.semantic_connected
    &&& after.cupti_connected == before.cupti_connected
    &&& after.chat_busy == before.chat_busy
    &&& after.render_cache == before.render_cache
}

/// Whether one state follows another by a look at the rolling window, with
/// what was seen of it: the busy time, the length, and the launches.
pub open spec fn window_read(before: AppState, after: AppState, r: (i64, i64, usize)) -> bool {
    &&& after == (AppState { recent_launches: after.recent_launches, ..before })
    &&& 0 <= r.0 <= r.1
    &&& if before.latest_end_ns == 0 {
        r == (0i64, 0i64, 0usize) && after == before
    } else {
        let cutoff = before.cutoff();
        let kept = recent(before.recent_launches@, cutoff);
        &&& after.recent_launches@ == kept
        &&& r.0 == union_length(stretch_ints(clipped(kept, cutoff)))
        &&& r.1 == before.latest_end_ns - cutoff
        &&& r.2 == kept.len()
    }
}

/// Whether one state follows another by the record of a launch.
pub open spec fn launch_recorded(
    before: AppState,
    after: AppState,
    name: Seq<char>,
    start_ns: i64,
    end_ns: i64,
) -> bool {
    &&& after.now_executing matches Some(shown) && shown@ == name
    &&& after.tally() == before.tally().insert(
        name,
        (if before.tally().dom().contains(name) {
            before.tally()[name]
        } else {
            KernelStat { thinking: 0, response: 0 }
        }).counted(before.phase),
    )
    &&& after.recent_launches@ == if end_ns > start_ns {
        before.recent_launches@.push((start_ns, end_ns))
    } else {
        before.recent_launches@
    }
    &&& after.latest_end_ns == if end_ns > start_ns && end_ns > before.latest_end_ns {
        end_ns
    } else {
        before.latest_end_ns
    }
    &&& after.first_start_ns == if end_ns > start_ns && before.first_start_ns is None {
        Some(start_ns)
    } else {
        before.first_start_ns
    }
    &&& after.phase == before.phase
    &&& after.prompt_tokens == before.prompt_tokens
    &&& after.semantic_connected == before.semantic_connected
    &&& after.cupti_connected == before.cupti_connected
    &&& after.reply_text == before.reply_text
    &&& after.chat_busy == before.chat_busy
    &&& after.render_cache == before.render_cache
}

impl AppState {
    /// Every listed kernel has its own entry, and every launch lies before
    /// the latest end.
    pub open spec fn wf(self) -> bool {
        &&& names_distinct(self.kernel_stats@)
        &&& self.latest_end_ns >= 0
        &&& forall|i: int|
            0 <= i < self.recent_launches@.len() ==> (#[trigger] self.recent_launches@[i]).0
                < self.recent_launches@[i].1 && self.recent_launches@[i].1 <= self.latest_end_ns
        &&& self.first_start_ns matches Some(first) ==> first <= self.latest_end_ns
    }

    /// The tally of the current query.
    pub open spec fn tally(self) -> Map<Seq<char>, KernelStat> {
        tally_of(self.kernel_stats@)
    }

    /// An empty state, with nothing shown yet.
    pub fn new() -> (state: Self)
        ensures
            state.wf(),
            is_new(state),
    {
        let state = AppState {
            kernel_stats: Vec::new(),
            phase: Phase::Response,
            now_executing: None,
            recent_launches: Vec::new(),
            latest_end_ns: 0,
            first_start_ns: None,
            prompt_tokens: None,
            semantic_connected: false,
            cupti_connected: false,
            reply_text: String::new(),
            chat_busy: false,
            render_cache: RenderCache {
                now_executing: None,
                rows: Vec::new(),
                overflow_count: 0,
                busy_percent: None,
                busy_caption: None,
                prompt_tokens: None,
                semantic_connected: None,
                cupti_connected: None,
            },
        };
        assert(state.tally() =~= Map::<Seq<char>, KernelStat>::empty());
        state
    }

    /// Begins a new query: its tally, phase, prompt and reply start over, and
    /// the rolling device data stays.
    pub fn reset_query(&mut self)
        requires
            old(self).wf(),
        ensures
            final(self).wf(),
            query_reset(*old(self), *final(self)),
    {
        self.kernel_stats = Vec::new();
        self.phase = Phase::Response;
        self.prompt_tokens = None;
        self.reply_text = String::new();
        assert(self.tally() =~= Map::<Seq<char>, KernelStat>::empty());
    }

    pub fn set_thinking(&mut self, is_thinking: bool)
        ensures
            *final(self) == (AppState {
                phase: if is_thinking {
                    Phase::Thinking
                } else {
                    Phase::Response
                },
                ..*old(self)
            }),
    {
        self.phase = if is_thinking {
            Phase::Thinking
        } else {
            Phase::Response
        };
    }

    /// Counts a launch under its name in the current phase, and keeps its
    /// interval where it is not empty.
    pub fn record_launch(&mut self, name: &str, start_ns: i64, end_ns: i64)
        requires
            old(self).wf(),
        ensures
            final(self).wf(),
            launch_recorded(*old(self), *final(self), name@, start_ns, end_ns),
    {
        self.now_executing = Some(name.to_owned());
        self.count_launch(name);
        if end_ns > start_ns {
            self.recent_launches.push((start_ns, end_ns));
            if end_ns > self.latest_end_ns {
                self.latest_end_ns = end_ns;
            }
            if self.first_start_ns.is_none() {
                self.first_start_ns = Some(start_ns);
            }
        }
    }

    fn count_launch(&mut self, name: &str)
        requires
            names_distinct(old(self).kernel_stats@),
        ensures
            names_distinct(final(self).kernel_stats@),
            final(self).tally() == old(self).tally().insert(
                name@,
                (if old(self).tally().dom().contains(name@) {
                    old(self).tally()[name@]
                } else {
                    KernelStat { thinking: 0, response: 0 }
                }).counted(old(self).phase),
            ),
            *final(self) == (AppState { kernel_stats: final(self).kernel_stats, ..*old(self) }),
    {
        let ghost before = self.kernel_stats@;
        let owned: String = name.to_owned();
        let mut i: usize = 0;
        while i < self.kernel_stats.len() && self.kernel_stats[i].0 != owned
            invariant
                i <= self.kernel_stats.len(),
                before == self.kernel_stats@,
                *self == *old(self),
                owned@ == name@,
                forall|j: int| 0 <= j < i ==> (#[trigger] before[j]).0@ != name@,
            decreases self.kernel_stats.len() - i,
        {
            i = i + 1;
        }
        if i < self.kernel_stats.len() {
            let mut stat = self.kernel_stats[i].1;
            proof {
                tally_at(before, i as int);
            }
            match self.phase {
                Phase::Thinking => {
                    stat.thinking = stat.thinking.wrapping_add(1);
                },
                Phase::Response => {
                    stat.response = stat.response.wrapping_add(1);
                },
            }
            self.kernel_stats.set(i, (owned, stat));
            proof {
                tally_update(before, i as int, owned, stat);
            }
        } else {
            let zero = KernelStat { thinking: 0, response: 0 };
            let mut stat = zero;
            match self.phase {
                Phase::Thinking => {
                    stat.thinking = 1;
                },
                Phase::Response => {
                    stat.response = 1;
                },
            }
            self.kernel_stats.push((owned, stat));
            proof {
                assert(!tally_of(before).dom().contains(name@));
                tally_push(before, owned, stat);
            }
        }
    }

    /// The instant from which on the rolling window looks at launches.
    pub open spec fn cutoff(self) -> i64 {
        let first: i64 = match self.first_start_ns {
            Some(first) => first,
            None => 0,
        };
        let rolling = self.latest_end_ns - ROLLING_WINDOW_NS;
        if rolling > first {
            rolling as i64
        } else {
            first
        }
    }

    /// The busy time and length of the rolling window, and how many launches
    /// reach into it. Launches that ended before it are forgotten.
    pub fn rolling_busy(&mut self) -> (r: (i64, i64, usize))
        requires
            old(self).wf(),
        ensures
            final(self).wf(),
            window_read(*old(self), *final(self), r),
    {
        if self.latest_end_ns == 0 {
            return (0, 0, 0);
        }
        let first: i64 = match self.first_start_ns {
            Some(first) => first,
            None => 0,
        };
        let rolling: i64 = self.latest_end_ns - ROLLING_WINDOW_NS;
        let cutoff: i64 = if rolling > first {
            rolling
        } else {
            first
        };
        let ghost all = self.recent_launches@;
        let mut kept: Vec<(i64, i64)> = Vec::new();
        let mut intervals: Vec<Stretch> = Vec::new();
        let mut i: usize = 0;
        proof {
            reveal(Seq::filter);
            assert(all.take(0) =~= Seq::<(i64, i64)>::empty());
        }
        while i < self.recent_launches.len()
            invariant
                i <= self.recent_launches.len(),
                all == self.recent_launches@,
                *self == *old(self),
                old(self).wf(),
                cutoff <= self.latest_end_ns,
                kept@ == recent(all.take(i as int), cutoff),
                intervals@ =~= clipped(kept@, cutoff),
                forall|j: int|
                    0 <= j < kept.len() ==> (#[trigger] kept@[j]).0 < kept@[j].1 && kept@[j].1
                        <= self.latest_end_ns,
                forall|j: int|
                    0 <= j < intervals.len() ==> cutoff <= (#[trigger] intervals@[j]).start_ns
                        && intervals@[j].start_ns <= intervals@[j].end_ns && intervals@[j].end_ns
                        <= self.latest_end_ns,
            decreases self.recent_launches.len() - i,
        {
            let launch = self.recent_launches[i];
            proof {
                reveal(Seq::filter);
                assert(all.take(i + 1).drop_last() =~= all.take(i as int));
                assert(self.recent_launches@[i as int] == launch);
            }
            if launch.1 >= cutoff {
                kept.push(launch);
                let start: i64 = if launch.0 > cutoff {
                    launch.0
                } else {
                    cutoff
                };
                intervals.push(Stretch { start_ns: start, end_ns: launch.1 });
            }
            i = i + 1;
        }
        assert(all.take(i as int) =~= all);
        self.recent_launches = kept;
        let window: i64 = self.latest_end_ns - cutoff;
        let busy: i64 = merged_busy_ns(&intervals, cutoff, self.latest_end_ns);
        (busy, window, self.recent_launches.len())
    }

    /// The best-ranked kernels, at most `cap` of them, and how many were left
    /// out.
    pub fn top_rows(&self, cap: usize) -> (r: (Vec<(String, KernelStat)>, usize))
        requires
            self.wf(),
        ensures
            best_rows(self.tally(), rows_view(r.0@)),
            r.0@.len() == if self.kernel_stats@.len() <= cap {
                self.kernel_stats@.len()
            } else {
                cap as nat
            },
            r.1 == self.kernel_stats@.len() - r.0@.len(),
    {
        let order = ranking(&self.kernel_stats);
        let count: usize = if order.len() <= cap {
            order.len()
        } else {
            cap
        };
        let mut rows: Vec<(String, KernelStat)> = Vec::new();
        let mut i: usize = 0;
        while i < count
            invariant
                i <= count <= order.len() == self.kernel_stats.len(),
                rows.len() == i,
                forall|j: int| 0 <= j < order.len() ==> #[trigger] order@[j] < order.len(),
                forall|j: int|
                    0 <= j < i ==> (#[trigger] rows@[j]).0@ == self.kernel_stats@[order@[j] as int].0@
                        && rows@[j].1 == self.kernel_stats@[order@[j] as int].1,
            decreases count - i,
        {
            let entry = &self.kernel_stats[order[i]];
            rows.push((entry.0.clone(), entry.1));
            i = i + 1;
        }
        proof {
            let tally = self.tally();
            let view = rows_view(rows@);
            let stats = self.kernel_stats@;
            assert forall|i: int| 0 <= i < view.len() implies tally.contains_pair(
                (#[trigger] view[i]).0,
                view[i].1,
            ) && view[i] == row_at(stats, order@[i] as int) by {
                assert(rows@[i].0@ == stats[order@[i] as int].0@);
                tally_at(stats, order@[i] as int);
            }
            assert forall|name: Seq<char>, i: int|
                tally.dom().contains(name) && 0 <= i < view.len() implies #[trigger] view.contains(
                (name, tally[name]),
            ) || ranks_before(#[trigger] view[i], (name, tally[name])) by {
                let q = choose|q: int| listed_at(stats, name, q);
                assert(listed_at(stats, name, q));
                tally_at(stats, q);
                assert(lists(order@, q));
                let p = choose|p: int| 0 <= p < order.len() && #[trigger] order@[p] == q;
                if p < view.len() {
                    assert(view[p] == row_at(stats, order@[p] as int));
                } else {
                    assert(view[i] == row_at(stats, order@[i] as int));
                    assert(ranks_before(
                        row_at(stats, order@[i] as int),
                        row_at(stats, order@[p] as int),
                    ));
                }
            }
        }
        (rows, order.len() - count)
    }
}

proof fn tally_is(stats: Seq<(String, KernelStat)>, m: Map<Seq<char>, KernelStat>)
    requires
        names_distinct(stats),
        forall|i: int|
            0 <= i < stats.len() ==> m.contains_pair((#[trigger] stats[i]).0@, stats[i].1),
        forall|name: Seq<char>| #[trigger]
            m.dom().contains(name) ==> exists|i: int| listed_at(stats, name, i),
    ensures
        tally_of(stats) == m,
{
    let t = tally_of(stats);
    assert forall|name: Seq<char>| #[trigger] t.dom().contains(name) implies m.dom().contains(name)
        && t[name] == m[name] by {
        let i = choose|i: int| listed_at(stats, name, i);
        assert(listed_at(stats, name, i));
        tally_at(stats, i);
    }
    assert(t =~= m);
}

proof fn tally_update(stats: Seq<(String, KernelStat)>, i: int, name: String, stat: KernelStat)
    requires
        names_distinct(stats),
        0 <= i < stats.len(),
        name@ == stats[i].0@,
    ensures
        names_distinct(stats.update(i, (name, stat))),
        tally_of(stats.update(i, (name, stat))) == tally_of(stats).insert(name@, stat),
{
    let next = stats.update(i, (name, stat));
    let m = tally_of(stats).insert(name@, stat);
    assert forall|a: int, b: int| 0 <= a < b < next.len() implies (#[trigger] next[a]).0@ != (
    #[trigger] next[b]).0@ by {
        assert(stats[a].0@ != stats[b].0@);
    }
    assert forall|j: int| 0 <= j < next.len() implies m.contains_pair(
        (#[trigger] next[j]).0@,
        next[j].1,
    ) by {
        if j != i {
            tally_at(stats, j);
            assert(stats[j].0@ != stats[i].0@);
        }
    }
    assert forall|n: Seq<char>| #[trigger] m.dom().contains(n) implies exists|j: int|
        listed_at(next, n, j) by {
        if n == name@ {
            assert(listed_at(next, n, i));
        } else {
            let j = choose|j: int| listed_at(stats, n, j);
            assert(listed_at(stats, n, j));
            assert(listed_at(next, n, j));
        }
    }
    tally_is(next, m);
}

proof fn tally_push(stats: Seq<(String, KernelStat)>, name: String, stat: KernelStat)
    requires
        names_distinct(stats),
        forall|i: int| 0 <= i < stats.len() ==> (#[trigger] stats[i]).0@ != name@,
    ensures
        names_distinct(stats.push((name, stat))),
        tally_of(stats.push((name, stat))) == tally_of(stats).insert(name@, stat),
{
    let next = stats.push((name, stat));
    let m = tally_of(stats).insert(name@, stat);
    assert forall|j: int| 0 <= j < next.len() implies m.contains_pair(
        (#[trigger] next[j]).0@,
        next[j].1,
    ) by {
        if j < stats.len() {
            tally_at(stats, j);
            assert(stats[j].0@ != name@);
        }
    }
    assert forall|n: Seq<char>| #[trigger] m.dom().contains(n) implies exists|j: int|
        listed_at(next, n, j) by {
        if n == name@ {
            assert(listed_at(next, n, stats.len() as int));
        } else {
            let j = choose|j: int| listed_at(stats, n, j);
            assert(listed_at(stats, n, j));
            assert(listed_at(next, n, j));
        }
    }
    tally_is(next, m);
}

} // verus!
