//! Paired runs: rows of metrics, two arms to a pair.

use crate::digits::{append_decimal, decimal};
use crate::tables::{number_error, number_error_text, read_u32, u32_of, NumberShape, TAB};
use crate::text::{fields, fields_of, same, views};
use vstd::prelude::*;
use vstd::string::*;
use vstd::utf8::encode_utf8;

verus! {

pub const MAX_METRIC_BYTES: usize = 1_048_576;

pub const MAX_PAIRS: usize = 30;

/// The titles of a table of metrics.
pub open spec fn metric_titles() -> Seq<u8> {
    encode_utf8(
        "pair\tarm\tordinal\tttft_p99_ms\titl_p99_ms\tthroughput_tok_s\tttft_avg_ms\titl_avg_ms\tduration_s\tmixed_steps"@,
    )
}

/// Whether a line is the titles of a table of metrics.
pub fn has_metric_titles(line: &[u8]) -> (r: bool)
    ensures
        r == (line@ == metric_titles()),
{
    same(
        line,
        "pair\tarm\tordinal\tttft_p99_ms\titl_p99_ms\tthroughput_tok_s\tttft_avg_ms\titl_avg_ms\tduration_s\tmixed_steps".as_bytes(),
    )
}

/// A row of metrics: its pair, its arm, and the columns that hold the metrics.
pub struct MetricRow<'a> {
    pub pair: u32,
    pub arm: &'a [u8],
    pub metrics: Vec<&'a [u8]>,
}

/// The columns of a row that hold whole numbers, in the order in which they are read.
pub open spec fn metric_columns() -> Seq<(usize, NumberShape)> {
    seq![
        (0usize, NumberShape::U32),
        (2usize, NumberShape::U32),
    ]
}

fn metric_columns_list() -> (list: Vec<(usize, NumberShape)>)
    ensures
        list@ == metric_columns(),
{
    let list: Vec<(usize, NumberShape)> = vec![
        (0usize, NumberShape::U32),
        (2usize, NumberShape::U32),
    ];
    assert(list@ =~= metric_columns());
    list
}

/// What a line of a table is read as: the pair, the arm, and the columns.
pub open spec fn row_of(line: Seq<u8>, number: int) -> Result<
    (u32, Seq<u8>, Seq<Seq<u8>>),
    Seq<char>,
> {
    let parts = fields_of(line, TAB);
    if parts.len() != 10 {
        Err("invalid field count on data line "@ + decimal(number as nat))
    } else {
        match (u32_of(parts[0]), u32_of(parts[2])) {
            (Some(pair), Some(_)) => Ok((pair, parts[1], parts.subrange(3, 10))),
            _ => Err(number_error(parts, metric_columns())),
        }
    }
}

/// Reads a line of a table of metrics.
pub fn read_metric_row<'a>(line: &'a [u8], number: usize) -> (r: Result<MetricRow<'a>, String>)
    ensures
        match (r, row_of(line@, number as int)) {
            (Ok(row), Ok((pair, arm, metrics))) => row.pair == pair && row.arm@ == arm && views(
                row.metrics@,
            ) == metrics,
            (Err(error), Err(expected)) => error@ == expected,
            _ => false,
        },
{
    let parts = fields(line, TAB);
    assert(views(parts@).len() == parts@.len());
    if parts.len() != 10 {
        let mut text = "invalid field count on data line ".to_owned();
        append_decimal(&mut text, number as u64);
        return Err(text);
    }
    assert(views(parts@)[0] == parts@[0]@);
    assert(views(parts@)[2] == parts@[2]@);
    let pair: u32 = match read_u32(parts[0]) {
        Some(pair) => pair,
        None => {
            return Err(number_error_text(&parts, &metric_columns_list()));
        },
    };
    if read_u32(parts[2]).is_none() {
        return Err(number_error_text(&parts, &metric_columns_list()));
    }
    let mut metrics: Vec<&'a [u8]> = Vec::new();
    let mut i: usize = 3;
    while i < 10
        invariant
            3 <= i <= 10,
            parts@.len() == 10,
            metrics@ == parts@.subrange(3, i as int),
        decreases 10 - i,
    {
        metrics.push(parts[i]);
        assert(metrics@ =~= parts@.subrange(3, i + 1));
        i = i + 1;
    }
    assert(views(metrics@) =~= views(parts@).subrange(3, 10));
    assert(views(parts@)[1] == parts@[1]@);
    Ok(MetricRow { pair, arm: parts[1], metrics })
}

/// The rows of the two arms of a pair.
#[derive(Clone, Copy, Debug, PartialEq, Eq, Structural)]
pub struct Pair {
    pub id: u32,
    pub a: Option<usize>,
    pub b: Option<usize>,
}

/// The pairs of a table, in the order of their numbers.
pub struct PairTable {
    pub pairs: Vec<Pair>,
}

/// Whether the pairs stand in the order of their numbers.
pub open spec fn pairs_ordered(pairs: Seq<Pair>) -> bool {
    forall|i: int, j: int|
        0 <= i < j < pairs.len() ==> (#[trigger] pairs[i]).id < (#[trigger] pairs[j]).id
}

pub open spec fn pair_at(pairs: Seq<Pair>, id: u32, i: int) -> bool {
    0 <= i < pairs.len() && (#[trigger] pairs[i]).id == id
}

/// The pairs by their numbers.
pub open spec fn pairs_model(pairs: Seq<Pair>) -> Map<u32, (Option<usize>, Option<usize>)> {
    Map::new(
        |id: u32| exists|i: int| pair_at(pairs, id, i),
        |id: u32|
            {
                let pair = pairs[choose|i: int| pair_at(pairs, id, i)];
                (pair.a, pair.b)
            },
    )
}

proof fn pair_is_modelled(pairs: Seq<Pair>, i: int)
    requires
        pairs_ordered(pairs),
        0 <= i < pairs.len(),
    ensures
        pairs_model(pairs).contains_pair(pairs[i].id, (pairs[i].a, pairs[i].b)),
{
    let id = pairs[i].id;
    assert(pair_at(pairs, id, i));
    let j = choose|j: int| pair_at(pairs, id, j);
    assert(pair_at(pairs, id, j));
    if i < j {
        assert(pairs[i].id < pairs[j].id);
    }
    if j < i {
        assert(pairs[j].id < pairs[i].id);
    }
}

/// What the rows of a pair are with one more, or what is wrong with it.
pub open spec fn with_row(
    pair: (Option<usize>, Option<usize>),
    arm: Seq<u8>,
    row: usize,
) -> Result<(Option<usize>, Option<usize>), Seq<char>> {
    if arm == encode_utf8("A"@) {
        match pair.0 {
            None => Ok((Some(row), pair.1)),
            Some(_) => Err("duplicate pair arm"@),
        }
    } else if arm == encode_utf8("B"@) {
        match pair.1 {
            None => Ok((pair.0, Some(row))),
            Some(_) => Err("duplicate pair arm"@),
        }
    } else {
        Err("arm must be A or B"@)
    }
}

pub open spec fn pair_under(
    pairs: Map<u32, (Option<usize>, Option<usize>)>,
    id: u32,
) -> (Option<usize>, Option<usize>) {
    if pairs.dom().contains(id) {
        pairs[id]
    } else {
        (None, None)
    }
}

fn place_row(pair: Pair, arm: &[u8], row: usize) -> (r: Result<Pair, &'static str>)
    ensures
        match (r, with_row((pair.a, pair.b), arm@, row)) {
            (Ok(next), Ok((a, b))) => next == (Pair { id: pair.id, a, b }),
            (Err(error), Err(expected)) => error@ == expected,
            _ => false,
        },
{
    if same(arm, "A".as_bytes()) {
        if pair.a.is_some() {
            Err("duplicate pair arm")
        } else {
            Ok(Pair { a: Some(row), ..pair })
        }
    } else if same(arm, "B".as_bytes()) {
        if pair.b.is_some() {
            Err("duplicate pair arm")
        } else {
            Ok(Pair { b: Some(row), ..pair })
        }
    } else {
        Err("arm must be A or B")
    }
}

/// The first pair without the first arm or the second, and which.
pub open spec fn missing_arm(pairs: Seq<Pair>, n: int) -> Option<Seq<char>>
    decreases n,
{
    if n <= 0 {
        None
    } else {
        match missing_arm(pairs, n - 1) {
            Some(problem) => Some(problem),
            None => if pairs[n - 1].a is None {
                Some("pair is missing arm A"@)
            } else if pairs[n - 1].b is None {
                Some("pair is missing arm B"@)
            } else {
                None
            },
        }
    }
}

/// What keeps a table from being analysed.
pub open spec fn pairs_problem(pairs: Seq<Pair>) -> Option<Seq<char>> {
    if pairs.len() < 2 || pairs.len() > MAX_PAIRS {
        Some("paired analysis requires 2..=30 complete pairs"@)
    } else {
        missing_arm(pairs, pairs.len() as int)
    }
}

proof fn missing_arm_stays(pairs: Seq<Pair>, n: int, m: int)
    requires
        n <= m,
        missing_arm(pairs, n) is Some,
    ensures
        missing_arm(pairs, m) == missing_arm(pairs, n),
    decreases m - n,
{
    if n < m {
        missing_arm_stays(pairs, n, m - 1);
    }
}

impl PairTable {
    pub open spec fn wf(self) -> bool {
        pairs_ordered(self.pairs@)
    }

    pub open spec fn model(self) -> Map<u32, (Option<usize>, Option<usize>)> {
        pairs_model(self.pairs@)
    }

    pub fn new() -> (table: Self)
        ensures
            table.wf(),
            table.model() == Map::<u32, (Option<usize>, Option<usize>)>::empty(),
    {
        let table = PairTable { pairs: Vec::new() };
        assert(table.model() =~= Map::<u32, (Option<usize>, Option<usize>)>::empty());
        table
    }

    /// Notes the row of an arm.
    pub fn add_row(&mut self, id: u32, arm: &[u8], row: usize) -> (r: Result<(), &'static str>)
        requires
            old(self).wf(),
        ensures
            final(self).wf(),
            match (r, with_row(pair_under(old(self).model(), id), arm@, row)) {
                (Ok(()), Ok(pair)) => final(self).model() == old(self).model().insert(id, pair),
                (Err(error), Err(expected)) => error@ == expected && final(self).model() == old(
                    self,
                ).model(),
                _ => false,
            },
    {
        let ghost before = self.pairs@;
        let mut i: usize = 0;
        while i < self.pairs.len() && self.pairs[i].id < id
            invariant
                i <= self.pairs.len(),
                self.pairs@ == before,
                forall|j: int| 0 <= j < i ==> (#[trigger] before[j]).id < id,
            decreases self.pairs.len() - i,
        {
            i = i + 1;
        }
        if i < self.pairs.len() && self.pairs[i].id == id {
            proof {
                pair_is_modelled(before, i as int);
            }
            match place_row(self.pairs[i], arm, row) {
                Err(error) => Err(error),
                Ok(next) => {
                    self.pairs.set(i, next);
                    proof {
                        replaced_pair(before, i as int, next);
                    }
                    Ok(())
                },
            }
        } else {
            proof {
                absent_pair(before, i as int, id);
            }
            match place_row(Pair { id, a: None, b: None }, arm, row) {
                Err(error) => Err(error),
                Ok(next) => {
                    self.pairs.insert(i, next);
                    proof {
                        inserted_pair(before, i as int, next);
                    }
                    Ok(())
                },
            }
        }
    }

    /// The rows of the arms of each pair, in the order of the pairs, or why
    /// the table cannot be analysed.
    pub fn complete(&self) -> (r: Result<Vec<(u32, usize, usize)>, &'static str>)
        requires
            self.wf(),
        ensures
            match (r, pairs_problem(self.pairs@)) {
                (Ok(rows), None) => rows@.len() == self.pairs@.len() && forall|i: int|
                    0 <= i < rows@.len() ==> {
                        let pair = self.pairs@[i];
                        &&& (#[trigger] rows@[i]).0 == pair.id
                        &&& pair.a == Some(rows@[i].1)
                        &&& pair.b == Some(rows@[i].2)
                    },
                (Err(error), Some(problem)) => error@ == problem,
                _ => false,
            },
    {
        if self.pairs.len() < 2 || self.pairs.len() > MAX_PAIRS {
            return Err("paired analysis requires 2..=30 complete pairs");
        }
        let ghost pairs = self.pairs@;
        let mut rows: Vec<(u32, usize, usize)> = Vec::new();
        let mut i: usize = 0;
        while i < self.pairs.len()
            invariant
                i <= self.pairs.len(),
                pairs == self.pairs@,
                2 <= pairs.len() <= MAX_PAIRS,
                rows@.len() == i,
                missing_arm(pairs, i as int) is None,
                forall|j: int|
                    0 <= j < i ==> {
                        let pair = pairs[j];
                        &&& (#[trigger] rows@[j]).0 == pair.id
                        &&& pair.a == Some(rows@[j].1)
                        &&& pair.b == Some(rows@[j].2)
                    },
            decreases self.pairs.len() - i,
        {
            let pair = self.pairs[i];
            proof {
                if missing_arm(pairs, i + 1) is Some {
                    missing_arm_stays(pairs, i + 1, pairs.len() as int);
                }
            }
            match (pair.a, pair.b) {
                (None, _) => {
                    return Err("pair is missing arm A");
                },
                (_, None) => {
                    return Err("pair is missing arm B");
                },
                (Some(a), Some(b)) => {
                    rows.push((pair.id, a, b));
                },
            }
            i = i + 1;
        }
        Ok(rows)
    }
}

proof fn absent_pair(pairs: Seq<Pair>, i: int, id: u32)
    requires
        pairs_ordered(pairs),
        0 <= i <= pairs.len(),
        forall|j: int| 0 <= j < i ==> (#[trigger] pairs[j]).id < id,
        i < pairs.len() ==> pairs[i].id > id,
    ensures
        !pairs_model(pairs).dom().contains(id),
{
    assert forall|j: int| !pair_at(pairs, id, j) by {
        if i < j && j < pairs.len() {
            assert(pairs[i].id < pairs[j].id);
        }
    }
}

proof fn replaced_pair(pairs: Seq<Pair>, i: int, next: Pair)
    requires
        pairs_ordered(pairs),
        0 <= i < pairs.len(),
        next.id == pairs[i].id,
    ensures
        pairs_ordered(pairs.update(i, next)),
        pairs_model(pairs.update(i, next)) == pairs_model(pairs).insert(
            next.id,
            (next.a, next.b),
        ),
{
    let after = pairs.update(i, next);
    assert forall|j: int, k: int| 0 <= j < k < after.len() implies (#[trigger] after[j]).id < (
    #[trigger] after[k]).id by {
        assert(pairs[j].id < pairs[k].id);
    }
    assert(after[i] == next);
    assert forall|p: Pair| p.id != next.id implies (#[trigger] after.contains(p)
        <==> pairs.contains(p)) by {
        if after.contains(p) {
            let k = choose|k: int| 0 <= k < after.len() && after[k] == p;
            assert(pairs[k] == p);
        }
        if pairs.contains(p) {
            let k = choose|k: int| 0 <= k < pairs.len() && pairs[k] == p;
            assert(after[k] == p);
        }
    }
    same_model(pairs, after, next);
}

proof fn inserted_pair(pairs: Seq<Pair>, i: int, next: Pair)
    requires
        pairs_ordered(pairs),
        0 <= i <= pairs.len(),
        forall|j: int| 0 <= j < i ==> (#[trigger] pairs[j]).id < next.id,
        i < pairs.len() ==> pairs[i].id > next.id,
    ensures
        pairs_ordered(pairs.insert(i, next)),
        pairs_model(pairs.insert(i, next)) == pairs_model(pairs).insert(
            next.id,
            (next.a, next.b),
        ),
{
    let after = pairs.insert(i, next);
    assert forall|j: int, k: int| 0 <= j < k < after.len() implies (#[trigger] after[j]).id < (
    #[trigger] after[k]).id by {
        let before_j = if j < i { j } else { j - 1 };
        let before_k = if k < i { k } else { k - 1 };
        if j != i && k != i {
            assert(pairs[before_j].id < pairs[before_k].id);
        }
        if j == i && k > i + 1 {
            assert(pairs[i].id < pairs[k - 1].id);
        }
    }
    assert(after[i] == next);
    assert forall|p: Pair| p.id != next.id implies (#[trigger] after.contains(p)
        <==> pairs.contains(p)) by {
        if after.contains(p) {
            let k = choose|k: int| 0 <= k < after.len() && after[k] == p;
            let j = if k < i { k } else { k - 1 };
            assert(pairs[j] == p);
        }
        if pairs.contains(p) {
            let k = choose|k: int| 0 <= k < pairs.len() && pairs[k] == p;
            let j = if k < i { k } else { k + 1 };
            assert(after[j] == p);
        }
    }
    same_model(pairs, after, next);
}

/// Two orderings of pairs that differ in one pair alone stand for maps that
/// differ in it alone.
proof fn same_model(pairs: Seq<Pair>, after: Seq<Pair>, next: Pair)
    requires
        pairs_ordered(pairs),
        pairs_ordered(after),
        after.contains(next),
        forall|p: Pair| p.id != next.id ==> (#[trigger] after.contains(p) <==> pairs.contains(p)),
    ensures
        pairs_model(after) == pairs_model(pairs).insert(next.id, (next.a, next.b)),
{
    let left = pairs_model(after);
    let right = pairs_model(pairs).insert(next.id, (next.a, next.b));
    let at = choose|k: int| 0 <= k < after.len() && after[k] == next;
    pair_is_modelled(after, at);
    assert forall|id: u32| left.dom().contains(id) <==> right.dom().contains(id) by {
        if id != next.id {
            if left.dom().contains(id) {
                let k = choose|k: int| pair_at(after, id, k);
                assert(pair_at(after, id, k));
                assert(after.contains(after[k]));
                let j = choose|j: int| 0 <= j < pairs.len() && pairs[j] == after[k];
                assert(pair_at(pairs, id, j));
            }
            if pairs_model(pairs).dom().contains(id) {
                let j = choose|j: int| pair_at(pairs, id, j);
                assert(pair_at(pairs, id, j));
                assert(pairs.contains(pairs[j]));
                assert(after.contains(pairs[j]));
                let k = choose|k: int| 0 <= k < after.len() && after[k] == pairs[j];
                assert(pair_at(after, id, k));
            }
        }
    }
    assert forall|id: u32| left.dom().contains(id) implies left[id] == right[id] by {
        if id != next.id {
            let k = choose|k: int| pair_at(after, id, k);
            assert(pair_at(after, id, k));
            assert(after.contains(after[k]));
            let j = choose|j: int| 0 <= j < pairs.len() && pairs[j] == after[k];
            pair_is_modelled(pairs, j);
            pair_is_modelled(after, k);
        }
    }
    assert(left =~= right);
}

} // verus!
