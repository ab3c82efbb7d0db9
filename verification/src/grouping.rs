//! Grouping records by benchmark name, and the metric columns of a group.

use crate::analysis::{total, Stats, StatsError};
use crate::matcher::BenchResult;
use vstd::prelude::*;

verus! {

/// The names of `rs`, each once, in the order in which they first occur.
pub open spec fn names_in_order(rs: Seq<BenchResult>) -> Seq<Seq<char>>
    decreases rs.len(),
{
    if rs.len() == 0 {
        Seq::empty()
    } else {
        let before = names_in_order(rs.drop_last());
        if before.contains(rs.last().name@) {
            before
        } else {
            before.push(rs.last().name@)
        }
    }
}

/// The records of `rs` that bear `name`, in the order of `rs`.
pub open spec fn records_named(rs: Seq<BenchResult>, name: Seq<char>) -> Seq<BenchResult>
    decreases rs.len(),
{
    if rs.len() == 0 {
        Seq::empty()
    } else {
        let before = records_named(rs.drop_last(), name);
        if rs.last().name@ == name {
            before.push(rs.last())
        } else {
            before
        }
    }
}

/// No name occurs twice among the names in order.
pub proof fn lemma_names_distinct(rs: Seq<BenchResult>)
    ensures
        forall|i: int, j: int|
            0 <= i < j < names_in_order(rs).len() ==> names_in_order(rs)[i] != names_in_order(
                rs,
            )[j],
    decreases rs.len(),
{
    if rs.len() > 0 {
        lemma_names_distinct(rs.drop_last());
        let before = names_in_order(rs.drop_last());
        let names = names_in_order(rs);
        assert forall|i: int, j: int| 0 <= i < j < names.len() implies names[i] != names[j] by {
            if j < before.len() {
                assert(names[i] == before[i] && names[j] == before[j]);
            } else {
                assert(!before.contains(rs.last().name@));
                assert(names[i] == before[i]);
                assert(before.contains(before[i]));
            }
        }
    }
}

/// The name of every record is among the names in order.
pub proof fn lemma_names_cover(rs: Seq<BenchResult>, i: int)
    requires
        0 <= i < rs.len(),
    ensures
        names_in_order(rs).contains(rs[i].name@),
    decreases rs.len(),
{
    let before = names_in_order(rs.drop_last());
    if i < rs.len() - 1 {
        lemma_names_cover(rs.drop_last(), i);
        let k = choose|k: int| 0 <= k < before.len() && before[k] == rs[i].name@;
        assert(names_in_order(rs)[k] == rs[i].name@);
    } else {
        if before.contains(rs.last().name@) {
        } else {
            assert(names_in_order(rs)[before.len() as int] == rs[i].name@);
        }
    }
}

/// Exactly the names in order have records.
pub proof fn lemma_names_have_records(rs: Seq<BenchResult>, name: Seq<char>)
    ensures
        names_in_order(rs).contains(name) <==> records_named(rs, name).len() > 0,
    decreases rs.len(),
{
    if rs.len() > 0 {
        let before = names_in_order(rs.drop_last());
        lemma_names_have_records(rs.drop_last(), name);
        if before.contains(name) {
            let k = choose|k: int| 0 <= k < before.len() && before[k] == name;
            assert(names_in_order(rs)[k] == name);
        }
        if rs.last().name@ == name {
            lemma_names_cover(rs, rs.len() - 1);
        }
    }
}

/// Where the records come from several sources, read one after the other,
/// the records of a name are those of the first source followed by those of
/// the second: one group holds them all.
pub proof fn lemma_records_named_concat(a: Seq<BenchResult>, b: Seq<BenchResult>, name: Seq<char>)
    ensures
        records_named(a + b, name) == records_named(a, name) + records_named(b, name),
    decreases b.len(),
{
    if b.len() == 0 {
        assert(a + b =~= a);
        assert(records_named(a, name) + records_named(b, name) =~= records_named(a, name));
    } else {
        lemma_records_named_concat(a, b.drop_last(), name);
        assert((a + b).drop_last() =~= a + b.drop_last());
        assert((a + b).last() == b.last());
        let x = records_named(a, name);
        let y = records_named(b.drop_last(), name);
        assert((x + y).push(b.last()) =~= x + y.push(b.last()));
    }
}

/// All records of one benchmark.
pub struct Group<'a> {
    /// The name that the records share.
    pub name: String,
    /// The records, in the order in which they were read.
    pub results: Vec<&'a BenchResult>,
}

impl<'a> Group<'a> {
    /// The records of the group as plain values.
    pub open spec fn members(&self) -> Seq<BenchResult> {
        self.results@.map_values(|b: &BenchResult| *b)
    }
}

/// `groups` is the grouping of `rs`: one group for each name, in the order in
/// which the names first occur, each holding all records of its name in the
/// order of `rs`.
pub open spec fn is_grouping(groups: Seq<Group<'_>>, rs: Seq<BenchResult>) -> bool {
    &&& groups.len() == names_in_order(rs).len()
    &&& forall|i: int|
        0 <= i < groups.len() ==> {
            &&& (#[trigger] groups[i]).name@ == names_in_order(rs)[i]
            &&& groups[i].members() == records_named(rs, names_in_order(rs)[i])
        }
}

/// Groups the records by name in one pass from first to last.
pub fn group_results<'a>(results: &'a [BenchResult]) -> (groups: Vec<Group<'a>>)
    ensures
        is_grouping(groups@, results@),
{
    let mut groups: Vec<Group<'a>> = Vec::new();
    let n: usize = results.len();
    let mut i: usize = 0;
    while i < n
        invariant
            n == results@.len(),
            0 <= i <= n,
            is_grouping(groups@, results@.take(i as int)),
        decreases n - i,
    {
        let r: &'a BenchResult = &results[i];
        let ghost before: Seq<BenchResult> = results@.take(i as int);
        let ghost now: Seq<BenchResult> = results@.take(i + 1);
        assert(now.drop_last() =~= before);
        assert(now.last() == *r);
        let mut k: usize = 0;
        let g: usize = groups.len();
        while k < g && !(groups[k].name == r.name)
            invariant
                g == groups@.len(),
                0 <= k <= g,
                is_grouping(groups@, before),
                forall|j: int| 0 <= j < k ==> names_in_order(before)[j] != r.name@,
            decreases g - k,
        {
            k += 1;
        }
        let ghost old_groups = groups@;
        proof {
            lemma_names_distinct(before);
            lemma_names_have_records(before, r.name@);
        }
        if k < g {
            groups[k].results.push(r);
            proof {
                assert(names_in_order(before)[k as int] == r.name@);
                assert(names_in_order(now) == names_in_order(before));
                assert forall|j: int| 0 <= j < groups@.len() implies {
                    &&& (#[trigger] groups@[j]).name@ == names_in_order(now)[j]
                    &&& groups@[j].members() == records_named(now, names_in_order(now)[j])
                } by {
                    assert(old_groups[j].members() == records_named(
                        before,
                        names_in_order(before)[j],
                    ));
                    if j == k {
                        assert(groups@[j].members() =~= old_groups[j].members().push(*r));
                    } else {
                        assert(groups@[j] == old_groups[j]);
                    }
                }
            }
        } else {
            let mut members: Vec<&'a BenchResult> = Vec::new();
            members.push(r);
            groups.push(Group { name: r.name.clone(), results: members });
            proof {
                assert(!names_in_order(before).contains(r.name@));
                assert(names_in_order(now) == names_in_order(before).push(r.name@));
                assert forall|j: int| 0 <= j < groups@.len() implies {
                    &&& (#[trigger] groups@[j]).name@ == names_in_order(now)[j]
                    &&& groups@[j].members() == records_named(now, names_in_order(now)[j])
                } by {
                    if j == g {
                        assert(groups@[j].members() =~= Seq::<BenchResult>::empty().push(*r));
                    } else {
                        assert(groups@[j] == old_groups[j]);
                        assert(old_groups[j].members() == records_named(
                            before,
                            names_in_order(before)[j],
                        ));
                        assert(names_in_order(before).contains(names_in_order(before)[j]));
                    }
                }
            }
        }
        i += 1;
    }
    assert(results@.take(n as int) =~= results@);
    groups
}

/// The metrics of a record, in the order in which a summary lists them.
#[derive(Clone, Copy, Debug, PartialEq, Eq, Structural)]
pub enum Metric {
    /// The number of operations.
    Ops,
    /// The time per operation, in nanoseconds.
    Duration,
    /// The allocations per operation.
    AllocsPerOp,
    /// The bytes per operation.
    BytesPerOp,
}

impl Metric {
    /// The place of the metric in a summary.
    pub open spec fn rank(self) -> int {
        match self {
            Metric::Ops => 0,
            Metric::Duration => 1,
            Metric::AllocsPerOp => 2,
            Metric::BytesPerOp => 3,
        }
    }

    /// What the record `r` has for the metric.
    pub open spec fn of(self, r: BenchResult) -> Option<usize> {
        match self {
            Metric::Ops => r.ops,
            Metric::Duration => r.duration_ns,
            Metric::AllocsPerOp => r.allocs_per_op,
            Metric::BytesPerOp => r.bytes_per_op,
        }
    }

    /// The text that names the metric in a summary.
    pub open spec fn label_text(self) -> Seq<char> {
        match self {
            Metric::Ops => "ops"@,
            Metric::Duration => "ns/op"@,
            Metric::AllocsPerOp => "allocs/op"@,
            Metric::BytesPerOp => "B/op"@,
        }
    }

    /// The metric that has the place `rank` in a summary.
    pub open spec fn with_rank(rank: int) -> Metric {
        if rank == 0 {
            Metric::Ops
        } else if rank == 1 {
            Metric::Duration
        } else if rank == 2 {
            Metric::AllocsPerOp
        } else {
            Metric::BytesPerOp
        }
    }

    /// The metric that has the place `rank` in a summary.
    fn at(rank: usize) -> (m: Metric)
        requires
            rank < 4,
        ensures
            m == Metric::with_rank(rank as int),
            m.rank() == rank,
    {
        if rank == 0 {
            Metric::Ops
        } else if rank == 1 {
            Metric::Duration
        } else if rank == 2 {
            Metric::AllocsPerOp
        } else {
            Metric::BytesPerOp
        }
    }

    /// What the record `r` has for the metric.
    pub fn get(self, r: &BenchResult) -> (v: Option<usize>)
        ensures
            v == self.of(*r),
    {
        match self {
            Metric::Ops => r.ops,
            Metric::Duration => r.duration_ns,
            Metric::AllocsPerOp => r.allocs_per_op,
            Metric::BytesPerOp => r.bytes_per_op,
        }
    }

    /// The text that names the metric in a summary.
    pub fn label(self) -> (text: &'static str)
        ensures
            text@ == self.label_text(),
    {
        match self {
            Metric::Ops => "ops",
            Metric::Duration => "ns/op",
            Metric::AllocsPerOp => "allocs/op",
            Metric::BytesPerOp => "B/op",
        }
    }
}

/// The column of a metric: the values of the records that have one, in the
/// order of the records.
pub open spec fn column(rs: Seq<BenchResult>, m: Metric) -> Seq<usize>
    decreases rs.len(),
{
    if rs.len() == 0 {
        Seq::empty()
    } else {
        let before = column(rs.drop_last(), m);
        match m.of(rs.last()) {
            Some(v) => before.push(v),
            None => before,
        }
    }
}

/// A column has a value exactly where some record has the metric: the
/// records without it take no part.
pub proof fn lemma_column_from_those_present(rs: Seq<BenchResult>, m: Metric)
    ensures
        column(rs, m).len() > 0 <==> exists|i: int| 0 <= i < rs.len() && m.of(#[trigger] rs[i]) is Some,
        column(rs, m).len() <= rs.len(),
    decreases rs.len(),
{
    if rs.len() > 0 {
        let front = rs.drop_last();
        lemma_column_from_those_present(front, m);
        if column(front, m).len() > 0 {
            let i = choose|i: int| 0 <= i < front.len() && m.of(#[trigger] front[i]) is Some;
            assert(m.of(rs[i]) is Some);
        }
        if m.of(rs.last()) is Some {
            assert(m.of(rs[rs.len() - 1]) is Some);
        }
        if exists|i: int| 0 <= i < rs.len() && m.of(#[trigger] rs[i]) is Some {
            let i = choose|i: int| 0 <= i < rs.len() && m.of(#[trigger] rs[i]) is Some;
            if i < rs.len() - 1 {
                assert(m.of(front[i]) is Some);
            }
        }
    }
}

/// The summary of one metric of a group.
#[derive(Clone, Copy, Debug, PartialEq, Eq, Structural)]
pub struct MetricStats {
    /// The metric.
    pub metric: Metric,
    /// The summary of its column.
    pub stats: Stats,
}

impl MetricStats {
    /// The row summarises the column of its metric in `rs`.
    #[verifier::opaque]
    pub open spec fn describes(self, rs: Seq<BenchResult>) -> bool {
        self.stats.summarizes(column(rs, self.metric))
    }
}

/// The metrics among the first `upto` that some record of `rs` has, in
/// their order.
pub open spec fn metrics_present(rs: Seq<BenchResult>, upto: int) -> Seq<Metric>
    decreases upto,
{
    if upto <= 0 {
        Seq::empty()
    } else {
        let before = metrics_present(rs, upto - 1);
        if column(rs, Metric::with_rank(upto - 1)).len() > 0 {
            before.push(Metric::with_rank(upto - 1))
        } else {
            before
        }
    }
}

/// The metrics present are those, and only those, that some record has,
/// each once and in the order of their rank.
pub proof fn lemma_metrics_present(rs: Seq<BenchResult>, upto: int)
    requires
        0 <= upto <= 4,
    ensures
        forall|j: int, k: int|
            0 <= j < k < metrics_present(rs, upto).len() ==> metrics_present(rs, upto)[j].rank()
                < metrics_present(rs, upto)[k].rank(),
        forall|k: int|
            0 <= k < metrics_present(rs, upto).len() ==> {
                &&& (#[trigger] metrics_present(rs, upto)[k]).rank() < upto
                &&& column(rs, metrics_present(rs, upto)[k]).len() > 0
            },
        forall|m: Metric|
            m.rank() < upto && column(rs, m).len() > 0 ==> #[trigger] metrics_present(
                rs,
                upto,
            ).contains(m),
    decreases upto,
{
    if upto > 0 {
        lemma_metrics_present(rs, upto - 1);
        let before = metrics_present(rs, upto - 1);
        let now = metrics_present(rs, upto);
        let last = Metric::with_rank(upto - 1);
        assert forall|m: Metric| m.rank() < upto && column(rs, m).len() > 0 implies now.contains(
            m,
        ) by {
            if m.rank() < upto - 1 {
                assert(before.contains(m));
                let k = choose|k: int| 0 <= k < before.len() && before[k] == m;
                assert(now[k] == m);
            } else {
                assert(m == last);
                assert(now[before.len() as int] == m);
            }
        }
    }
}

/// `rows` is the summary of the records `rs`: one row for each metric that
/// some record has, in the order of the metrics, each row summarising the
/// column of its metric.
pub open spec fn is_summary_table(rows: Seq<MetricStats>, rs: Seq<BenchResult>) -> bool {
    &&& rows.len() == metrics_present(rs, 4).len()
    &&& forall|k: int|
        0 <= k < rows.len() ==> {
            &&& (#[trigger] rows[k]).metric == metrics_present(rs, 4)[k]
            &&& rows[k].describes(rs)
        }
}

impl<'a> Group<'a> {
    /// The column of the metric `m` in this group.
    pub fn values(&self, m: Metric) -> (v: Vec<usize>)
        ensures
            v@ == column(self.members(), m),
    {
        let mut v: Vec<usize> = Vec::new();
        let n: usize = self.results.len();
        let mut i: usize = 0;
        while i < n
            invariant
                n == self.results@.len(),
                0 <= i <= n,
                v@ == column(self.members().take(i as int), m),
            decreases n - i,
        {
            proof {
                assert(self.members().take(i + 1).drop_last() =~= self.members().take(i as int));
                assert(self.members().take(i + 1).last() == *self.results@[i as int]);
            }
            match m.get(self.results[i]) {
                Some(x) => {
                    v.push(x);
                },
                None => {},
            }
            i += 1;
        }
        assert(self.members().take(n as int) =~= self.members());
        v
    }

    /// Summarises the column of one metric: no row where no record has the
    /// metric, an error where the sum of the column does not fit in a
    /// `usize`.
    pub fn row(&self, metric: Metric) -> (r: Result<Option<MetricStats>, StatsError>)
        ensures
            match r {
                Ok(Some(row)) => {
                    &&& row.metric == metric
                    &&& row.describes(self.members())
                    &&& column(self.members(), metric).len() > 0
                },
                Ok(None) => column(self.members(), metric).len() == 0,
                Err(e) => e == StatsError::SumOverflow,
            },
            r is Err <==> total(column(self.members(), metric)) > usize::MAX,
    {
        let values: Vec<usize> = self.values(metric);
        match Stats::from_iter(values.as_slice()) {
            Ok(Some(stats)) => {
                let row = MetricStats { metric, stats };
                proof {
                    reveal(MetricStats::describes);
                }
                Ok(Some(row))
            },
            Ok(None) => Ok(None),
            Err(e) => Err(e),
        }
    }

    /// Summarises each metric of the group by itself, from the records that
    /// have it.
    ///
    /// A metric that no record has gets no row. The work fails exactly where
    /// the sum of some column does not fit in a `usize`.
    pub fn summarize(&self) -> (r: Result<Vec<MetricStats>, StatsError>)
        ensures
            match r {
                Ok(rows) => is_summary_table(rows@, self.members()),
                Err(e) => e == StatsError::SumOverflow,
            },
            r is Err <==> exists|m: Metric| total(column(self.members(), m)) > usize::MAX,
    {
        let mut rows: Vec<MetricStats> = Vec::new();
        let ghost rs: Seq<BenchResult> = self.members();
        let mut rank: usize = 0;
        while rank < 4
            invariant
                0 <= rank <= 4,
                rs == self.members(),
                rows@.len() == metrics_present(rs, rank as int).len(),
                forall|k: int|
                    0 <= k < rows@.len() ==> {
                        &&& (#[trigger] rows@[k]).metric == metrics_present(rs, rank as int)[k]
                        &&& rows@[k].describes(rs)
                    },
                forall|i: int|
                    0 <= i < rank ==> total(column(rs, #[trigger] Metric::with_rank(i)))
                        <= usize::MAX,
            decreases 4 - rank,
        {
            let ghost before = rows@;
            assert(metrics_present(rs, rank + 1) == if column(
                rs,
                Metric::with_rank(rank as int),
            ).len() > 0 {
                metrics_present(rs, rank as int).push(Metric::with_rank(rank as int))
            } else {
                metrics_present(rs, rank as int)
            });
            match self.row(Metric::at(rank)) {
                Ok(Some(row)) => {
                    rows.push(row);
                    assert forall|k: int| 0 <= k < rows@.len() implies {
                        &&& (#[trigger] rows@[k]).metric == metrics_present(rs, rank + 1)[k]
                        &&& rows@[k].describes(rs)
                    } by {
                        if k < before.len() {
                            assert(rows@[k] == before[k]);
                        }
                    }
                },
                Ok(None) => {},
                Err(e) => {
                    return Err(e);
                },
            }
            rank += 1;
        }
        proof {
            assert forall|m: Metric| total(column(rs, m)) <= usize::MAX by {
                assert(Metric::with_rank(m.rank()) == m);
            }
        }
        Ok(rows)
    }
}

} // verus!
