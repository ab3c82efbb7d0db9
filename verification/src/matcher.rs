//! The line matcher: from one line of benchmark output to one record.
//!
//! A benchmark line reads, from its first character to its last:
//!
//! 1. the text `Benchmark`;
//! 2. the name: one or more characters, none of them white space or `-`;
//! 3. optionally `-` and one or more digits: the parallelism;
//! 4. white space and one or more digits: the number of operations;
//! 5. white space, one or more digits, optionally `.` and one or more
//!    digits: the time per operation; then one white space character and the
//!    text `ns/op`;
//! 6. optionally, and only as a whole: white space, digits, one white space
//!    character, `B/op`, white space, digits, one white space character,
//!    `allocs/op`.
//!
//! Digits are the ten digits `0` to `9`; white space is any character with
//! the Unicode property `White_Space`. A line has at most one such reading.
//! Any other line is no benchmark line: so is one with white space before
//! the prefix or after the last part.

use crate::text::{
    all_of, chars_of, decimal_value, has_literal, is_run, is_space, lemma_run_end_unique,
    literal_end, parse_decimal, rounded_value, scan, CharClass,
};
use vstd::prelude::*;

verus! {

/// The text that every benchmark line begins with.
pub open spec fn prefix_text() -> Seq<char> {
    "Benchmark"@
}

/// The unit that follows the time per operation.
pub open spec fn time_unit() -> Seq<char> {
    "ns/op"@
}

/// The unit that follows the bytes per operation.
pub open spec fn bytes_unit() -> Seq<char> {
    "B/op"@
}

/// The unit that follows the allocations per operation.
pub open spec fn allocs_unit() -> Seq<char> {
    "allocs/op"@
}

/// Where the two memory figures of a line stand.
#[derive(Clone, Copy, Debug, PartialEq, Eq, Structural)]
pub struct MemLayout {
    /// Start of the digits of the bytes per operation.
    pub bytes_start: usize,
    /// End of the digits of the bytes per operation.
    pub bytes_end: usize,
    /// Start of the digits of the allocations per operation.
    pub allocs_start: usize,
    /// End of the digits of the allocations per operation.
    pub allocs_end: usize,
}

/// Where the parts of a benchmark line stand: positions counted in
/// characters, each end being the position after the last character.
#[derive(Clone, Copy, Debug, PartialEq, Eq, Structural)]
pub struct Layout {
    /// End of the name, which starts after the prefix.
    pub name_end: usize,
    /// End of the digits of the parallelism, or `name_end` where the line has
    /// none.
    pub par_end: usize,
    /// Start of the digits of the number of operations.
    pub ops_start: usize,
    /// End of the digits of the number of operations.
    pub ops_end: usize,
    /// Start of the time per operation.
    pub dur_start: usize,
    /// End of the digits before the decimal point.
    pub int_end: usize,
    /// End of the digits after the decimal point, or `int_end` where the time
    /// has no fraction.
    pub dur_end: usize,
    /// The memory figures, where the line has them.
    pub mem: Option<MemLayout>,
}

impl Layout {
    /// The line gives a parallelism.
    pub open spec fn has_parallelism(self) -> bool {
        self.par_end != self.name_end
    }

    /// The time per operation has a fraction.
    pub open spec fn has_fraction(self) -> bool {
        self.dur_end != self.int_end
    }

    /// The position after the time unit.
    pub open spec fn unit_end(self) -> int {
        self.dur_end + 1 + time_unit().len()
    }
}

/// The prefix, the name and the parallelism stand where `l` says.
pub open spec fn name_part(s: Seq<char>, l: Layout) -> bool {
    &&& has_literal(s, 0, prefix_text())
    &&& is_run(s, prefix_text().len() as int, l.name_end as int, CharClass::Name)
    &&& if l.has_parallelism() {
        &&& l.name_end < s.len()
        &&& s[l.name_end as int] == '-'
        &&& is_run(s, l.name_end + 1, l.par_end as int, CharClass::Digit)
    } else {
        true
    }
}

/// The number of operations stands where `l` says.
pub open spec fn count_part(s: Seq<char>, l: Layout) -> bool {
    &&& is_run(s, l.par_end as int, l.ops_start as int, CharClass::Space)
    &&& is_run(s, l.ops_start as int, l.ops_end as int, CharClass::Digit)
}

/// The time per operation and its unit stand where `l` says.
pub open spec fn time_part(s: Seq<char>, l: Layout) -> bool {
    &&& is_run(s, l.ops_end as int, l.dur_start as int, CharClass::Space)
    &&& is_run(s, l.dur_start as int, l.int_end as int, CharClass::Digit)
    &&& if l.has_fraction() {
        &&& l.int_end < s.len()
        &&& s[l.int_end as int] == '.'
        &&& is_run(s, l.int_end + 1, l.dur_end as int, CharClass::Digit)
    } else {
        true
    }
    &&& l.dur_end < s.len()
    &&& is_space(s[l.dur_end as int])
    &&& has_literal(s, l.dur_end + 1, time_unit())
}

/// The memory figures stand where `m` says: they begin at `from` and end
/// with the line.
pub open spec fn memory_part(s: Seq<char>, from: int, m: MemLayout) -> bool {
    &&& is_run(s, from, m.bytes_start as int, CharClass::Space)
    &&& is_run(s, m.bytes_start as int, m.bytes_end as int, CharClass::Digit)
    &&& m.bytes_end < s.len()
    &&& is_space(s[m.bytes_end as int])
    &&& has_literal(s, m.bytes_end + 1, bytes_unit())
    &&& is_run(
        s,
        m.bytes_end + 1 + bytes_unit().len(),
        m.allocs_start as int,
        CharClass::Space,
    )
    &&& is_run(s, m.allocs_start as int, m.allocs_end as int, CharClass::Digit)
    &&& m.allocs_end < s.len()
    &&& is_space(s[m.allocs_end as int])
    &&& has_literal(s, m.allocs_end + 1, allocs_unit())
    &&& m.allocs_end + 1 + allocs_unit().len() == s.len()
}

/// `s` is a benchmark line whose parts stand where `l` says.
pub open spec fn is_layout(s: Seq<char>, l: Layout) -> bool {
    &&& name_part(s, l)
    &&& count_part(s, l)
    &&& time_part(s, l)
    &&& match l.mem {
        Some(m) => memory_part(s, l.unit_end(), m),
        None => l.unit_end() == s.len(),
    }
}

/// `s` is a benchmark line.
pub open spec fn line_matches(s: Seq<char>) -> bool {
    exists|l: Layout| is_layout(s, l)
}

/// A benchmark line can be read in one way only.
pub proof fn lemma_layout_unique(s: Seq<char>, a: Layout, b: Layout)
    requires
        is_layout(s, a),
        is_layout(s, b),
    ensures
        a == b,
{
    let p: int = prefix_text().len() as int;
    lemma_run_end_unique(s, p, a.name_end as int, b.name_end as int, CharClass::Name);
    if a.has_parallelism() {
        assert(b.has_parallelism());
        lemma_run_end_unique(
            s,
            a.name_end + 1,
            a.par_end as int,
            b.par_end as int,
            CharClass::Digit,
        );
    }
    assert(a.par_end == b.par_end);
    lemma_run_end_unique(
        s,
        a.par_end as int,
        a.ops_start as int,
        b.ops_start as int,
        CharClass::Space,
    );
    lemma_run_end_unique(
        s,
        a.ops_start as int,
        a.ops_end as int,
        b.ops_end as int,
        CharClass::Digit,
    );
    lemma_run_end_unique(
        s,
        a.ops_end as int,
        a.dur_start as int,
        b.dur_start as int,
        CharClass::Space,
    );
    lemma_run_end_unique(
        s,
        a.dur_start as int,
        a.int_end as int,
        b.int_end as int,
        CharClass::Digit,
    );
    if a.has_fraction() {
        assert(b.has_fraction());
        lemma_run_end_unique(
            s,
            a.int_end + 1,
            a.dur_end as int,
            b.dur_end as int,
            CharClass::Digit,
        );
    }
    assert(a.dur_end == b.dur_end);
    match (a.mem, b.mem) {
        (Some(ma), Some(mb)) => {
            lemma_memory_unique(s, a.unit_end(), ma, mb);
        },
        _ => {},
    }
}

proof fn lemma_memory_unique(s: Seq<char>, from: int, a: MemLayout, b: MemLayout)
    requires
        memory_part(s, from, a),
        memory_part(s, from, b),
    ensures
        a == b,
{
    lemma_run_end_unique(s, from, a.bytes_start as int, b.bytes_start as int, CharClass::Space);
    lemma_run_end_unique(
        s,
        a.bytes_start as int,
        a.bytes_end as int,
        b.bytes_end as int,
        CharClass::Digit,
    );
    lemma_run_end_unique(
        s,
        a.bytes_end + 1 + bytes_unit().len(),
        a.allocs_start as int,
        b.allocs_start as int,
        CharClass::Space,
    );
    lemma_run_end_unique(
        s,
        a.allocs_start as int,
        a.allocs_end as int,
        b.allocs_end as int,
        CharClass::Digit,
    );
}

/// Reads the memory figures that begin at `from` and end with the line.
fn find_memory(s: &Vec<char>, from: usize) -> (r: Option<MemLayout>)
    requires
        from <= s@.len(),
    ensures
        match r {
            Some(m) => memory_part(s@, from as int, m),
            None => forall|m: MemLayout| !memory_part(s@, from as int, m),
        },
{
    let n: usize = s.len();
    let bytes_start: usize = scan(s, from, CharClass::Space);
    proof {
        assert forall|m: MemLayout| memory_part(s@, from as int, m) implies m.bytes_start
            == bytes_start by {
            lemma_run_end_unique(
                s@,
                from as int,
                m.bytes_start as int,
                bytes_start as int,
                CharClass::Space,
            );
        }
    }
    if bytes_start == from {
        return None;
    }
    let bytes_end: usize = scan(s, bytes_start, CharClass::Digit);
    proof {
        assert forall|m: MemLayout| memory_part(s@, from as int, m) implies m.bytes_end
            == bytes_end by {
            lemma_run_end_unique(
                s@,
                bytes_start as int,
                m.bytes_end as int,
                bytes_end as int,
                CharClass::Digit,
            );
        }
    }
    if bytes_end == bytes_start || bytes_end >= n || !CharClass::Space.contains(s[bytes_end]) {
        return None;
    }
    let unit_end: usize = match literal_end(s, bytes_end + 1, "B/op") {
        Some(e) => e,
        None => {
            return None;
        },
    };
    let allocs_start: usize = scan(s, unit_end, CharClass::Space);
    proof {
        assert forall|m: MemLayout| memory_part(s@, from as int, m) implies m.allocs_start
            == allocs_start by {
            lemma_run_end_unique(
                s@,
                unit_end as int,
                m.allocs_start as int,
                allocs_start as int,
                CharClass::Space,
            );
        }
    }
    if allocs_start == unit_end {
        return None;
    }
    let allocs_end: usize = scan(s, allocs_start, CharClass::Digit);
    proof {
        assert forall|m: MemLayout| memory_part(s@, from as int, m) implies m.allocs_end
            == allocs_end by {
            lemma_run_end_unique(
                s@,
                allocs_start as int,
                m.allocs_end as int,
                allocs_end as int,
                CharClass::Digit,
            );
        }
    }
    if allocs_end == allocs_start || allocs_end >= n || !CharClass::Space.contains(s[allocs_end]) {
        return None;
    }
    match literal_end(s, allocs_end + 1, "allocs/op") {
        Some(e) => {
            if e == n {
                Some(MemLayout { bytes_start, bytes_end, allocs_start, allocs_end })
            } else {
                None
            }
        },
        None => None,
    }
}

/// Reads `s` as a benchmark line: where its parts stand, or `None` where it
/// is no benchmark line.
pub fn find_layout(s: &Vec<char>) -> (r: Option<Layout>)
    ensures
        match r {
            Some(l) => is_layout(s@, l),
            None => !line_matches(s@),
        },
{
    let n: usize = s.len();
    let p: usize = match literal_end(s, 0, "Benchmark") {
        Some(e) => e,
        None => {
            return None;
        },
    };
    let name_end: usize = scan(s, p, CharClass::Name);
    proof {
        assert forall|l: Layout| is_layout(s@, l) implies l.name_end == name_end by {
            lemma_run_end_unique(
                s@,
                p as int,
                l.name_end as int,
                name_end as int,
                CharClass::Name,
            );
        }
    }
    if name_end == p {
        return None;
    }
    let mut par_end: usize = name_end;
    if name_end < n && s[name_end] == '-' {
        par_end = scan(s, name_end + 1, CharClass::Digit);
        proof {
            assert forall|l: Layout| is_layout(s@, l) implies l.par_end == par_end by {
                assert(l.has_parallelism());
                lemma_run_end_unique(
                    s@,
                    name_end + 1,
                    l.par_end as int,
                    par_end as int,
                    CharClass::Digit,
                );
            }
        }
        if par_end == name_end + 1 {
            return None;
        }
    }
    assert forall|l: Layout| is_layout(s@, l) implies l.par_end == par_end by {}
    let ops_start: usize = scan(s, par_end, CharClass::Space);
    proof {
        assert forall|l: Layout| is_layout(s@, l) implies l.ops_start == ops_start by {
            lemma_run_end_unique(
                s@,
                par_end as int,
                l.ops_start as int,
                ops_start as int,
                CharClass::Space,
            );
        }
    }
    if ops_start == par_end {
        return None;
    }
    let ops_end: usize = scan(s, ops_start, CharClass::Digit);
    proof {
        assert forall|l: Layout| is_layout(s@, l) implies l.ops_end == ops_end by {
            lemma_run_end_unique(
                s@,
                ops_start as int,
                l.ops_end as int,
                ops_end as int,
                CharClass::Digit,
            );
        }
    }
    if ops_end == ops_start {
        return None;
    }
    let dur_start: usize = scan(s, ops_end, CharClass::Space);
    proof {
        assert forall|l: Layout| is_layout(s@, l) implies l.dur_start == dur_start by {
            lemma_run_end_unique(
                s@,
                ops_end as int,
                l.dur_start as int,
                dur_start as int,
                CharClass::Space,
            );
        }
    }
    if dur_start == ops_end {
        return None;
    }
    let int_end: usize = scan(s, dur_start, CharClass::Digit);
    proof {
        assert forall|l: Layout| is_layout(s@, l) implies l.int_end == int_end by {
            lemma_run_end_unique(
                s@,
                dur_start as int,
                l.int_end as int,
                int_end as int,
                CharClass::Digit,
            );
        }
    }
    if int_end == dur_start {
        return None;
    }
    let mut dur_end: usize = int_end;
    if int_end < n && s[int_end] == '.' {
        dur_end = scan(s, int_end + 1, CharClass::Digit);
        proof {
            assert forall|l: Layout| is_layout(s@, l) implies l.dur_end == dur_end by {
                assert(l.has_fraction());
                lemma_run_end_unique(
                    s@,
                    int_end + 1,
                    l.dur_end as int,
                    dur_end as int,
                    CharClass::Digit,
                );
            }
        }
        if dur_end == int_end + 1 {
            return None;
        }
    }
    assert forall|l: Layout| is_layout(s@, l) implies l.dur_end == dur_end by {}
    if dur_end >= n || !CharClass::Space.contains(s[dur_end]) {
        return None;
    }
    let unit_end: usize = match literal_end(s, dur_end + 1, "ns/op") {
        Some(e) => e,
        None => {
            return None;
        },
    };
    let mem: Option<MemLayout> = if unit_end == n {
        None
    } else {
        match find_memory(s, unit_end) {
            Some(m) => Some(m),
            None => {
                return None;
            },
        }
    };
    Some(Layout { name_end, par_end, ops_start, ops_end, dur_start, int_end, dur_end, mem })
}

/// The numeric fields of a benchmark line, in the order in which they stand.
#[derive(Clone, Copy, Debug, PartialEq, Eq, Structural)]
pub enum Field {
    /// The parallelism.
    Parallelism,
    /// The number of operations.
    Ops,
    /// The time per operation.
    Duration,
    /// The bytes per operation.
    BytesPerOp,
    /// The allocations per operation.
    AllocsPerOp,
}

/// Why a benchmark line could not be turned into a record.
#[derive(Clone, Copy, Debug, PartialEq, Eq, Structural)]
pub enum ParseError {
    /// The number in this field does not fit in a `usize`.
    TooLarge(Field),
}

/// One measurement, as read from one benchmark line.
#[derive(Clone, Debug, PartialEq, Eq)]
pub struct BenchResult {
    /// The name of the benchmark.
    pub name: String,
    /// How many threads ran it, where the line says so.
    pub parallelism: Option<usize>,
    /// How many operations were run.
    pub ops: Option<usize>,
    /// The time per operation in whole nanoseconds.
    pub duration_ns: Option<usize>,
    /// The bytes allocated per operation.
    pub bytes_per_op: Option<usize>,
    /// The allocations per operation.
    pub allocs_per_op: Option<usize>,
}

/// What a benchmark line says, with numbers of any size.
pub ghost struct Record {
    /// The name of the benchmark.
    pub name: Seq<char>,
    /// How many threads ran it, where the line says so.
    pub parallelism: Option<nat>,
    /// How many operations were run.
    pub ops: Option<nat>,
    /// The time per operation in whole nanoseconds.
    pub duration_ns: Option<nat>,
    /// The bytes allocated per operation.
    pub bytes_per_op: Option<nat>,
    /// The allocations per operation.
    pub allocs_per_op: Option<nat>,
}

/// A field of a `BenchResult` as a natural number.
pub open spec fn as_nat(v: Option<usize>) -> Option<nat> {
    match v {
        Some(x) => Some(x as nat),
        None => None,
    }
}

impl View for BenchResult {
    type V = Record;

    open spec fn view(&self) -> Record {
        Record {
            name: self.name@,
            parallelism: as_nat(self.parallelism),
            ops: as_nat(self.ops),
            duration_ns: as_nat(self.duration_ns),
            bytes_per_op: as_nat(self.bytes_per_op),
            allocs_per_op: as_nat(self.allocs_per_op),
        }
    }
}

impl Record {
    /// What holds of every record that a benchmark line gives: the name is
    /// not empty and holds neither white space nor `-`, the number of
    /// operations and the time come together, and so do the two memory
    /// figures.
    pub open spec fn wf(self) -> bool {
        &&& self.name.len() > 0
        &&& all_of(self.name, 0, self.name.len() as int, CharClass::Name)
        &&& self.ops is Some <==> self.duration_ns is Some
        &&& self.bytes_per_op is Some <==> self.allocs_per_op is Some
    }

    /// The first field, in the order of the line, whose number does not fit
    /// in a `usize`.
    pub open spec fn first_oversize(self) -> Option<Field> {
        if self.parallelism matches Some(v) && v > usize::MAX {
            Some(Field::Parallelism)
        } else if self.ops matches Some(v) && v > usize::MAX {
            Some(Field::Ops)
        } else if self.duration_ns matches Some(v) && v > usize::MAX {
            Some(Field::Duration)
        } else if self.bytes_per_op matches Some(v) && v > usize::MAX {
            Some(Field::BytesPerOp)
        } else if self.allocs_per_op matches Some(v) && v > usize::MAX {
            Some(Field::AllocsPerOp)
        } else {
            None
        }
    }
}

/// What the benchmark line `s` says, its parts standing where `l` says.
pub open spec fn record_of(s: Seq<char>, l: Layout) -> Record {
    Record {
        name: s.subrange(prefix_text().len() as int, l.name_end as int),
        parallelism: if l.has_parallelism() {
            Some(decimal_value(s.subrange(l.name_end + 1, l.par_end as int)))
        } else {
            None
        },
        ops: Some(decimal_value(s.subrange(l.ops_start as int, l.ops_end as int))),
        duration_ns: Some(
            rounded_value(
                s.subrange(l.dur_start as int, l.int_end as int),
                if l.has_fraction() {
                    s.subrange(l.int_end + 1, l.dur_end as int)
                } else {
                    Seq::empty()
                },
            ),
        ),
        bytes_per_op: match l.mem {
            Some(m) => Some(decimal_value(s.subrange(m.bytes_start as int, m.bytes_end as int))),
            None => None,
        },
        allocs_per_op: match l.mem {
            Some(m) => Some(
                decimal_value(s.subrange(m.allocs_start as int, m.allocs_end as int)),
            ),
            None => None,
        },
    }
}

/// What one line gives: no record where it is no benchmark line, an error
/// where it is one and a number in it does not fit in a `usize`, and else
/// the record that it stands for.
pub open spec fn parse_line(s: Seq<char>) -> Result<Option<Record>, ParseError> {
    if line_matches(s) {
        let rec = record_of(s, choose|l: Layout| is_layout(s, l));
        match rec.first_oversize() {
            Some(f) => Err(ParseError::TooLarge(f)),
            None => Ok(Some(rec)),
        }
    } else {
        Ok(None)
    }
}

/// The outcome of matching a line, seen through the view of the record.
pub open spec fn outcome_view(r: Result<Option<BenchResult>, ParseError>) -> Result<
    Option<Record>,
    ParseError,
> {
    match r {
        Ok(Some(b)) => Ok(Some(b@)),
        Ok(None) => Ok(None),
        Err(e) => Err(e),
    }
}

/// A line whose parts stand where `l` says gives the record of that reading.
pub proof fn lemma_parse_line_by_layout(s: Seq<char>, l: Layout)
    requires
        is_layout(s, l),
    ensures
        line_matches(s),
        record_of(s, l).wf(),
        parse_line(s) == match record_of(s, l).first_oversize() {
            Some(f) => Err::<Option<Record>, ParseError>(ParseError::TooLarge(f)),
            None => Ok(Some(record_of(s, l))),
        },
{
    let c: Layout = choose|c: Layout| is_layout(s, c);
    lemma_layout_unique(s, l, c);
    let name = record_of(s, l).name;
    assert forall|i: int| 0 <= i < name.len() implies CharClass::Name.has(#[trigger] name[i]) by {
        assert(name[i] == s[prefix_text().len() + i]);
    }
}

/// A line that does not begin with `Benchmark` gives no record and no error.
pub proof fn lemma_other_lines_give_nothing(s: Seq<char>)
    requires
        !has_literal(s, 0, prefix_text()),
    ensures
        parse_line(s) == Ok::<Option<Record>, ParseError>(None),
{
}

/// The texts of the lines.
pub open spec fn texts(lines: Seq<String>) -> Seq<Seq<char>> {
    lines.map_values(|l: String| l@)
}

/// The records as what they say.
pub open spec fn record_views(rs: Seq<BenchResult>) -> Seq<Record> {
    rs.map_values(|b: BenchResult| b@)
}

/// The records of the benchmark lines among `lines`, each line taken as it
/// is given, in the order of the lines.
pub open spec fn records_of_lines(lines: Seq<Seq<char>>) -> Seq<Record>
    decreases lines.len(),
{
    if lines.len() == 0 {
        Seq::empty()
    } else {
        let before = records_of_lines(lines.drop_last());
        match parse_line(lines.last()) {
            Ok(Some(rec)) => before.push(rec),
            _ => before,
        }
    }
}

/// Lines read from several sources one after the other give the records of
/// the first source followed by those of the second.
pub proof fn lemma_records_of_lines_concat(a: Seq<Seq<char>>, b: Seq<Seq<char>>)
    ensures
        records_of_lines(a + b) == records_of_lines(a) + records_of_lines(b),
    decreases b.len(),
{
    if b.len() == 0 {
        assert(a + b =~= a);
        assert(records_of_lines(a) + records_of_lines(b) =~= records_of_lines(a));
    } else {
        lemma_records_of_lines_concat(a, b.drop_last());
        assert((a + b).drop_last() =~= a + b.drop_last());
        assert((a + b).last() == b.last());
        let x = records_of_lines(a);
        let y = records_of_lines(b.drop_last());
        match parse_line(b.last()) {
            Ok(Some(rec)) => {
                assert((x + y).push(rec) =~= x + y.push(rec));
            },
            _ => {},
        }
    }
}

/// Line `i` is the first of `lines` that gives an error, and the error is `e`.
pub open spec fn first_error_at(lines: Seq<Seq<char>>, i: int, e: ParseError) -> bool {
    &&& 0 <= i < lines.len()
    &&& parse_line(lines[i]) == Err::<Option<Record>, ParseError>(e)
    &&& forall|j: int| 0 <= j < i ==> (#[trigger] parse_line(lines[j])) is Ok
}

/// The line matcher.
///
/// It holds no state: the pattern that it matches is fixed.
#[derive(Clone, Copy, Debug, PartialEq, Eq, Structural)]
pub struct Matcher {}

impl Matcher {
    /// A matcher for benchmark lines.
    pub fn new() -> (m: Matcher)
        ensures
            m == (Matcher {  }),
    {
        Matcher {  }
    }

    /// Matches one line.
    ///
    /// The result is `Ok(None)` exactly for lines that are no benchmark
    /// lines, an error exactly for benchmark lines with a number that does
    /// not fit in a `usize` (the error names the first such field), and the
    /// record of the line in every other case. The time per operation is
    /// rounded to whole nanoseconds, a half and more rounded up.
    pub fn process_line(&self, line: &str) -> (r: Result<Option<BenchResult>, ParseError>)
        ensures
            outcome_view(r) == parse_line(line@),
            r matches Ok(Some(b)) ==> b@.wf(),
    {
        let s: Vec<char> = chars_of(line);
        let l: Layout = match find_layout(&s) {
            Some(l) => l,
            None => {
                return Ok(None);
            },
        };
        proof {
            lemma_parse_line_by_layout(s@, l);
        }
        let p: usize = "Benchmark".unicode_len();
        let parallelism: Option<usize> = if l.par_end != l.name_end {
            match parse_decimal(&s, l.name_end + 1, l.par_end) {
                Some(v) => Some(v),
                None => {
                    return Err(ParseError::TooLarge(Field::Parallelism));
                },
            }
        } else {
            None
        };
        let ops: usize = match parse_decimal(&s, l.ops_start, l.ops_end) {
            Some(v) => v,
            None => {
                return Err(ParseError::TooLarge(Field::Ops));
            },
        };
        let whole: usize = match parse_decimal(&s, l.dur_start, l.int_end) {
            Some(v) => v,
            None => {
                return Err(ParseError::TooLarge(Field::Duration));
            },
        };
        let round_up: bool = l.dur_end != l.int_end && (s[l.int_end + 1] as u32) >= 0x35;
        proof {
            if l.has_fraction() {
                assert(CharClass::Digit.has(s@[l.int_end + 1]));
                assert(s@.subrange(l.int_end + 1, l.dur_end as int)[0] == s@[l.int_end + 1]);
            }
        }
        let duration_ns: usize = if round_up {
            match whole.checked_add(1) {
                Some(v) => v,
                None => {
                    return Err(ParseError::TooLarge(Field::Duration));
                },
            }
        } else {
            whole
        };
        let mut bytes_per_op: Option<usize> = None;
        let mut allocs_per_op: Option<usize> = None;
        if let Some(m) = l.mem {
            match parse_decimal(&s, m.bytes_start, m.bytes_end) {
                Some(v) => {
                    bytes_per_op = Some(v);
                },
                None => {
                    return Err(ParseError::TooLarge(Field::BytesPerOp));
                },
            }
            match parse_decimal(&s, m.allocs_start, m.allocs_end) {
                Some(v) => {
                    allocs_per_op = Some(v);
                },
                None => {
                    return Err(ParseError::TooLarge(Field::AllocsPerOp));
                },
            }
        }
        let name: String = line.substring_char(p, l.name_end).to_owned();
        Ok(
            Some(
                BenchResult {
                    name,
                    parallelism,
                    ops: Some(ops),
                    duration_ns: Some(duration_ns),
                    bytes_per_op,
                    allocs_per_op,
                },
            ),
        )
    }

    /// Matches every line, from the first to the last, each as it is given:
    /// a line is handed over without its line end, and white space at either
    /// end of it is part of it.
    ///
    /// Lines that are no benchmark lines are passed over. The first line
    /// that gives an error ends the work, and its error is returned. Where
    /// no line gives one, the result holds the records of the benchmark
    /// lines in the order of the lines.
    pub fn process(&self, lines: &[String]) -> (r: Result<Vec<BenchResult>, ParseError>)
        ensures
            match r {
                Ok(results) => {
                    &&& forall|i: int|
                        0 <= i < lines@.len() ==> (#[trigger] parse_line(texts(lines@)[i])) is Ok
                    &&& record_views(results@) == records_of_lines(texts(lines@))
                    &&& forall|k: int| 0 <= k < results@.len() ==> (#[trigger] results@[k])@.wf()
                },
                Err(e) => exists|i: int| first_error_at(texts(lines@), i, e),
            },
    {
        let mut results: Vec<BenchResult> = Vec::new();
        let n: usize = lines.len();
        let ghost all: Seq<Seq<char>> = texts(lines@);
        let mut i: usize = 0;
        while i < n
            invariant
                n == lines@.len(),
                0 <= i <= n,
                all == texts(lines@),
                forall|j: int| 0 <= j < i ==> (#[trigger] parse_line(all[j])) is Ok,
                record_views(results@) == records_of_lines(all.take(i as int)),
                forall|k: int| 0 <= k < results@.len() ==> (#[trigger] results@[k])@.wf(),
            decreases n - i,
        {
            let outcome = self.process_line(lines[i].as_str());
            proof {
                assert(all[i as int] == lines@[i as int]@);
                assert(all.take(i + 1).drop_last() =~= all.take(i as int));
                assert(all.take(i + 1).last() == all[i as int]);
            }
            match outcome {
                Ok(Some(b)) => {
                    let ghost before = results@;
                    results.push(b);
                    assert(record_views(results@) =~= record_views(before).push(b@));
                },
                Ok(None) => {},
                Err(e) => {
                    assert(first_error_at(all, i as int, e));
                    return Err(e);
                },
            }
            i += 1;
        }
        assert(all.take(n as int) =~= all);
        Ok(results)
    }
}

} // verus!
