use gobench_stats::matcher::{find_layout, BenchResult, Field, Layout, Matcher, MemLayout, ParseError};

fn record(
    name: &str,
    parallelism: Option<usize>,
    ops: usize,
    duration_ns: usize,
    mem: Option<(usize, usize)>,
) -> BenchResult {
    BenchResult {
        name: name.to_string(),
        parallelism,
        ops: Some(ops),
        duration_ns: Some(duration_ns),
        bytes_per_op: mem.map(|m| m.0),
        allocs_per_op: mem.map(|m| m.1),
    }
}

fn matched(line: &str) -> BenchResult {
    Matcher::new().process_line(line).unwrap().unwrap()
}

fn lines(texts: &[&str]) -> Vec<String> {
    texts.iter().map(|t| t.to_string()).collect()
}

#[test]
fn line_with_parallelism() {
    let r = Matcher::new().process_line("BenchmarkFoo-4 1000000 123 ns/op");
    assert_eq!(r, Ok(Some(record("Foo", Some(4), 1000000, 123, None))));
    let b = r.unwrap().unwrap();
    assert_eq!(b.name, "Foo");
    assert_eq!(b.parallelism, Some(4));
    assert_eq!(b.ops, Some(1000000));
    assert_eq!(b.duration_ns, Some(123));
    assert_eq!(b.bytes_per_op, None);
    assert_eq!(b.allocs_per_op, None);
}

#[test]
fn line_with_memory_figures() {
    let r = Matcher::new().process_line("BenchmarkBar 500 45.6 ns/op 128 B/op 3 allocs/op");
    assert_eq!(r, Ok(Some(record("Bar", None, 500, 46, Some((128, 3))))));
}

#[test]
fn other_lines_give_no_record() {
    let m = Matcher::new();
    for line in [
        "",
        "PASS",
        "goos: linux",
        "ok  \texample.com/pkg\t1.234s",
        "benchmarkFoo 10 20 ns/op",
        " BenchmarkFoo 10 20 ns/op",
        "Benchmar",
        "xBenchmarkFoo 10 20 ns/op",
        "Bench markFoo 10 20 ns/op",
    ] {
        assert_eq!(m.process_line(line), Ok(None), "{:?}", line);
    }
}

#[test]
fn benchmark_lines_that_break_the_grammar() {
    let m = Matcher::new();
    for line in [
        "Benchmark",
        "Benchmark 10 20 ns/op",
        "Benchmark-4 10 20 ns/op",
        "BenchmarkFoo",
        "BenchmarkFoo 10",
        "BenchmarkFoo 10 20",
        "BenchmarkFoo- 10 20 ns/op",
        "BenchmarkFoo-x 10 20 ns/op",
        "BenchmarkFoo-4x 10 20 ns/op",
        "BenchmarkFoo-4-8 10 20 ns/op",
        "BenchmarkFoo x 20 ns/op",
        "BenchmarkFoo 10x 20 ns/op",
        "BenchmarkFoo 1.5 20 ns/op",
        "BenchmarkFoo 10 20  ns/op",
        "BenchmarkFoo 10 20ns/op",
        "BenchmarkFoo 10 20 ms/op",
        "BenchmarkFoo 10 20 ns/o",
        "BenchmarkFoo 10 20. ns/op",
        "BenchmarkFoo 10 .5 ns/op",
        "BenchmarkFoo 10 2.5.1 ns/op",
        "BenchmarkFoo 10 -2 ns/op",
        "BenchmarkFoo 10 20 ns/op ",
        "BenchmarkFoo 10 20 ns/opx",
        "BenchmarkFoo 10 20 ns/op 5 B/op",
        "BenchmarkFoo 10 20 ns/op 5 B/op ",
        "BenchmarkFoo 10 20 ns/op 5 B/op 7",
        "BenchmarkFoo 10 20 ns/op 5 B/op 7 allocs",
        "BenchmarkFoo 10 20 ns/op 5 allocs/op",
        "BenchmarkFoo 10 20 ns/op 5 B/op 7 allocs/op ",
        "BenchmarkFoo 10 20 ns/op 5 B/op 7 allocs/op 3 MB/s",
        "BenchmarkFoo 10 20 ns/op 5  B/op 7 allocs/op",
        "BenchmarkFoo 10 20 ns/op 5 B/op 7  allocs/op",
        "BenchmarkFoo 10 20 ns/op5 B/op 7 allocs/op",
        "BenchmarkFoo 10 20 ns/op 5 B/op7 allocs/op",
        "BenchmarkFoo 10 20 ns/op 5.5 B/op 7 allocs/op",
        "BenchmarkFoo 10 20 ns/op 5 B/op 7.5 allocs/op",
        "BenchmarkFoo\u{0661} \u{0661} 20 ns/op",
    ] {
        assert_eq!(m.process_line(line), Ok(None), "{:?}", line);
    }
}

#[test]
fn time_is_rounded_to_whole_nanoseconds() {
    for (text, expected) in [
        ("45", 45),
        ("45.0", 45),
        ("45.4", 45),
        ("45.49", 45),
        ("45.499999999999999999999999", 45),
        ("45.5", 46),
        ("45.50", 46),
        ("45.6", 46),
        ("45.99", 46),
        ("0.5", 1),
        ("0.05", 0),
        ("0.4", 0),
        ("9.99", 10),
        ("0", 0),
        ("007.50", 8),
    ] {
        let line = format!("BenchmarkFoo 1 {} ns/op", text);
        assert_eq!(matched(&line).duration_ns, Some(expected), "{:?}", text);
    }
}

#[test]
fn white_space_between_the_parts() {
    let line = "BenchmarkFoo-8   \t 1000000\t      1234 ns/op\t     128 B/op\t       3 allocs/op";
    assert_eq!(matched(line), record("Foo", Some(8), 1000000, 1234, Some((128, 3))));
    let tabs = "BenchmarkFoo-8\t \t1000\t\t2.50\tns/op\t 16\tB/op\t  1\tallocs/op";
    assert_eq!(matched(tabs), record("Foo", Some(8), 1000, 3, Some((16, 1))));
    let wide = "BenchmarkFoo\u{a0}7\u{2003}8\u{3000}ns/op";
    assert_eq!(matched(wide), record("Foo", None, 7, 8, None));
}

#[test]
fn names_may_hold_anything_but_white_space_and_dash() {
    assert_eq!(matched("BenchmarkFoo/bar_baz.Qux-16 1 2 ns/op").name, "Foo/bar_baz.Qux");
    assert_eq!(matched("Benchmark1 1 2 ns/op").name, "1");
    assert_eq!(matched("BenchmarkBenchmark 1 2 ns/op").name, "Benchmark");
    assert_eq!(matched("Benchmark\u{dc}ber\u{2014}x-2 1 2 ns/op").name, "\u{dc}ber\u{2014}x");
    assert_eq!(matched("Benchmark\u{0661}-3 1 2 ns/op").parallelism, Some(3));
}

#[test]
fn numbers_with_leading_zeros() {
    assert_eq!(
        matched("BenchmarkFoo-004 0010 000 ns/op 00 B/op 01 allocs/op"),
        record("Foo", Some(4), 10, 0, Some((0, 1)))
    );
}

#[test]
fn largest_numbers_that_fit() {
    let max = usize::MAX;
    let line = format!("BenchmarkFoo-{max} {max} {max} ns/op {max} B/op {max} allocs/op");
    assert_eq!(matched(&line), record("Foo", Some(max), max, max, Some((max, max))));
    let rounded_down = format!("BenchmarkFoo 1 {max}.4 ns/op");
    assert_eq!(matched(&rounded_down).duration_ns, Some(max));
    let padded = format!("BenchmarkFoo 000000{max} 1 ns/op");
    assert_eq!(matched(&padded).ops, Some(max));
}

#[test]
fn numbers_that_do_not_fit_are_errors() {
    let m = Matcher::new();
    let big = format!("{}0", usize::MAX);
    let next = (usize::MAX as u128 + 1).to_string();
    for too_large in [big.as_str(), next.as_str(), "99999999999999999999999999999999999999999"] {
        assert_eq!(
            m.process_line(&format!("BenchmarkFoo-{too_large} 1 1 ns/op")),
            Err(ParseError::TooLarge(Field::Parallelism))
        );
        assert_eq!(
            m.process_line(&format!("BenchmarkFoo-1 {too_large} 1 ns/op")),
            Err(ParseError::TooLarge(Field::Ops))
        );
        assert_eq!(
            m.process_line(&format!("BenchmarkFoo-1 1 {too_large} ns/op")),
            Err(ParseError::TooLarge(Field::Duration))
        );
        assert_eq!(
            m.process_line(&format!("BenchmarkFoo-1 1 {too_large}.25 ns/op 1 B/op 1 allocs/op")),
            Err(ParseError::TooLarge(Field::Duration))
        );
        assert_eq!(
            m.process_line(&format!("BenchmarkFoo 1 1 ns/op {too_large} B/op 1 allocs/op")),
            Err(ParseError::TooLarge(Field::BytesPerOp))
        );
        assert_eq!(
            m.process_line(&format!("BenchmarkFoo 1 1 ns/op 1 B/op {too_large} allocs/op")),
            Err(ParseError::TooLarge(Field::AllocsPerOp))
        );
    }
}

#[test]
fn rounding_up_past_the_largest_number_is_an_error() {
    let line = format!("BenchmarkFoo 1 {}.5 ns/op", usize::MAX);
    assert_eq!(
        Matcher::new().process_line(&line),
        Err(ParseError::TooLarge(Field::Duration))
    );
}

#[test]
fn the_first_field_that_does_not_fit_is_named() {
    let m = Matcher::new();
    let big = "340282366920938463463374607431768211456";
    assert_eq!(
        m.process_line(&format!("BenchmarkFoo-{big} {big} {big} ns/op {big} B/op {big} allocs/op")),
        Err(ParseError::TooLarge(Field::Parallelism))
    );
    assert_eq!(
        m.process_line(&format!("BenchmarkFoo-2 {big} {big} ns/op {big} B/op {big} allocs/op")),
        Err(ParseError::TooLarge(Field::Ops))
    );
    assert_eq!(
        m.process_line(&format!("BenchmarkFoo {big} 1 ns/op 1 B/op {big} allocs/op")),
        Err(ParseError::TooLarge(Field::Ops))
    );
    assert_eq!(
        m.process_line(&format!("BenchmarkFoo 1 {big} ns/op {big} B/op {big} allocs/op")),
        Err(ParseError::TooLarge(Field::Duration))
    );
    assert_eq!(
        m.process_line(&format!("BenchmarkFoo 1 1 ns/op {big} B/op {big} allocs/op")),
        Err(ParseError::TooLarge(Field::BytesPerOp))
    );
}

#[test]
fn a_number_too_large_in_a_line_that_does_not_match_is_no_error() {
    let big = "340282366920938463463374607431768211456";
    assert_eq!(Matcher::new().process_line(&format!("BenchmarkFoo {big} 1 ns/op junk")), Ok(None));
    assert_eq!(Matcher::new().process_line(&format!("Foo {big} 1 ns/op")), Ok(None));
}

#[test]
fn layout_gives_the_place_of_every_part() {
    let s: Vec<char> = "BenchmarkFoo-4 1000000 123 ns/op".chars().collect();
    assert_eq!(
        find_layout(&s),
        Some(Layout {
            name_end: 12,
            par_end: 14,
            ops_start: 15,
            ops_end: 22,
            dur_start: 23,
            int_end: 26,
            dur_end: 26,
            mem: None,
        })
    );
    let t: Vec<char> = "BenchmarkBar 500 45.6 ns/op 128 B/op 3 allocs/op".chars().collect();
    assert_eq!(
        find_layout(&t),
        Some(Layout {
            name_end: 12,
            par_end: 12,
            ops_start: 13,
            ops_end: 16,
            dur_start: 17,
            int_end: 19,
            dur_end: 21,
            mem: Some(MemLayout { bytes_start: 28, bytes_end: 31, allocs_start: 37, allocs_end: 38 }),
        })
    );
    let none: Vec<char> = "BenchmarkBar 500 45.6 ns/op 128 B/op".chars().collect();
    assert_eq!(find_layout(&none), None);
}

#[test]
fn process_keeps_the_order_and_skips_other_lines() {
    let input = lines(&[
        "goos: linux",
        "goarch: amd64",
        "BenchmarkA-8   \t     100\t  10.5 ns/op",
        "",
        "BenchmarkB 200 20 ns/op 16 B/op 2 allocs/op",
        "some commentary",
        "BenchmarkA-8 300 30 ns/op",
        "PASS",
    ]);
    assert_eq!(
        Matcher::new().process(&input),
        Ok(vec![
            record("A", Some(8), 100, 11, None),
            record("B", None, 200, 20, Some((16, 2))),
            record("A", Some(8), 300, 30, None),
        ])
    );
}

#[test]
fn process_of_nothing_is_nothing() {
    assert_eq!(Matcher::new().process(&[]), Ok(vec![]));
    assert_eq!(Matcher::new().process(&lines(&["", "PASS", "\n"])), Ok(vec![]));
}

#[test]
fn process_takes_every_line_as_it_is_given() {
    let m = Matcher::new();
    assert_eq!(m.process(&lines(&["  BenchmarkA 1 2 ns/op"])), Ok(vec![]));
    for line in [
        " BenchmarkA 1 2 ns/op",
        "\tBenchmarkA 1 2 ns/op",
        "BenchmarkA 1 2 ns/op ",
        "BenchmarkA 1 2 ns/op\n",
        "BenchmarkA 1 2 ns/op\r",
        "BenchmarkA 1 2 ns/op\u{a0}",
        "\u{3000}BenchmarkA 1 2 ns/op 3 B/op 4 allocs/op",
        "BenchmarkA 1 2 ns/op 3 B/op 4 allocs/op\r\n",
    ] {
        assert_eq!(m.process_line(line), Ok(None), "{:?}", line);
        assert_eq!(m.process(&lines(&[line])), Ok(vec![]), "{:?}", line);
        assert_eq!(
            m.process(&lines(&["BenchmarkB 1 2 ns/op", line, "BenchmarkC 3 4 ns/op"])),
            Ok(vec![record("B", None, 1, 2, None), record("C", None, 3, 4, None)]),
            "{:?}",
            line
        );
    }
}

#[test]
fn process_gives_what_process_line_gives_of_each_line() {
    let m = Matcher::new();
    let input = lines(&[
        "BenchmarkA-2 1 2.5 ns/op",
        " BenchmarkA-2 1 2.5 ns/op",
        "",
        "BenchmarkB 7 8 ns/op 9 B/op 10 allocs/op",
        "BenchmarkB 7 8 ns/op 9 B/op",
        "BenchmarkA-2 3 4 ns/op",
    ]);
    let mut expected = vec![];
    for line in &input {
        if let Some(b) = m.process_line(line).unwrap() {
            expected.push(b);
        }
    }
    assert_eq!(expected.len(), 3);
    assert_eq!(m.process(&input), Ok(expected));
}

#[test]
fn a_line_that_does_not_match_as_given_gives_no_error() {
    let big = "340282366920938463463374607431768211456";
    let input = lines(&[
        &format!(" BenchmarkA {big} 2 ns/op"),
        &format!("BenchmarkB 1 {big} ns/op"),
    ]);
    assert_eq!(Matcher::new().process(&input), Err(ParseError::TooLarge(Field::Duration)));
    assert_eq!(Matcher::new().process(&input[..1]), Ok(vec![]));
}

#[test]
fn process_stops_at_the_first_error() {
    let big = "340282366920938463463374607431768211456";
    let input = lines(&[
        "BenchmarkA 1 2 ns/op",
        "not a benchmark",
        &format!("BenchmarkB 1 2 ns/op 3 B/op {big} allocs/op"),
        &format!("BenchmarkC-{big} 1 2 ns/op"),
        "BenchmarkD 1 2 ns/op",
    ]);
    assert_eq!(Matcher::new().process(&input), Err(ParseError::TooLarge(Field::AllocsPerOp)));
    assert_eq!(
        Matcher::new().process(&input[3..]),
        Err(ParseError::TooLarge(Field::Parallelism))
    );
    assert_eq!(
        Matcher::new().process(&input[..2]),
        Ok(vec![record("A", None, 1, 2, None)])
    );
}

#[test]
fn every_record_has_its_fields_in_pairs() {
    let input = lines(&[
        "BenchmarkA 1 2 ns/op",
        "BenchmarkB-2 1 2.5 ns/op 3 B/op 4 allocs/op",
    ]);
    for b in Matcher::new().process(&input).unwrap() {
        assert!(!b.name.is_empty());
        assert_eq!(b.ops.is_some(), b.duration_ns.is_some());
        assert_eq!(b.bytes_per_op.is_some(), b.allocs_per_op.is_some());
    }
}
