use station_stats::aggregate::{aggregate, chunk_stats, chunks, merge_into, split_once};
use station_stats::records::FormatError;
use station_stats::report::{key_less, render_stats};
use station_stats::stats::Stats;
use station_stats::summary::summarize;
use station_stats::table::StatsTable;
use station_stats::value::{parse_tenths, to_digit};

fn run(input: &str, n: usize) -> Result<String, FormatError> {
    summarize(input.as_bytes(), n).map(|out| String::from_utf8(out).unwrap())
}

#[test]
fn parses_accepted_shapes() {
    assert_eq!(parse_tenths(b"5.0"), Some(50));
    assert_eq!(parse_tenths(b"-9.8"), Some(-98));
    assert_eq!(parse_tenths(b"23.4"), Some(234));
    assert_eq!(parse_tenths(b"-99.9"), Some(-999));
    assert_eq!(parse_tenths(b"0.0"), Some(0));
}

#[test]
fn rejects_other_shapes() {
    assert_eq!(parse_tenths(b"1.23"), None);
    assert_eq!(parse_tenths(b"abc"), None);
    assert_eq!(parse_tenths(b""), None);
    assert_eq!(parse_tenths(b"12"), None);
    assert_eq!(parse_tenths(b"-.5"), None);
    assert_eq!(parse_tenths(b"-"), None);
    assert_eq!(parse_tenths(b"1a.2"), None);
    assert_eq!(parse_tenths(b"100.0"), None);
}

#[test]
fn digits() {
    assert_eq!(to_digit(b'0'), Some(0));
    assert_eq!(to_digit(b'7'), Some(7));
    assert_eq!(to_digit(b'a'), None);
}

#[test]
fn splits_at_first_delimiter() {
    let (a, b) = split_once(b"Berlin;8.5", b';').unwrap();
    assert_eq!(a, b"Berlin");
    assert_eq!(b, b"8.5");
    let (a, b) = split_once(b"a;b;c", b';').unwrap();
    assert_eq!(a, b"a");
    assert_eq!(b, b"b;c");
    assert!(split_once(b"NoSemicolon", b';').is_none());
}

fn check_plan(buf: &[u8], n: usize) {
    let r = chunks(buf, n);
    assert_eq!(r.len(), n);
    assert_eq!(r[0].0, 0);
    assert_eq!(r[n - 1].1, buf.len());
    for i in 0..n {
        assert!(r[i].0 <= r[i].1);
        if i + 1 < n {
            assert_eq!(r[i].1, r[i + 1].0);
            let b = r[i].1;
            assert!(b == buf.len() || (b > 0 && buf[b - 1] == b'\n'));
        }
    }
}

#[test]
fn plans_contiguous_newline_aligned_ranges() {
    let buf = b"Hamburg;12.0\nBerlin;8.5\nHamburg;14.0\nX;1.0";
    for n in 1..12 {
        check_plan(buf, n);
    }
    check_plan(b"", 1);
    check_plan(b"", 4);
    check_plan(b"A;1.0", 3);
}

#[test]
fn plan_cuts_after_the_next_newline() {
    let buf = b"aa;1.0\nb;2.0\n";
    let r = chunks(buf, 2);
    assert_eq!(r, vec![(0, 7), (7, 13)]);
    let r = chunks(buf, 3);
    assert_eq!(r, vec![(0, 7), (7, 13), (13, 13)]);
}

#[test]
fn end_to_end_example() {
    for n in 1..6 {
        assert_eq!(
            run("Hamburg;12.0\nBerlin;8.5\nHamburg;14.0\n", n).unwrap(),
            "{Berlin=8.5/8.5/8.5, Hamburg=12.0/13.0/14.0}"
        );
    }
}

#[test]
fn empty_file() {
    assert_eq!(run("", 1).unwrap(), "{}");
    assert_eq!(run("", 4).unwrap(), "{}");
}

#[test]
fn single_line_without_newline() {
    assert_eq!(run("X;1.0", 1).unwrap(), "{X=1.0/1.0/1.0}");
    assert_eq!(run("X;1.0", 3).unwrap(), "{X=1.0/1.0/1.0}");
}

#[test]
fn missing_delimiter_fails() {
    assert_eq!(run("NoSemicolon", 1), Err(FormatError::MissingDelimiter));
    assert_eq!(run("A;1.0\nNoSemicolon\nB;2.0\n", 2), Err(FormatError::MissingDelimiter));
}

#[test]
fn bad_value_fails() {
    assert_eq!(run("A;1.23\n", 1), Err(FormatError::BadValue));
    assert_eq!(run("A;1.0\nB;x\n", 1), Err(FormatError::BadValue));
}

#[test]
fn first_error_in_input_order_wins() {
    assert_eq!(run("A;9\nB\n", 2), Err(FormatError::BadValue));
    assert_eq!(run("B\nA;9\n", 2), Err(FormatError::MissingDelimiter));
}

#[test]
fn invalid_key_text_fails() {
    let buf: &[u8] = b"\xff\xfe;1.0\n";
    assert_eq!(summarize(buf, 1), Err(FormatError::BadKeyEncoding));
}

#[test]
fn result_independent_of_range_count() {
    let input = "a;1.0\nb;-2.5\nc;33.3\na;4.4\nb;0.0\nbb;-99.9\na;-0.1\nc;12.3\nd;5.5\nb;7.7";
    let one = run(input, 1).unwrap();
    for n in 2..30 {
        assert_eq!(run(input, n).unwrap(), one);
    }
    assert_eq!(one, "{a=-0.1/1.8/4.4, b=-2.5/1.7/7.7, bb=-99.9/-99.9/-99.9, c=12.3/22.8/33.3, d=5.5/5.5/5.5}");
}

fn table_of(input: &[u8]) -> StatsTable {
    chunk_stats(input, (0, input.len())).unwrap()
}

fn render(t: StatsTable) -> String {
    String::from_utf8(render_stats(t).unwrap()).unwrap()
}

#[test]
fn merge_order_and_grouping_do_not_matter() {
    let a: &[u8] = b"x;1.0\ny;2.0\n";
    let b: &[u8] = b"y;-3.0\nz;4.0\n";
    let c: &[u8] = b"x;9.9\nz;-4.0\n";
    let mut ab_c = table_of(a);
    merge_into(&mut ab_c, table_of(b));
    merge_into(&mut ab_c, table_of(c));
    let mut bc = table_of(b);
    merge_into(&mut bc, table_of(c));
    let mut a_bc = table_of(a);
    merge_into(&mut a_bc, bc);
    let mut cba = table_of(c);
    merge_into(&mut cba, table_of(b));
    merge_into(&mut cba, table_of(a));
    let expected = "{x=1.0/5.4/9.9, y=-3.0/-0.5/2.0, z=-4.0/0.0/4.0}";
    assert_eq!(render(ab_c), expected);
    assert_eq!(render(a_bc), expected);
    assert_eq!(render(cba), expected);
}

#[test]
fn count_is_number_of_lines_with_key() {
    let input = b"k;1.0\nq;2.0\nk;3.0\nk;-1.0\nkk;0.5\n";
    for n in 1..5 {
        let t = aggregate(input, n).unwrap();
        assert_eq!(t.stats_of(b"k").unwrap().count, 3);
        assert_eq!(t.stats_of(b"q").unwrap().count, 1);
        assert_eq!(t.stats_of(b"kk").unwrap().count, 1);
        assert!(t.stats_of(b"z").is_none());
        let k = t.stats_of(b"k").unwrap();
        assert_eq!((k.min, k.max, k.sum), (-10, 30, 30));
    }
}

#[test]
fn chunk_takes_records_starting_in_range() {
    let input = b"a;1.0\nb;2.0\nc;3.0\n";
    let t = chunk_stats(input, (6, 8)).unwrap();
    assert!(t.stats_of(b"a").is_none());
    assert_eq!(t.stats_of(b"b").unwrap().count, 1);
    assert!(t.stats_of(b"c").is_none());
    let t = chunk_stats(input, (6, 6)).unwrap();
    assert!(t.stats_of(b"b").is_none());
}

#[test]
fn keys_sorted_by_bytes() {
    assert_eq!(run("b;1.0\nB;1.0\na;1.0\nab;1.0\n\u{e9};1.0\n", 2).unwrap(), "{B=1.0/1.0/1.0, a=1.0/1.0/1.0, ab=1.0/1.0/1.0, b=1.0/1.0/1.0, \u{e9}=1.0/1.0/1.0}");
    assert!(key_less(b"a", b"ab"));
    assert!(key_less(b"B", b"a"));
    assert!(!key_less(b"ab", b"ab"));
    assert!(!key_less(b"b", b"ab"));
}

#[test]
fn mean_rounds_to_nearest_ties_to_even() {
    assert_eq!(run("a;1.0\na;1.5\n", 1).unwrap(), "{a=1.0/1.2/1.5}");
    assert_eq!(run("a;1.0\na;1.7\n", 1).unwrap(), "{a=1.0/1.4/1.7}");
    assert_eq!(run("a;-1.0\na;-1.5\n", 1).unwrap(), "{a=-1.5/-1.2/-1.0}");
    assert_eq!(run("a;1.0\na;1.0\na;1.1\n", 1).unwrap(), "{a=1.0/1.0/1.1}");
    assert_eq!(run("a;1.0\na;1.1\na;1.1\n", 1).unwrap(), "{a=1.0/1.1/1.1}");
}

#[test]
fn stats_merge_and_average() {
    let mut s = Stats::singleton(50);
    s.update(-98);
    s.update(234);
    assert_eq!((s.min, s.max, s.sum, s.count), (-98, 234, 186, 3));
    assert_eq!(s.avg(), 62);
    let mut t = Stats::default();
    t.merge(s);
    assert_eq!((t.min, t.max, t.sum, t.count), (-98, 234, 186, 3));
}

#[test]
fn negative_and_two_digit_values_format() {
    assert_eq!(run("p;-9.8\np;-23.4\n", 1).unwrap(), "{p=-23.4/-16.6/-9.8}");
    assert_eq!(run("z;0.0\n", 1).unwrap(), "{z=0.0/0.0/0.0}");
}
