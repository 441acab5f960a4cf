use byo_suite::tools::cal::{
    generate_calendar, generate_month, month_lines, month_name, pad_to, parse_month, render_month, render_year, trim_end,
    validate, visible_len, CalendarMonth, Date, Month, COL_WIDTH,
};
use byo_suite::tools::cat::{blank, format_line, get_args, LineNumbering};
use byo_suite::tools::comm::{comm_lines, compare_text, sort_file};
use byo_suite::tools::echo::echo_output;
use byo_suite::tools::fortune::{filter_fortunes, pick_fortune, split_fortunes};
use byo_suite::tools::head::{bytes_to_take, file_header, file_label, limit_of, Limit};
use byo_suite::tools::tail::{parse_mode, split_lines, tail_output, Mode as TailMode, TextUnit as TailUnit};
use byo_suite::tools::uniq::{emit, Uniq};
use byo_suite::tools::wc::{format_counter, Counter, Mode, TextUnit, WcState};

fn strings(v: &[&str]) -> Vec<String> {
    v.iter().map(|s| s.to_string()).collect()
}

// ---------------------------------------------------------------- wc

fn count(chunks: &[&[u8]]) -> WcState {
    let mut st = WcState::new();
    for c in chunks {
        assert!(st.can_feed(c));
        st.feed(c);
    }
    st
}

#[test]
fn wc_counts_lines_words_bytes_chars() {
    let st = count(&[b"hello world\nfoo  bar baz\n\n"]);
    assert_eq!(st.counter, Counter { lines: 3, words: 5, bytes: 26, chars: 26 });
}

#[test]
fn wc_counts_multibyte_characters() {
    let st = count(&["héllo wörld\n".as_bytes()]);
    assert_eq!(st.counter.bytes, 14);
    assert_eq!(st.counter.chars, 12);
    assert_eq!(st.counter.words, 2);
}

#[test]
fn wc_chunks_cut_inside_words_and_characters() {
    let text = "ab é cd\n".as_bytes();
    let whole = count(&[text]);
    let cut = count(&[&text[..1], &text[1..4], &text[4..]]);
    assert_eq!(whole.counter, cut.counter);
    assert_eq!(cut.counter.words, 3);
    assert_eq!(cut.counter.chars, 8);
}

#[test]
fn wc_invalid_bytes_are_not_characters() {
    let st = count(&[b"a\xffb"]);
    assert_eq!(st.counter.bytes, 3);
    assert_eq!(st.counter.chars, 1);
    assert_eq!(st.leftover, b"\xffb".to_vec());
}

#[test]
fn wc_mode_from_flags() {
    let all = Mode::from_flags(false, false, false, false);
    assert_eq!(all, Mode { text_unit: TextUnit::Bytes, show_lines: true, show_words: true, show_text: true });
    let m = Mode::from_flags(false, true, false, true);
    assert_eq!(m, Mode { text_unit: TextUnit::Chars, show_lines: true, show_words: false, show_text: true });
    let c = Mode::from_flags(true, false, false, true);
    assert_eq!(c.text_unit, TextUnit::Bytes);
}

#[test]
fn wc_formats_columns() {
    let c = Counter { lines: 1, words: 22, bytes: 333, chars: 4 };
    let all = Mode::from_flags(false, false, false, false);
    assert_eq!(format_counter("f.txt", c, &all), "       1      22     333 f.txt\n");
    assert_eq!(format_counter("-", c, &all), "       1      22     333\n");
    let chars = Mode::from_flags(false, false, false, true);
    assert_eq!(format_counter("x", c, &chars), "       4 x\n");
}

#[test]
fn wc_counters_add() {
    let a = Counter { lines: 1, words: 2, bytes: 3, chars: 4 };
    let total = Counter::zero().plus(a).plus(a);
    assert_eq!(total, Counter { lines: 2, words: 4, bytes: 6, chars: 8 });
}

// ---------------------------------------------------------------- uniq

fn uniq(lines: &[&str], show: bool) -> String {
    let mut u = Uniq::new();
    let mut out = String::new();
    for l in lines {
        if let Some(s) = u.push(l.to_string(), show) {
            out.push_str(&s);
        }
    }
    if let Some(s) = u.finish(show) {
        out.push_str(&s);
    }
    out
}

#[test]
fn uniq_collapses_runs() {
    assert_eq!(uniq(&["a\n", "a\n", "b\n", "a\n"], false), "a\nb\na\n");
    assert_eq!(uniq(&["a\n", "a\n", "b\n"], true), "   2 a\n   1 b\n");
}

#[test]
fn uniq_ignores_a_missing_last_line_feed() {
    assert_eq!(uniq(&["x\n", "x"], true), "   2 x\n");
    assert_eq!(uniq(&[], true), "");
}

#[test]
fn uniq_emit() {
    assert_eq!(emit(12, "z\n", true), "  12 z\n");
    assert_eq!(emit(12, "z\n", false), "z\n");
}

// ---------------------------------------------------------------- echo

#[test]
fn echo_joins_with_spaces() {
    assert_eq!(echo_output(&strings(&["Hello", "there"]), false), "Hello there\n");
    assert_eq!(echo_output(&strings(&["Hello  there"]), true), "Hello  there");
    assert_eq!(echo_output(&vec![], false), "\n");
}

// ---------------------------------------------------------------- cat

#[test]
fn cat_flags() {
    assert_eq!(get_args(strings(&["-"]), false, false).numbering, LineNumbering::Off);
    assert_eq!(get_args(vec![], true, false).numbering, LineNumbering::All);
    assert_eq!(get_args(vec![], true, true).numbering, LineNumbering::NonBlank);
    assert_eq!(get_args(strings(&["a", "b"]), false, false).files, strings(&["a", "b"]));
}

#[test]
fn cat_numbers_lines() {
    assert_eq!(format_line("hi", LineNumbering::Off, 1), ("hi\n".to_string(), 1));
    assert_eq!(format_line("hi", LineNumbering::All, 7), ("     7\thi\n".to_string(), 8));
    assert_eq!(format_line("", LineNumbering::All, 1), ("     1\t\n".to_string(), 2));
    assert_eq!(format_line(" \t", LineNumbering::NonBlank, 3), ("\n".to_string(), 3));
    assert_eq!(format_line("x", LineNumbering::NonBlank, 3), ("     3\tx\n".to_string(), 4));
}

#[test]
fn cat_blank_lines() {
    assert!(blank(""));
    assert!(blank(" \t\u{a0}"));
    assert!(!blank(" a "));
}

// ---------------------------------------------------------------- head

#[test]
fn head_limits() {
    assert_eq!(limit_of(None, None), Ok(Limit::Lines(10)));
    assert_eq!(limit_of(Some(3), None), Ok(Limit::Lines(3)));
    assert_eq!(limit_of(Some(3), Some(5)), Ok(Limit::Bytes(5)));
    assert_eq!(limit_of(Some(0), None), Err("illegal line count -- 0".to_string()));
    assert_eq!(limit_of(None, Some(0)), Err("illegal byte count -- 0".to_string()));
}

#[test]
fn head_headers() {
    assert_eq!(file_label("-"), "stdin");
    assert_eq!(file_label("a.txt"), "a.txt");
    assert_eq!(file_header(0, "a.txt"), "==> a.txt <==\n");
    assert_eq!(file_header(1, "-"), "\n==> stdin <==\n");
    assert_eq!(bytes_to_take(3, 10), 3);
    assert_eq!(bytes_to_take(30, 10), 10);
}

// ---------------------------------------------------------------- tail

#[test]
fn tail_parses_counts() {
    assert_eq!(parse_mode("3", "lines"), Ok(TailMode::Last(3)));
    assert_eq!(parse_mode("-3", "lines"), Ok(TailMode::Last(3)));
    assert_eq!(parse_mode("+3", "bytes"), Ok(TailMode::FromStart(3)));
    assert_eq!(parse_mode("x", "lines"), Err("illegal lines count -- x".to_string()));
    assert_eq!(parse_mode("", "bytes"), Err("illegal bytes count -- ".to_string()));
    assert_eq!(parse_mode("+-1", "bytes"), Err("illegal bytes count -- +-1".to_string()));
}

#[test]
fn tail_splits_lines() {
    assert_eq!(split_lines("a\nb\n"), strings(&["a", "b"]));
    assert_eq!(split_lines("a\n\nb"), strings(&["a", "", "b"]));
    assert_eq!(split_lines(""), Vec::<String>::new());
}

#[test]
fn tail_takes_the_end() {
    let data = b"one\ntwo\nthree\n";
    assert_eq!(tail_output(data, TailMode::Last(2), TailUnit::Lines), "two\nthree\n");
    assert_eq!(tail_output(data, TailMode::Last(9), TailUnit::Lines), "one\ntwo\nthree\n");
    assert_eq!(tail_output(data, TailMode::Last(0), TailUnit::Lines), "");
    assert_eq!(tail_output(data, TailMode::FromStart(2), TailUnit::Lines), "two\nthree\n");
    assert_eq!(tail_output(data, TailMode::FromStart(0), TailUnit::Lines), "one\ntwo\nthree\n");
    assert_eq!(tail_output(data, TailMode::Last(6), TailUnit::Bytes), "three\n");
    assert_eq!(tail_output(data, TailMode::FromStart(9), TailUnit::Bytes), "three\n");
    assert_eq!(tail_output(b"ab", TailMode::Last(1), TailUnit::Lines), "ab\n");
}

#[test]
fn tail_from_the_first_line_gives_the_text_back() {
    let data = b"one\ntwo\n\nthree\n";
    assert_eq!(tail_output(data, TailMode::FromStart(1), TailUnit::Lines), "one\ntwo\n\nthree\n");
    assert_eq!(tail_output(b"", TailMode::FromStart(1), TailUnit::Lines), "");
}

#[test]
fn tail_more_lines_than_the_file_has_is_all_of_it() {
    let data = b"a\nb\nc\n";
    assert_eq!(
        tail_output(data, TailMode::Last(3), TailUnit::Lines),
        tail_output(data, TailMode::FromStart(1), TailUnit::Lines)
    );
    assert_eq!(
        tail_output(data, TailMode::Last(40), TailUnit::Bytes),
        tail_output(data, TailMode::FromStart(1), TailUnit::Bytes)
    );
}

#[test]
fn tail_replaces_invalid_bytes() {
    assert_eq!(tail_output(b"a\xffb", TailMode::Last(10), TailUnit::Bytes), "a\u{fffd}b");
}

// ---------------------------------------------------------------- comm

#[test]
fn comm_compares_by_code_point() {
    assert_eq!(compare_text("a", "b"), -1);
    assert_eq!(compare_text("B", "a"), -1);
    assert_eq!(compare_text("ab", "a"), 1);
    assert_eq!(compare_text("x", "x"), 0);
}

#[test]
fn comm_sorts_files() {
    assert_eq!(sort_file(strings(&["b", "a", "C"]), false), strings(&["C", "a", "b"]));
    assert_eq!(sort_file(strings(&["b", "a", "C"]), true), strings(&["a", "b", "c"]));
}

#[test]
fn comm_columns() {
    let f1 = strings(&["a", "b", "c"]);
    let f2 = strings(&["b", "d"]);
    assert_eq!(comm_lines(&f1, &f2, false, false, false, "\t"), strings(&["a", "\t\tb", "c", "\td"]));
    assert_eq!(comm_lines(&f1, &f2, true, false, false, "\t"), strings(&["\tb", "d"]));
    assert_eq!(comm_lines(&f1, &f2, false, true, true, "|"), strings(&["a", "c"]));
    assert_eq!(comm_lines(&f1, &f2, true, true, false, "\t"), strings(&["b"]));
}

#[test]
fn comm_of_a_file_with_itself_is_all_common() {
    let f = strings(&["a", "b", "c"]);
    assert_eq!(comm_lines(&f, &f, false, false, false, "\t"), strings(&["\t\ta", "\t\tb", "\t\tc"]));
    assert_eq!(comm_lines(&f, &f, false, false, true, "\t"), Vec::<String>::new());
    assert_eq!(comm_lines(&f, &f, true, true, false, "\t"), strings(&["a", "b", "c"]));
}

// ---------------------------------------------------------------- cal

#[test]
fn cal_month_names_and_numbers() {
    assert_eq!(parse_month("1"), Ok(1));
    assert_eq!(parse_month("12"), Ok(12));
    assert_eq!(parse_month("jan"), Ok(1));
    assert_eq!(parse_month("JUL"), Ok(7));
    assert_eq!(parse_month("September"), Ok(9));
    assert_eq!(parse_month("0"), Err("month \"0\" not in the range 1 through 12".to_string()));
    assert_eq!(parse_month("13"), Err("month \"13\" not in the range 1 through 12".to_string()));
    assert_eq!(parse_month("foo"), Err("Invalid month \"foo\"".to_string()));
    assert_eq!(parse_month("ju"), Err("Invalid month \"ju\"".to_string()));
}

#[test]
fn cal_validate() {
    assert_eq!(validate(None, true, None, 2024, 5), Ok(Date { year: 2024, month: Month::All }));
    assert_eq!(validate(Some(2000), false, Some("2".to_string()), 2024, 5), Ok(Date { year: 2000, month: Month::One(2) }));
    assert_eq!(validate(None, false, Some("mar".to_string()), 2024, 5), Ok(Date { year: 2024, month: Month::One(3) }));
    assert_eq!(validate(Some(1999), false, None, 2024, 5), Ok(Date { year: 1999, month: Month::All }));
    assert_eq!(validate(None, false, None, 2024, 5), Ok(Date { year: 2024, month: Month::One(5) }));
    assert_eq!(
        validate(Some(0), false, None, 2024, 5),
        Err("error: invalid value '0' for '[YEAR]': 0 is not in 1..=9999".to_string())
    );
    assert!(validate(None, false, Some("x".to_string()), 2024, 5).is_err());
}

#[test]
fn cal_lays_out_february_2024() {
    let m = generate_month(2, 2024);
    assert_eq!(m.month, 2);
    assert_eq!(m.year, 2024);
    assert_eq!(m.weeks.len(), 5);
    assert_eq!(m.weeks[0], vec![None, None, None, None, Some(1), Some(2), Some(3)]);
    assert_eq!(m.weeks[4], vec![Some(25), Some(26), Some(27), Some(28), Some(29), None, None]);
}

#[test]
fn cal_month_lengths_and_starts() {
    let m = generate_month(2, 2023);
    let days: usize = m.weeks.iter().map(|w| w.iter().filter(|d| d.is_some()).count()).sum();
    assert_eq!(days, 28);
    let sep = generate_month(9, 2024);
    assert_eq!(sep.weeks[0][0], Some(1));
    let dec = generate_month(12, 2023);
    assert_eq!(dec.weeks.iter().flatten().filter(|d| d.is_some()).count(), 31);
}

#[test]
fn cal_month_names() {
    assert_eq!(month_name(1), "January");
    assert_eq!(month_name(12), "December");
}

#[test]
fn cal_visible_width_skips_escapes() {
    assert_eq!(visible_len("abc"), 3);
    assert_eq!(visible_len("\x1b[1mab\x1b[0m"), 2);
    assert_eq!(pad_to("\x1b[1mab\x1b[0m", 4), "\x1b[1mab\x1b[0m  ");
    assert_eq!(pad_to("abcdef", 4), "abcdef");
}

#[test]
fn cal_trim_end() {
    assert_eq!(trim_end("ab  \t"), "ab");
    assert_eq!(trim_end("  "), "");
}

#[test]
fn cal_month_block_has_eight_lines() {
    let m = generate_month(2, 2024);
    let lines = month_lines(&m, None);
    assert_eq!(lines.len(), 8);
    assert_eq!(lines[7], " ".repeat(COL_WIDTH));
    for l in &lines {
        assert_eq!(visible_len(l), COL_WIDTH);
    }
    assert!(lines[0].contains("February"));
    assert!(lines[1].starts_with("\x1b[91;1mSu"));
    let text = render_month(&m, None);
    assert_eq!(text.lines().count(), 8);
}

#[test]
fn cal_week_rows_show_days_in_columns() {
    // February 2024 starts on a Thursday.
    let m = generate_month(2, 2024);
    let lines = month_lines(&m, None);
    assert!(lines[2].starts_with(&format!("{}1  2 ", " ".repeat(13))));
    assert!(lines[3].starts_with("\x1b[91m 4"));
    assert!(lines[3].contains(" 5  6  7  8  9 "));
    let today = month_lines(&m, Some((2024, 2, 5)));
    assert!(today[3].contains("\x1b[34;1m 5"));
}

#[test]
fn cal_generates_one_month_or_a_whole_year() {
    let one = generate_calendar(Date { year: 2024, month: Month::One(2) });
    assert_eq!(one.len(), 1);
    assert_eq!(one[0].month, 2);
    assert_eq!(one[0].weeks, generate_month(2, 2024).weeks);
    let all = generate_calendar(Date { year: 2021, month: Month::All });
    assert_eq!(all.len(), 12);
    for (k, c) in all.iter().enumerate() {
        assert_eq!(c.month as usize, k + 1);
        assert_eq!(c.year, 2021);
    }
}

#[test]
fn cal_year_has_a_banner() {
    let cals: Vec<CalendarMonth> = (1..=12u8).map(|m| generate_month(m, 2021)).collect();
    let text = render_year(&cals, None);
    assert!(text.contains("2021"));
    assert!(text.contains("January"));
    assert!(text.contains("December"));
}

// ---------------------------------------------------------------- fortune

#[test]
fn fortunes_are_split_and_trimmed() {
    let content = "one\n%\n  two lines\nhere \n%\n\n%\nthree\n";
    assert_eq!(split_fortunes(content), strings(&["one", "two lines\nhere", "three"]));
    assert_eq!(split_fortunes(""), Vec::<String>::new());
}

#[test]
fn fortunes_are_filtered_by_pattern() {
    let fs = strings(&["Alpha beta", "gamma", "ALPHA"]);
    assert_eq!(filter_fortunes(&fs, "alpha", false), Some(Vec::<String>::new()));
    assert_eq!(filter_fortunes(&fs, "alpha", true), Some(strings(&["Alpha beta", "ALPHA"])));
    assert_eq!(filter_fortunes(&fs, "^g", false), Some(strings(&["gamma"])));
    assert_eq!(filter_fortunes(&fs, "(", false), None);
}

#[test]
fn every_month_line_is_one_column_wide() {
    for m in 1..=12u8 {
        let cal = generate_month(m, 2024);
        let today = Some((2024u32, m, 15u8));
        let ls = month_lines(&cal, today);
        assert_eq!(ls.len(), 8);
        assert!(ls[0].ends_with('m'));
        for l in ls.iter() {
            assert_eq!(visible_len(l), COL_WIDTH, "{:?}", l);
            assert!(!l.contains('\x1b') || l.contains("\x1b[0;"));
        }
    }
}

#[test]
fn a_drawn_fortune_is_one_of_them() {
    let fs = strings(&["one", "two", "three"]);
    for seed in 0..20u64 {
        match pick_fortune(&fs, Some(seed)) {
            Some(Some(f)) => assert!(fs.contains(&f)),
            other => panic!("unexpected {:?}", other),
        }
    }
    assert_eq!(pick_fortune(&Vec::new(), Some(1)), Some(None));
    if let Some(r) = pick_fortune(&fs, None) {
        assert!(fs.contains(&r.unwrap()));
    }
}
