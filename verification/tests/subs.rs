use bad_apple::subs::{
    cue_from_block, is_whitespace, order_cues_by_start, parse_number, parse_srt_in_text_order,
    parse_timestamp, Cue, Timestamp,
};

fn chars(s: &str) -> Vec<char> {
    s.chars().collect()
}

fn at(hh: u32, mm: u32, ss: u32, ms: u32) -> Timestamp {
    Timestamp { hh, mm, ss, ms }
}

fn plain(cues: &[Cue]) -> Vec<(Timestamp, Timestamp, String)> {
    cues.iter().map(|c| (c.s, c.e, c.t.clone())).collect()
}

fn cue(s: Timestamp, e: Timestamp, t: &str) -> (Timestamp, Timestamp, String) {
    (s, e, t.to_string())
}

// The same grammar, written with the string functions of the standard library.
fn field_value(field: Option<&str>) -> u32 {
    field.and_then(|f| f.trim().parse::<u32>().ok()).unwrap_or(0)
}

fn millis_value(field: Option<&str>) -> u32 {
    match field {
        None => 0,
        Some(f) => {
            let padded = format!("{}000", f.trim());
            padded.get(..3).and_then(|p| p.parse::<u32>().ok()).unwrap_or(0)
        }
    }
}

fn time_by_std(ts: &str) -> Timestamp {
    let mut fields = ts.trim().split(|c| c == ':' || c == ',' || c == '.');
    let hh = field_value(fields.next());
    let mm = field_value(fields.next());
    let ss = field_value(fields.next());
    let ms = millis_value(fields.next());
    Timestamp { hh, mm, ss, ms }
}

fn cues_by_std(text: &str) -> Vec<(Timestamp, Timestamp, String)> {
    let text = text.replace("\r\n", "\n").replace('\r', "\n");
    let mut cues = Vec::new();
    for block in text.split("\n\n") {
        let lines: Vec<&str> = block.trim().lines().map(str::trim_end).collect();
        if lines.len() < 2 {
            continue;
        }
        let time_at = if lines[1].contains("-->") { 1 } else { 0 };
        if !lines[time_at].contains("-->") {
            continue;
        }
        let mut times = lines[time_at].split("-->");
        let start = times.next().unwrap().trim();
        let end = times.next().unwrap().trim();
        let shown: Vec<&str> =
            lines[time_at + 1..].iter().copied().filter(|l| !l.is_empty()).collect();
        let shown = shown.join("\n");
        let shown = shown.trim();
        if start.is_empty() || end.is_empty() || shown.is_empty() {
            continue;
        }
        cues.push((time_by_std(start), time_by_std(end), shown.to_string()));
    }
    cues
}

fn seconds(ts: Timestamp) -> f32 {
    (ts.hh as f32) * 3600.0 + (ts.mm as f32) * 60.0 + (ts.ss as f32) + (ts.ms as f32) / 1000.0
}

// The cues of a text by their starts in seconds, as a caller gets them.
fn cues_by_start(text: &str) -> Vec<(Timestamp, Timestamp, String)> {
    let keyed: Vec<(u32, Cue)> = parse_srt_in_text_order(text)
        .into_iter()
        .map(|c| (seconds(c.s).to_bits(), c))
        .collect();
    plain(&order_cues_by_start(keyed))
}

fn sorted_by_std(text: &str) -> Vec<(Timestamp, Timestamp, String)> {
    let mut cues = cues_by_std(text);
    cues.sort_by(|a, b| seconds(a.0).partial_cmp(&seconds(b.0)).unwrap());
    cues
}

fn titled(key: u32, title: &str) -> (u32, Cue) {
    (key, Cue { s: at(0, 0, 0, 0), e: at(0, 0, 0, 0), t: title.to_string() })
}

fn titles(cues: &[Cue]) -> Vec<&str> {
    cues.iter().map(|c| c.t.as_str()).collect()
}

fn next(seed: &mut u64) -> usize {
    *seed = seed.wrapping_mul(6364136223846793005).wrapping_add(1442695040888963407);
    (*seed >> 33) as usize
}

#[test]
fn white_space_is_what_the_standard_library_says() {
    for n in 0..=0x10FFFFu32 {
        if let Some(c) = char::from_u32(n) {
            assert_eq!(is_whitespace(c), c.is_whitespace());
        }
    }
}

#[test]
fn numbers_are_digits_with_an_optional_plus() {
    assert_eq!(parse_number(&chars("0")), Some(0));
    assert_eq!(parse_number(&chars("007")), Some(7));
    assert_eq!(parse_number(&chars("+12")), Some(12));
    assert_eq!(parse_number(&chars("4294967295")), Some(u32::MAX));
    assert_eq!(parse_number(&chars("4294967296")), None);
    assert_eq!(parse_number(&chars("00000000000000000000042")), Some(42));
    assert_eq!(parse_number(&chars("99999999999999999999999")), None);
    assert_eq!(parse_number(&chars("")), None);
    assert_eq!(parse_number(&chars("+")), None);
    assert_eq!(parse_number(&chars("-1")), None);
    assert_eq!(parse_number(&chars("++1")), None);
    assert_eq!(parse_number(&chars("1+")), None);
    assert_eq!(parse_number(&chars(" 1")), None);
    assert_eq!(parse_number(&chars("1 ")), None);
    assert_eq!(parse_number(&chars("1_000")), None);
    assert_eq!(parse_number(&chars("12a")), None);
    assert_eq!(parse_number(&chars("\u{0661}")), None);
}

#[test]
fn numbers_are_what_the_standard_library_reads() {
    let alphabet = ['0', '1', '9', '4', '+', '-', ' ', 'a', '2', '7'];
    let mut seed = 7u64;
    for _ in 0..20000 {
        let len = next(&mut seed) % 13;
        let s: String = (0..len).map(|_| alphabet[next(&mut seed) % alphabet.len()]).collect();
        assert_eq!(parse_number(&chars(&s)), s.parse::<u32>().ok(), "{:?}", s);
    }
}

#[test]
fn timestamp_takes_comma_or_full_stop() {
    assert_eq!(parse_timestamp(&chars("00:00:01,000")), at(0, 0, 1, 0));
    assert_eq!(parse_timestamp(&chars("01:02:03,456")), at(1, 2, 3, 456));
    assert_eq!(parse_timestamp(&chars("01:02:03.456")), at(1, 2, 3, 456));
    assert_eq!(parse_timestamp(&chars("  10 : 20 : 30 , 400  ")), at(10, 20, 30, 400));
}

#[test]
fn milliseconds_are_the_first_three_digits() {
    assert_eq!(parse_timestamp(&chars("0:0:0,5")), at(0, 0, 0, 500));
    assert_eq!(parse_timestamp(&chars("0:0:0,05")), at(0, 0, 0, 50));
    assert_eq!(parse_timestamp(&chars("0:0:0,005")), at(0, 0, 0, 5));
    assert_eq!(parse_timestamp(&chars("0:0:0,12345")), at(0, 0, 0, 123));
    assert_eq!(parse_timestamp(&chars("0:0:0,")), at(0, 0, 0, 0));
    assert_eq!(parse_timestamp(&chars("0:0:0,+5")), at(0, 0, 0, 50));
    assert_eq!(parse_timestamp(&chars("0:0:0,1 2")), at(0, 0, 0, 0));
    assert_eq!(parse_timestamp(&chars("0:0:0,12x")), at(0, 0, 0, 0));
    assert_eq!(parse_timestamp(&chars("0:0:0,123x")), at(0, 0, 0, 123));
    assert_eq!(parse_timestamp(&chars("0:0:0,1\u{e9}")), at(0, 0, 0, 0));
    assert_eq!(parse_timestamp(&chars("0:0:0,\u{e9}\u{20ac}")), at(0, 0, 0, 0));
}

#[test]
fn fields_that_are_no_numbers_count_as_zero() {
    assert_eq!(parse_timestamp(&chars("")), at(0, 0, 0, 0));
    assert_eq!(parse_timestamp(&chars("7")), at(7, 0, 0, 0));
    assert_eq!(parse_timestamp(&chars("7:8")), at(7, 8, 0, 0));
    assert_eq!(parse_timestamp(&chars("x:8:y,9")), at(0, 8, 0, 900));
    assert_eq!(parse_timestamp(&chars("1:2:3:4:5")), at(1, 2, 3, 400));
    assert_eq!(parse_timestamp(&chars("99999999999:61:75,999")), at(0, 61, 75, 999));
    assert_eq!(parse_timestamp(&chars("1.2.3.4")), at(1, 2, 3, 400));
}

#[test]
fn timestamps_are_what_the_standard_library_reads() {
    let alphabet = ['0', '1', '5', ':', ',', '.', ' ', '+', 'x', '\u{e9}', '\u{20ac}', '9', ':'];
    let mut seed = 11u64;
    for _ in 0..20000 {
        let len = next(&mut seed) % 16;
        let s: String = (0..len).map(|_| alphabet[next(&mut seed) % alphabet.len()]).collect();
        assert_eq!(parse_timestamp(&chars(&s)), time_by_std(&s), "{:?}", s);
    }
}

#[test]
fn block_with_counter_line_gives_a_cue() {
    let c = cue_from_block(&chars("1\n00:00:01,000 --> 00:00:02,500\nHello\nworld")).unwrap();
    assert_eq!(c.s, at(0, 0, 1, 0));
    assert_eq!(c.e, at(0, 0, 2, 500));
    assert_eq!(c.t, "Hello\nworld");
}

#[test]
fn block_without_counter_line_gives_a_cue() {
    let c = cue_from_block(&chars("00:00:01,000 --> 00:00:02,500\nHello")).unwrap();
    assert_eq!(c.s, at(0, 0, 1, 0));
    assert_eq!(c.e, at(0, 0, 2, 500));
    assert_eq!(c.t, "Hello");
}

#[test]
fn blocks_that_give_no_cue() {
    assert!(cue_from_block(&chars("")).is_none());
    assert!(cue_from_block(&chars("only one line --> here")).is_none());
    assert!(cue_from_block(&chars("1\n2\n3")).is_none());
    assert!(cue_from_block(&chars("1\n00:00:01,000 --> 00:00:02,000")).is_none());
    assert!(cue_from_block(&chars("1\n00:00:01,000 --> 00:00:02,000\n   \n\t")).is_none());
    assert!(cue_from_block(&chars("1\n --> 00:00:02,000\ntext")).is_none());
    assert!(cue_from_block(&chars("1\n00:00:01,000 --> \ntext")).is_none());
    assert!(cue_from_block(&chars("text\n1\n00:00:01,000 --> 00:00:02,000")).is_none());
}

#[test]
fn text_lines_lose_blank_lines_and_trailing_space() {
    let c = cue_from_block(&chars("0:0:1 --> 0:0:2\n  first  \n \nsecond\t\n")).unwrap();
    assert_eq!(c.t, "first\nsecond");
}

#[test]
fn times_are_what_stands_round_the_first_arrow() {
    let c = cue_from_block(&chars("0:0:1 --> 0:0:2 --> 0:0:3\ntext")).unwrap();
    assert_eq!(c.s, at(0, 0, 1, 0));
    assert_eq!(c.e, at(0, 0, 2, 0));
    assert_eq!(c.t, "text");
}

#[test]
fn second_line_with_an_arrow_is_the_time_line() {
    let c = cue_from_block(&chars("0:0:1 --> 0:0:2\n 0:0:3 --> 0:0:4\ntext")).unwrap();
    assert_eq!(c.s, at(0, 0, 3, 0));
    assert_eq!(c.e, at(0, 0, 4, 0));
    assert_eq!(c.t, "text");
    assert!(cue_from_block(&chars("0:0:1 --> 0:0:2\n a --> b")).is_none());
}

#[test]
fn text_order_is_the_order_of_the_blocks() {
    let text = "1\n00:00:05,000 --> 00:00:06,000\nlater\n\n2\n00:00:01,000 --> 00:00:02,000\nsooner\n";
    assert_eq!(
        plain(&parse_srt_in_text_order(text)),
        vec![
            cue(at(0, 0, 5, 0), at(0, 0, 6, 0), "later"),
            cue(at(0, 0, 1, 0), at(0, 0, 2, 0), "sooner"),
        ]
    );
}

#[test]
fn line_endings_of_all_kinds_are_read() {
    let unix = "1\n00:00:01,000 --> 00:00:02,000\na\nb\n\n2\n00:00:03,000 --> 00:00:04,000\nc\n";
    let dos = unix.replace('\n', "\r\n");
    let mac = unix.replace('\n', "\r");
    let expected = vec![
        cue(at(0, 0, 1, 0), at(0, 0, 2, 0), "a\nb"),
        cue(at(0, 0, 3, 0), at(0, 0, 4, 0), "c"),
    ];
    assert_eq!(plain(&parse_srt_in_text_order(unix)), expected);
    assert_eq!(plain(&parse_srt_in_text_order(&dos)), expected);
    assert_eq!(plain(&parse_srt_in_text_order(&mac)), expected);
}

#[test]
fn texts_without_cues() {
    assert!(parse_srt_in_text_order("").is_empty());
    assert!(parse_srt_in_text_order("\n\n\n\n").is_empty());
    assert!(parse_srt_in_text_order("no cue here").is_empty());
    assert!(parse_srt_in_text_order("1\n2\n\n3\n4").is_empty());
}

#[test]
fn blocks_that_give_no_cue_are_passed_over() {
    let text = "junk\n\n1\n0:0:1,5 --> 0:0:2\nkept\n\n2\n0:0:3 --> 0:0:4\n\n\n\n0:0:5 --> 0:0:6\n\u{3000}also kept \n";
    assert_eq!(
        plain(&parse_srt_in_text_order(text)),
        vec![
            cue(at(0, 0, 1, 500), at(0, 0, 2, 0), "kept"),
            cue(at(0, 0, 5, 0), at(0, 0, 6, 0), "also kept"),
        ]
    );
}

#[test]
fn three_line_feeds_leave_one_to_the_next_block() {
    let text = "0:0:1 --> 0:0:2\na\n\n\n0:0:3 --> 0:0:4\nb";
    assert_eq!(
        plain(&parse_srt_in_text_order(text)),
        vec![cue(at(0, 0, 1, 0), at(0, 0, 2, 0), "a"), cue(at(0, 0, 3, 0), at(0, 0, 4, 0), "b")]
    );
}

#[test]
fn cues_are_what_the_standard_library_reads() {
    let alphabet = [
        "\n", "\n", "\n", "\r", "\r\n", " ", "-->", "-->", "--", ">", ":", ",", ".", "0", "1", "2",
        "59", "a", "b", "+", "\t", "\u{e9}", "\u{3000}", "\u{85}", "00:00:01,000", " --> ",
    ];
    let mut seed = 3u64;
    for _ in 0..4000 {
        let len = next(&mut seed) % 40;
        let s: String = (0..len).map(|_| alphabet[next(&mut seed) % alphabet.len()]).collect();
        assert_eq!(plain(&parse_srt_in_text_order(&s)), cues_by_std(&s), "{:?}", s);
    }
}

#[test]
fn cues_are_ordered_by_their_start() {
    let text = "1\n00:00:05,000 --> 00:00:06,000\nB\n\n2\n00:00:01,000 --> 00:00:02,000\nA";
    let cues = cues_by_start(text);
    assert_eq!(
        cues,
        vec![cue(at(0, 0, 1, 0), at(0, 0, 2, 0), "A"), cue(at(0, 0, 5, 0), at(0, 0, 6, 0), "B")]
    );
    assert_eq!(seconds(cues[0].0), 1.0);
    assert_eq!(seconds(cues[0].1), 2.0);
    assert_eq!(seconds(cues[1].0), 5.0);
    assert_eq!(seconds(cues[1].1), 6.0);
}

#[test]
fn order_by_keys_is_stable() {
    let keyed = vec![
        titled(7, "a"),
        titled(3, "b"),
        titled(7, "c"),
        titled(0, "d"),
        titled(3, "e"),
        titled(u32::MAX, "f"),
        titled(7, "g"),
        titled(0, "h"),
    ];
    let sorted = order_cues_by_start(keyed);
    assert_eq!(titles(&sorted), vec!["d", "h", "b", "e", "a", "c", "g", "f"]);
}

#[test]
fn order_of_few_cues() {
    assert!(order_cues_by_start(vec![]).is_empty());
    assert_eq!(titles(&order_cues_by_start(vec![titled(9, "only")])), vec!["only"]);
    assert_eq!(titles(&order_cues_by_start(vec![titled(1, "x"), titled(2, "y")])), vec!["x", "y"]);
    assert_eq!(titles(&order_cues_by_start(vec![titled(2, "y"), titled(1, "x")])), vec!["x", "y"]);
    assert_eq!(titles(&order_cues_by_start(vec![titled(2, "y"), titled(2, "x")])), vec!["y", "x"]);
}

#[test]
fn starts_that_round_to_the_same_second_keep_the_order_of_the_text() {
    let later = at(10, 0, 0, 1);
    let sooner = at(10, 0, 0, 0);
    assert_eq!(seconds(later), seconds(sooner));
    let text = "10:0:0,001 --> 6:0:0\nfirst in the text\n\n10:0:0,000 --> 6:0:0\nsecond in the text";
    assert_eq!(
        cues_by_start(text),
        vec![
            cue(later, at(6, 0, 0, 0), "first in the text"),
            cue(sooner, at(6, 0, 0, 0), "second in the text"),
        ]
    );
}

#[test]
fn keys_rise_as_the_seconds_do() {
    let times = [
        at(0, 0, 0, 0),
        at(0, 0, 0, 1),
        at(0, 0, 0, 999),
        at(0, 0, 1, 0),
        at(0, 0, 59, 999),
        at(0, 1, 0, 0),
        at(0, 99, 0, 0),
        at(1, 0, 0, 0),
        at(5, 0, 0, 0),
        at(5, 0, 0, 1),
        at(u32::MAX, u32::MAX, u32::MAX, u32::MAX),
    ];
    for a in times {
        for b in times {
            let (x, y) = (seconds(a), seconds(b));
            assert_eq!(x.to_bits() < y.to_bits(), x < y);
            assert_eq!(x.to_bits() == y.to_bits(), x == y);
        }
    }
}

#[test]
fn ordered_cues_are_what_the_standard_library_sorts() {
    let alphabet = [
        "\n", "\n", "\n", "\r\n", " ", "-->", " --> ", ":", ",", "0", "1", "2", "59", "a", "b",
        "00:00:01,000", "00:00:01,001", "10:00:00,001", "10:00:00,000", "0:0:7", "9:9:9,9",
    ];
    let mut seed = 5u64;
    let mut with_several = 0;
    for _ in 0..4000 {
        let len = next(&mut seed) % 60;
        let s: String = (0..len).map(|_| alphabet[next(&mut seed) % alphabet.len()]).collect();
        let expected = sorted_by_std(&s);
        if expected.len() > 1 {
            with_several += 1;
        }
        assert_eq!(cues_by_start(&s), expected, "{:?}", s);
    }
    assert!(with_several > 20);
}
