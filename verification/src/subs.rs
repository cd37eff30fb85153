//! Subtitle cues from SubRip text.

use vstd::prelude::*;

use crate::srt::{
    all_digits, arrow, arranged, blank_line, comes_before, cue_of_block, cues_of, cues_of_blocks,
    digits_value, field_number, fields, fields_from, first_match, first_separator, is_digit,
    is_space, is_stable_order, joined_lines, keys_of, lemma_digits_value_grows,
    lemma_first_match, lemma_first_separator, lemma_split_of_match, lemma_stable_order_grows,
    matches_at, millis, newline, normalize_newlines, parse_u32, seqs, split, split_from,
    srt_cues, timestamp, trim, trim_end, trim_start, unsigned, CueText,
};

verus! {

/// A time in a subtitle text: hours, minutes, seconds and milliseconds, each
/// field as the text gives it. Minutes and seconds above 59 are kept as they
/// are.
#[derive(Clone, Copy, Debug, PartialEq, Eq, Structural)]
pub struct Timestamp {
    pub hh: u32,
    pub mm: u32,
    pub ss: u32,
    pub ms: u32,
}

/// A subtitle cue: the text `t` is shown from `s` to `e`.
#[derive(Debug)]
pub struct Cue {
    pub s: Timestamp,
    pub e: Timestamp,
    pub t: String,
}

impl View for Cue {
    type V = CueText;

    open spec fn view(&self) -> CueText {
        CueText { s: self.s, e: self.e, t: self.t@ }
    }
}

/// The cues as the grammar gives them.
pub open spec fn cue_texts(cues: Seq<Cue>) -> Seq<CueText> {
    cues.map_values(|c: Cue| c@)
}

/// Specification of `String::push` of the standard library: the string
/// afterwards is the string before with the character `c` behind its last.
pub assume_specification[ String::push ](s: &mut String, c: char)
    ensures
        final(s)@ == old(s)@.push(c),
;

/// The characters of a string.
fn chars_of(s: &str) -> (chars: Vec<char>)
    ensures
        chars@ == s@,
{
    let mut chars: Vec<char> = Vec::new();
    for c in it: s.chars()
        invariant
            chars@ == s@.take(it.index() as int),
            it.seq() == s@,
    {
        chars.push(c);
        assert(s@.take(it.index() + 1) =~= s@.take(it.index() as int).push(c));
    }
    assert(s@.take(s@.len() as int) =~= s@);
    chars
}

/// The string made of the characters.
fn string_of(chars: &Vec<char>) -> (s: String)
    ensures
        s@ == chars@,
{
    let mut s = String::new();
    let mut i: usize = 0;
    while i < chars.len()
        invariant
            i <= chars@.len(),
            s@ == chars@.take(i as int),
        decreases chars@.len() - i,
    {
        s.push(chars[i]);
        i += 1;
        assert(chars@.take(i as int) =~= chars@.take(i - 1).push(chars@[i - 1]));
    }
    assert(chars@.take(i as int) =~= chars@);
    s
}

/// Tells whether `c` is white space.
pub fn is_whitespace(c: char) -> (r: bool)
    ensures
        r == is_space(c),
{
    let n: u32 = c as u32;
    (n >= 0x09 && n <= 0x0D) || n == 0x20 || n == 0x85 || n == 0xA0 || n == 0x1680 || (n >= 0x2000
        && n <= 0x200A) || n == 0x2028 || n == 0x2029 || n == 0x202F || n == 0x205F || n == 0x3000
}

/// The characters of `v` from `from` up to `to`.
fn piece(v: &Vec<char>, from: usize, to: usize) -> (p: Vec<char>)
    requires
        from <= to <= v@.len(),
    ensures
        p@ == v@.subrange(from as int, to as int),
{
    let mut p: Vec<char> = Vec::with_capacity(to - from);
    let mut i: usize = from;
    while i < to
        invariant
            from <= i <= to <= v@.len(),
            p@ == v@.subrange(from as int, i as int),
        decreases to - i,
    {
        p.push(v[i]);
        i += 1;
        assert(p@ =~= v@.subrange(from as int, i as int));
    }
    p
}

/// `v` without the white space at its end.
fn trimmed_end(v: &Vec<char>) -> (r: Vec<char>)
    ensures
        r@ == trim_end(v@),
{
    let mut b: usize = v.len();
    assert(v@.take(b as int) =~= v@);
    while b > 0 && is_whitespace(v[b - 1])
        invariant
            b <= v@.len(),
            trim_end(v@) == trim_end(v@.take(b as int)),
        decreases b,
    {
        assert(v@.take(b as int).drop_last() =~= v@.take(b - 1));
        b -= 1;
    }
    piece(v, 0, b)
}

/// `v` without the white space at its start and at its end.
fn trimmed(v: &Vec<char>) -> (r: Vec<char>)
    ensures
        r@ == trim(v@),
{
    let mut a: usize = 0;
    assert(v@.skip(0) =~= v@);
    while a < v.len() && is_whitespace(v[a])
        invariant
            a <= v@.len(),
            trim_start(v@) == trim_start(v@.skip(a as int)),
        decreases v@.len() - a,
    {
        assert(v@.skip(a as int).skip(1) =~= v@.skip(a + 1));
        a += 1;
    }
    let mut b: usize = v.len();
    assert(v@.subrange(a as int, b as int) =~= v@.skip(a as int));
    while b > a && is_whitespace(v[b - 1])
        invariant
            a <= b <= v@.len(),
            trim(v@) == trim_end(v@.subrange(a as int, b as int)),
        decreases b,
    {
        assert(v@.subrange(a as int, b as int).drop_last() =~= v@.subrange(a as int, b - 1));
        b -= 1;
    }
    piece(v, a, b)
}

/// Tells whether `pat` stands in `v` at position `i`.
fn stands_at(v: &Vec<char>, pat: &Vec<char>, i: usize) -> (r: bool)
    requires
        i + pat@.len() <= v@.len(),
    ensures
        r == matches_at(v@, pat@, i as int),
{
    let n: usize = v.len();
    let mut k: usize = 0;
    while k < pat.len()
        invariant
            k <= pat@.len(),
            i + pat@.len() <= v@.len() == n,
            forall|j: int| 0 <= j < k ==> v@[i + j] == pat@[j],
        decreases pat@.len() - k,
    {
        if v[i + k] != pat[k] {
            assert(v@.subrange(i as int, i + pat@.len())[k as int] != pat@[k as int]);
            return false;
        }
        k += 1;
    }
    assert(v@.subrange(i as int, i + pat@.len()) =~= pat@);
    true
}

/// The first position from `from` on at which `pat` stands in `v`.
fn find(v: &Vec<char>, pat: &Vec<char>, from: usize) -> (found: Option<usize>)
    ensures
        match found {
            Some(i) => first_match(v@, pat@, from as int) == Some(i as int),
            None => first_match(v@, pat@, from as int) is None,
        },
{
    if pat.len() == 0 || pat.len() > v.len() {
        return None;
    }
    let last: usize = v.len() - pat.len();
    let mut i: usize = from;
    while i <= last
        invariant
            0 < pat@.len() <= v@.len() <= usize::MAX,
            last == v@.len() - pat@.len(),
            from <= i,
            first_match(v@, pat@, from as int) == first_match(v@, pat@, i as int),
        decreases last + 1 - i,
    {
        if stands_at(v, pat, i) {
            return Some(i);
        }
        i += 1;
    }
    None
}

/// The pieces into which the occurrences of `pat` cut `v`.
fn split_on(v: &Vec<char>, pat: &Vec<char>) -> (pieces: Vec<Vec<char>>)
    ensures
        seqs(pieces@) == split(v@, pat@),
{
    let mut pieces: Vec<Vec<char>> = Vec::new();
    if pat.len() == 0 {
        pieces.push(piece(v, 0, v.len()));
        assert(v@.subrange(0, v@.len() as int) =~= v@);
        assert(seqs(pieces@) =~= seq![v@]);
        return pieces;
    }
    let n: usize = v.len();
    let mut start: usize = 0;
    assert(seqs(pieces@) + split_from(v@, pat@, 0) =~= split(v@, pat@));
    loop
        invariant
            pat@.len() > 0,
            start <= v@.len() == n,
            seqs(pieces@) + split_from(v@, pat@, start as int) == split(v@, pat@),
        decreases v@.len() - start,
    {
        let ghost done = pieces@;
        proof {
            lemma_first_match(v@, pat@, start as int);
        }
        match find(v, pat, start) {
            None => {
                pieces.push(piece(v, start, v.len()));
                assert(seqs(pieces@) =~= seqs(done) + split_from(v@, pat@, start as int));
                return pieces;
            },
            Some(i) => {
                pieces.push(piece(v, start, i));
                assert(seqs(pieces@) + split_from(v@, pat@, i + pat@.len()) =~= seqs(done)
                    + split_from(v@, pat@, start as int));
                start = i + pat.len();
            },
        }
    }
}

/// The text with every line ending made a line feed.
fn normalized(v: &Vec<char>) -> (r: Vec<char>)
    ensures
        r@ == normalize_newlines(v@),
{
    let mut out: Vec<char> = Vec::with_capacity(v.len());
    let mut i: usize = 0;
    assert(v@.skip(0) =~= v@);
    while i < v.len()
        invariant
            i <= v@.len(),
            out@ + normalize_newlines(v@.skip(i as int)) == normalize_newlines(v@),
        decreases v@.len() - i,
    {
        let ghost done = out@;
        let ghost rest = v@.skip(i as int);
        let c: char = v[i];
        assert(rest.skip(1) =~= v@.skip(i + 1));
        if c != '\r' {
            out.push(c);
            assert(out@ + normalize_newlines(rest.skip(1)) =~= done + normalize_newlines(rest));
        } else if i + 1 == v.len() || v[i + 1] != '\n' {
            out.push('\n');
            assert(out@ + normalize_newlines(rest.skip(1)) =~= done + normalize_newlines(rest));
        }
        i += 1;
    }
    assert(out@ + normalize_newlines(v@.skip(i as int)) =~= out@);
    out
}

/// The first position from `from` on at which `v` has a separator.
fn find_separator(v: &Vec<char>, from: usize) -> (found: Option<usize>)
    ensures
        match found {
            Some(i) => first_separator(v@, from as int) == Some(i as int),
            None => first_separator(v@, from as int) is None,
        },
{
    let mut i: usize = from;
    while i < v.len()
        invariant
            from <= i,
            first_separator(v@, from as int) == first_separator(v@, i as int),
        decreases v@.len() - i,
    {
        let c: char = v[i];
        if c == ':' || c == ',' || c == '.' {
            return Some(i);
        }
        i += 1;
    }
    None
}

/// The fields of a time.
fn split_fields(v: &Vec<char>) -> (pieces: Vec<Vec<char>>)
    ensures
        seqs(pieces@) == fields(v@),
{
    let mut pieces: Vec<Vec<char>> = Vec::new();
    let n: usize = v.len();
    let mut start: usize = 0;
    assert(seqs(pieces@) + fields_from(v@, 0) =~= fields(v@));
    loop
        invariant
            start <= v@.len() == n,
            seqs(pieces@) + fields_from(v@, start as int) == fields(v@),
        decreases v@.len() - start,
    {
        let ghost done = pieces@;
        proof {
            lemma_first_separator(v@, start as int);
        }
        match find_separator(v, start) {
            None => {
                pieces.push(piece(v, start, v.len()));
                assert(seqs(pieces@) =~= seqs(done) + fields_from(v@, start as int));
                return pieces;
            },
            Some(i) => {
                pieces.push(piece(v, start, i));
                assert(seqs(pieces@) + fields_from(v@, i + 1) =~= seqs(done) + fields_from(
                    v@,
                    start as int,
                ));
                start = i + 1;
            },
        }
    }
}

/// The number that `v` is, if it is one.
pub fn parse_number(v: &Vec<char>) -> (r: Option<u32>)
    ensures
        r == parse_u32(v@),
{
    let start: usize = if v.len() > 0 && v[0] == '+' {
        1
    } else {
        0
    };
    let ghost d = unsigned(v@);
    assert(d =~= v@.skip(start as int));
    if start == v.len() {
        return None;
    }
    let mut acc: u64 = 0;
    let mut i: usize = start;
    assert(d.take(0) =~= Seq::<char>::empty());
    while i < v.len()
        invariant
            start <= i <= v@.len(),
            d == unsigned(v@),
            d == v@.skip(start as int),
            all_digits(d.take(i - start)),
            acc == digits_value(d.take(i - start)),
            acc <= u32::MAX,
        decreases v@.len() - i,
    {
        let c: char = v[i];
        if c < '0' || c > '9' {
            assert(!is_digit(d[i - start]));
            return None;
        }
        let digit: u64 = (c as u32 - '0' as u32) as u64;
        assert(d.take(i + 1 - start).drop_last() =~= d.take(i - start));
        acc = acc * 10 + digit;
        if acc > u32::MAX as u64 {
            proof {
                lemma_digits_value_grows(d, i + 1 - start);
            }
            return None;
        }
        i += 1;
    }
    assert(d.take(i - start) =~= d);
    Some(acc as u32)
}

/// The milliseconds that the field `v` gives.
fn millis_of(v: &Vec<char>) -> (r: u32)
    ensures
        r == millis(v@),
{
    let mut first: Vec<char> = Vec::with_capacity(3);
    let mut i: usize = 0;
    let ghost padded = v@ + seq!['0', '0', '0'];
    while i < 3
        invariant
            i <= 3,
            padded == v@ + seq!['0', '0', '0'],
            first@ == padded.take(i as int),
        decreases 3 - i,
    {
        if i < v.len() {
            first.push(v[i]);
        } else {
            first.push('0');
        }
        i += 1;
        assert(first@ =~= padded.take(i as int));
    }
    match parse_number(&first) {
        Some(n) => n,
        None => 0,
    }
}

/// The number in field `i`, and 0 if there is no such field.
fn number_at(f: &Vec<Vec<char>>, i: usize) -> (r: u32)
    ensures
        r == field_number(seqs(f@), i as int),
{
    if i < f.len() {
        let field: Vec<char> = trimmed(&f[i]);
        match parse_number(&field) {
            Some(n) => n,
            None => 0,
        }
    } else {
        0
    }
}

/// The time that `ts` gives.
pub fn parse_timestamp(ts: &Vec<char>) -> (r: Timestamp)
    ensures
        r == timestamp(ts@),
{
    let whole: Vec<char> = trimmed(ts);
    let f: Vec<Vec<char>> = split_fields(&whole);
    let ms: u32 = if f.len() > 3 {
        let field: Vec<char> = trimmed(&f[3]);
        millis_of(&field)
    } else {
        0
    };
    Timestamp { hh: number_at(&f, 0), mm: number_at(&f, 1), ss: number_at(&f, 2), ms }
}

/// The lines from `from` on that are not blank, each without the white space
/// at its end, with a line feed between each two of them.
fn join_lines(lines: &Vec<Vec<char>>, from: usize) -> (text: Vec<char>)
    requires
        from <= lines@.len(),
    ensures
        text@ == joined_lines(seqs(lines@).skip(from as int)),
{
    let mut text: Vec<char> = Vec::new();
    let mut i: usize = from;
    let ghost all = seqs(lines@);
    assert(all.subrange(from as int, from as int) =~= Seq::<Seq<char>>::empty());
    while i < lines.len()
        invariant
            from <= i <= lines@.len(),
            all == seqs(lines@),
            text@ == joined_lines(all.subrange(from as int, i as int)),
        decreases lines@.len() - i,
    {
        let mut line: Vec<char> = trimmed_end(&lines[i]);
        proof {
            let upto = all.subrange(from as int, i + 1);
            assert(upto.drop_last() =~= all.subrange(from as int, i as int));
            assert(upto.last() == lines@[i as int]@);
        }
        if line.len() > 0 {
            if text.len() > 0 {
                text.push('\n');
            }
            text.append(&mut line);
        }
        i += 1;
    }
    assert(all.subrange(from as int, i as int) =~= all.skip(from as int));
    text
}

/// The line feed that ends a line.
fn newline_pattern() -> (pat: Vec<char>)
    ensures
        pat@ == newline(),
{
    let mut pat: Vec<char> = Vec::new();
    pat.push('\n');
    assert(pat@ =~= newline());
    pat
}

/// The empty line that parts two blocks.
fn blank_line_pattern() -> (pat: Vec<char>)
    ensures
        pat@ == blank_line(),
{
    let mut pat: Vec<char> = Vec::new();
    pat.push('\n');
    pat.push('\n');
    assert(pat@ =~= blank_line());
    pat
}

/// The arrow between the two times of a cue.
fn arrow_pattern() -> (pat: Vec<char>)
    ensures
        pat@ == arrow(),
{
    let mut pat: Vec<char> = Vec::new();
    pat.push('-');
    pat.push('-');
    pat.push('>');
    assert(pat@ =~= arrow());
    pat
}

/// The cue that a block gives, if it gives one.
pub fn cue_from_block(block: &Vec<char>) -> (r: Option<Cue>)
    ensures
        match r {
            Some(cue) => cue_of_block(block@) == Some(cue@),
            None => cue_of_block(block@) is None,
        },
{
    let arrow: Vec<char> = arrow_pattern();
    let lines: Vec<Vec<char>> = split_on(block, &newline_pattern());
    if lines.len() < 2 {
        return None;
    }
    let second: Vec<char> = trimmed_end(&lines[1]);
    let at: usize = if find(&second, &arrow, 0).is_some() {
        1
    } else {
        0
    };
    let time_line: Vec<char> = trimmed_end(&lines[at]);
    if find(&time_line, &arrow, 0).is_none() {
        return None;
    }
    proof {
        lemma_split_of_match(time_line@, arrow@);
    }
    let times: Vec<Vec<char>> = split_on(&time_line, &arrow);
    let start: Vec<char> = trimmed(&times[0]);
    let end: Vec<char> = trimmed(&times[1]);
    let joined: Vec<char> = join_lines(&lines, at + 1);
    let text: Vec<char> = trimmed(&joined);
    if start.len() == 0 || end.len() == 0 || text.len() == 0 {
        return None;
    }
    Some(Cue { s: parse_timestamp(&start), e: parse_timestamp(&end), t: string_of(&text) })
}

/// Reads the cues of a SubRip text, in the order in which the text holds
/// them.
///
/// Line endings of all three kinds are taken as line feeds, and empty lines
/// part the text into blocks. A block gives a cue if it has a time line, with
/// or without a counter line before it, and text after it; other blocks are
/// passed over. `order_cues_by_start` brings the cues into the order of their
/// starts.
pub fn parse_srt_in_text_order(srt_text: &str) -> (cues: Vec<Cue>)
    ensures
        cue_texts(cues@) == srt_cues(srt_text@),
{
    let text: Vec<char> = chars_of(srt_text);
    let norm: Vec<char> = normalized(&text);
    let blocks: Vec<Vec<char>> = split_on(&norm, &blank_line_pattern());
    let mut cues: Vec<Cue> = Vec::new();
    let mut i: usize = 0;
    let ghost all = seqs(blocks@);
    assert(all.take(0) =~= Seq::<Seq<char>>::empty());
    assert(cue_texts(cues@) =~= Seq::<CueText>::empty());
    while i < blocks.len()
        invariant
            i <= blocks@.len(),
            all == seqs(blocks@),
            cue_texts(cues@) == cues_of_blocks(all.take(i as int)),
        decreases blocks@.len() - i,
    {
        let ghost done = cues@;
        let block: Vec<char> = trimmed(&blocks[i]);
        proof {
            let upto = all.take(i + 1);
            assert(upto.drop_last() =~= all.take(i as int));
            assert(upto.last() == blocks@[i as int]@);
        }
        match cue_from_block(&block) {
            Some(cue) => {
                cues.push(cue);
                assert(cue_texts(cues@) =~= cue_texts(done).push(cue@));
            },
            None => {},
        }
        i += 1;
    }
    assert(all.take(i as int) =~= all);
    cues
}

/// Orders cues by their keys, least first; cues with equal keys stay in the
/// order in which they came.
///
/// The key of a cue is the number by which its start is ordered. The caller
/// makes it from the cue's start in seconds: for numbers that are not negative,
/// the bit pattern of a single-precision number rises as the number does.
pub fn order_cues_by_start(keyed: Vec<(u32, Cue)>) -> (sorted: Vec<Cue>)
    ensures
        sorted@.len() == keyed@.len(),
        exists|order: Seq<usize>|
            is_stable_order(keys_of(keyed@), order) && cue_texts(sorted@) == arranged(
                cues_of(keyed@),
                order,
            ),
{
    let ghost all_keys = keys_of(keyed@);
    let ghost all_cues = cues_of(keyed@);
    let ghost mut order: Seq<usize> = Seq::empty();
    let mut keys: Vec<u32> = Vec::new();
    let mut sorted: Vec<Cue> = Vec::new();
    proof {
        assert(all_keys.take(0) =~= Seq::<u32>::empty());
        assert(cue_texts(sorted@) =~= arranged(all_cues, order));
    }
    for entry in it: keyed.into_iter()
        invariant
            it.seq() == keyed@,
            all_keys == keys_of(keyed@),
            all_cues == cues_of(keyed@),
            is_stable_order(all_keys.take(it.index() as int), order),
            keys@.len() == it.index(),
            sorted@.len() == it.index(),
            forall|i: int| 0 <= i < it.index() ==> keys@[i] == all_keys[(#[trigger] order[i]) as int],
            cue_texts(sorted@) == arranged(all_cues, order),
    {
        let ghost m = it.index() as int;
        let ghost before = order;
        let ghost texts = cue_texts(sorted@);
        let ghost cues_before = sorted@;
        let ghost keys_before = keys@;
        let key: u32 = entry.0;
        let cue: Cue = entry.1;
        let mut p: usize = keys.len();
        while p > 0 && keys[p - 1] > key
            invariant
                p <= keys@.len(),
                forall|i: int| p <= i < keys@.len() ==> keys@[i] > key,
            decreases p,
        {
            p -= 1;
        }
        proof {
            assert forall|i: int| 0 <= i < p implies all_keys[(#[trigger] before[i]) as int]
                <= all_keys[m] by {
                if i < p - 1 {
                    assert(comes_before(all_keys.take(m), before[i] as int, before[p - 1] as int));
                }
                assert(keys@[i] == all_keys[before[i] as int]);
                assert(keys@[p - 1] == all_keys[before[p - 1] as int]);
            }
            assert forall|i: int| p <= i < m implies all_keys[(#[trigger] before[i]) as int]
                > all_keys[m] by {
                assert(keys@[i] == all_keys[before[i] as int]);
            }
            lemma_stable_order_grows(all_keys, m, before, p as int);
            order = before.insert(p as int, m as usize);
            before.insert_ensures(p as int, m as usize);
        }
        keys.insert(p, key);
        sorted.insert(p, cue);
        proof {
            keys_before.insert_ensures(p as int, key);
            cues_before.insert_ensures(p as int, cue);
            assert forall|i: int| 0 <= i < m + 1 implies keys@[i] == all_keys[(#[trigger] order[i]) as int] by {
                if i < p {
                    assert(order[i] == before[i]);
                } else if i > p {
                    assert(order[i] == before[i - 1]);
                }
            }
            assert forall|i: int| 0 <= i < m + 1 implies cue_texts(sorted@)[i] == arranged(
                all_cues,
                order,
            )[i] by {
                if i < p {
                    assert(order[i] == before[i]);
                    assert(cue_texts(sorted@)[i] == texts[i]);
                } else if i > p {
                    assert(order[i] == before[i - 1]);
                    assert(cue_texts(sorted@)[i] == texts[i - 1]);
                }
            }
            assert(cue_texts(sorted@) =~= arranged(all_cues, order));
        }
    }
    proof {
        assert(all_keys.take(all_keys.len() as int) =~= all_keys);
    }
    sorted
}

} // verus!
