//! The grammar of SubRip text, as functions on sequences of characters, and
//! the order of cues by their keys.

use vstd::prelude::*;

use crate::subs::{Cue, Timestamp};

verus! {

/// `c` is white space: a character with the Unicode property `White_Space`.
pub open spec fn is_space(c: char) -> bool {
    let n = c as int;
    ||| 0x09 <= n <= 0x0D
    ||| n == 0x20
    ||| n == 0x85
    ||| n == 0xA0
    ||| n == 0x1680
    ||| 0x2000 <= n <= 0x200A
    ||| n == 0x2028
    ||| n == 0x2029
    ||| n == 0x202F
    ||| n == 0x205F
    ||| n == 0x3000
}

/// `s` without the white space at its start.
pub open spec fn trim_start(s: Seq<char>) -> Seq<char>
    decreases s.len(),
{
    if s.len() > 0 && is_space(s[0]) {
        trim_start(s.skip(1))
    } else {
        s
    }
}

/// `s` without the white space at its end.
pub open spec fn trim_end(s: Seq<char>) -> Seq<char>
    decreases s.len(),
{
    if s.len() > 0 && is_space(s.last()) {
        trim_end(s.drop_last())
    } else {
        s
    }
}

/// `s` without the white space at its start and at its end.
pub open spec fn trim(s: Seq<char>) -> Seq<char> {
    trim_end(trim_start(s))
}

/// The pattern `pat` stands in `s` at position `i`.
pub open spec fn matches_at(s: Seq<char>, pat: Seq<char>, i: int) -> bool {
    0 <= i && i + pat.len() <= s.len() && s.subrange(i, i + pat.len()) == pat
}

/// The first position from `from` on at which `pat` stands in `s`. An empty
/// pattern is not looked for.
pub open spec fn first_match(s: Seq<char>, pat: Seq<char>, from: int) -> Option<int>
    decreases s.len() - from,
{
    if pat.len() == 0 || from < 0 || from + pat.len() > s.len() {
        None
    } else if matches_at(s, pat, from) {
        Some(from)
    } else {
        first_match(s, pat, from + 1)
    }
}

/// `pat` stands somewhere in `s`.
pub open spec fn contains(s: Seq<char>, pat: Seq<char>) -> bool {
    first_match(s, pat, 0) is Some
}

/// The pieces into which the occurrences of `pat` cut the part of `s` from
/// `start` on. The occurrences are taken from left to right, each behind the
/// one before; a piece may be empty.
pub open spec fn split_from(s: Seq<char>, pat: Seq<char>, start: int) -> Seq<Seq<char>>
    decreases s.len() - start,
{
    if pat.len() == 0 || start < 0 || start > s.len() {
        seq![s]
    } else {
        proof {
            lemma_first_match(s, pat, start);
        }
        match first_match(s, pat, start) {
            None => seq![s.subrange(start, s.len() as int)],
            Some(i) => seq![s.subrange(start, i)] + split_from(s, pat, i + pat.len()),
        }
    }
}

/// The pieces into which the occurrences of `pat` cut `s`.
pub open spec fn split(s: Seq<char>, pat: Seq<char>) -> Seq<Seq<char>> {
    split_from(s, pat, 0)
}

/// The text with every line ending made a line feed: a carriage return goes
/// where a line feed follows it, and becomes a line feed where none does.
pub open spec fn normalize_newlines(s: Seq<char>) -> Seq<char>
    decreases s.len(),
{
    if s.len() == 0 {
        s
    } else if s[0] == '\r' && s.len() > 1 && s[1] == '\n' {
        normalize_newlines(s.skip(1))
    } else if s[0] == '\r' {
        seq!['\n'] + normalize_newlines(s.skip(1))
    } else {
        seq![s[0]] + normalize_newlines(s.skip(1))
    }
}

/// The pieces as sequences of characters.
pub open spec fn seqs(pieces: Seq<Vec<char>>) -> Seq<Seq<char>> {
    pieces.map_values(|p: Vec<char>| p@)
}

/// The line feed that ends a line.
pub open spec fn newline() -> Seq<char> {
    seq!['\n']
}

/// The empty line that parts two blocks.
pub open spec fn blank_line() -> Seq<char> {
    seq!['\n', '\n']
}

/// The arrow between the two times of a cue.
pub open spec fn arrow() -> Seq<char> {
    seq!['-', '-', '>']
}

/// `c` parts two fields of a time: a colon, a comma or a full stop.
pub open spec fn is_separator(c: char) -> bool {
    c == ':' || c == ',' || c == '.'
}

/// The first position from `from` on at which `s` has a separator.
pub open spec fn first_separator(s: Seq<char>, from: int) -> Option<int>
    decreases s.len() - from,
{
    if from < 0 || from >= s.len() {
        None
    } else if is_separator(s[from]) {
        Some(from)
    } else {
        first_separator(s, from + 1)
    }
}

/// The fields into which the separators cut the part of `s` from `start` on.
pub open spec fn fields_from(s: Seq<char>, start: int) -> Seq<Seq<char>>
    decreases s.len() - start,
{
    if start < 0 || start > s.len() {
        seq![s]
    } else {
        proof {
            lemma_first_separator(s, start);
        }
        match first_separator(s, start) {
            None => seq![s.subrange(start, s.len() as int)],
            Some(i) => seq![s.subrange(start, i)] + fields_from(s, i + 1),
        }
    }
}

/// The fields of a time.
pub open spec fn fields(s: Seq<char>) -> Seq<Seq<char>> {
    fields_from(s, 0)
}

/// `c` is one of the digits 0 to 9.
pub open spec fn is_digit(c: char) -> bool {
    '0' as int <= c as int <= '9' as int
}

/// The number that a string of digits is in base ten.
pub open spec fn digits_value(s: Seq<char>) -> nat
    decreases s.len(),
{
    if s.len() == 0 {
        0
    } else {
        10 * digits_value(s.drop_last()) + (s.last() as int - '0' as int) as nat
    }
}

/// All characters of `s` are digits.
pub open spec fn all_digits(s: Seq<char>) -> bool {
    forall|i: int| 0 <= i < s.len() ==> is_digit(#[trigger] s[i])
}

/// `s` without the plus sign that may stand before a number.
pub open spec fn unsigned(s: Seq<char>) -> Seq<char> {
    if s.len() > 0 && s[0] == '+' {
        s.skip(1)
    } else {
        s
    }
}

/// The number that `s` is, if it is one: digits only, at least one, with or
/// without a plus sign before them, and no more than `u32::MAX`.
pub open spec fn parse_u32(s: Seq<char>) -> Option<u32> {
    let d = unsigned(s);
    if d.len() > 0 && all_digits(d) && digits_value(d) <= u32::MAX {
        Some(digits_value(d) as u32)
    } else {
        None
    }
}

/// The number that `s` is, and 0 if it is not a number.
pub open spec fn number_or_zero(s: Seq<char>) -> u32 {
    match parse_u32(s) {
        Some(n) => n,
        None => 0,
    }
}

/// The milliseconds that the field `s` gives: the number that its first three
/// characters are, with zeros in place of those that it lacks.
pub open spec fn millis(s: Seq<char>) -> u32 {
    number_or_zero((s + seq!['0', '0', '0']).take(3))
}

/// The number in field `i`, and 0 if there is no such field.
pub open spec fn field_number(f: Seq<Seq<char>>, i: int) -> u32 {
    if 0 <= i < f.len() {
        number_or_zero(trim(f[i]))
    } else {
        0
    }
}

/// The time that `ts` gives: hours, minutes, seconds and milliseconds are its
/// first four fields.
pub open spec fn timestamp(ts: Seq<char>) -> Timestamp {
    let f = fields(trim(ts));
    Timestamp {
        hh: field_number(f, 0),
        mm: field_number(f, 1),
        ss: field_number(f, 2),
        ms: if 3 < f.len() {
            millis(trim(f[3]))
        } else {
            0
        },
    }
}

/// The lines that are not blank, each without the white space at its end, with
/// a line feed between each two of them.
pub open spec fn joined_lines(lines: Seq<Seq<char>>) -> Seq<char>
    decreases lines.len(),
{
    if lines.len() == 0 {
        Seq::empty()
    } else {
        let before = joined_lines(lines.drop_last());
        let line = trim_end(lines.last());
        if line.len() == 0 {
            before
        } else if before.len() == 0 {
            line
        } else {
            before + newline() + line
        }
    }
}

/// A cue as the grammar gives it: the time at which it starts, the time at
/// which it ends, and its text.
pub struct CueText {
    pub s: Timestamp,
    pub e: Timestamp,
    pub t: Seq<char>,
}

/// The cue that a block gives, if it gives one.
///
/// The time line is the block's second line if that line holds an arrow, else
/// its first; the times are what stands before the first arrow and behind it;
/// the text is made of the lines after the time line. A block of fewer than
/// two lines, without an arrow in its time line, with an empty time, or with an
/// empty text gives no cue.
pub open spec fn cue_of_block(block: Seq<char>) -> Option<CueText> {
    let lines = split(block, newline());
    if lines.len() < 2 {
        None
    } else {
        let at = if contains(trim_end(lines[1]), arrow()) {
            1int
        } else {
            0int
        };
        let time_line = trim_end(lines[at]);
        let times = split(time_line, arrow());
        if !contains(time_line, arrow()) {
            None
        } else {
            let start = trim(times[0]);
            let end = trim(times[1]);
            let text = trim(joined_lines(lines.skip(at + 1)));
            if start.len() == 0 || end.len() == 0 || text.len() == 0 {
                None
            } else {
                Some(CueText { s: timestamp(start), e: timestamp(end), t: text })
            }
        }
    }
}

/// The cues that the blocks give, in the order of the blocks.
pub open spec fn cues_of_blocks(blocks: Seq<Seq<char>>) -> Seq<CueText>
    decreases blocks.len(),
{
    if blocks.len() == 0 {
        Seq::empty()
    } else {
        let before = cues_of_blocks(blocks.drop_last());
        match cue_of_block(trim(blocks.last())) {
            Some(cue) => before.push(cue),
            None => before,
        }
    }
}

/// The cues of a SubRip text, in the order in which the text holds them.
pub open spec fn srt_cues(text: Seq<char>) -> Seq<CueText> {
    cues_of_blocks(split(normalize_newlines(text), blank_line()))
}

/// Entry `a` comes before entry `b`: its key is less, or the keys are equal
/// and it stands before `b`.
pub open spec fn comes_before(keys: Seq<u32>, a: int, b: int) -> bool {
    keys[a] < keys[b] || (keys[a] == keys[b] && a < b)
}

/// Place `k` is an entry of `order`.
pub open spec fn lists_place(order: Seq<usize>, k: int) -> bool {
    exists|i: int| 0 <= i < order.len() && #[trigger] order[i] == k
}

/// `order` lists the places `0..keys.len()`, each once, by rising key, and with
/// equal keys in the order of the places.
pub open spec fn is_stable_order(keys: Seq<u32>, order: Seq<usize>) -> bool {
    &&& order.len() == keys.len()
    &&& forall|i: int| 0 <= i < order.len() ==> (#[trigger] order[i]) < keys.len()
    &&& forall|k: int| 0 <= k < keys.len() ==> #[trigger] lists_place(order, k)
    &&& forall|i: int, j: int|
        0 <= i < j < order.len() ==> comes_before(
            keys,
            (#[trigger] order[i]) as int,
            (#[trigger] order[j]) as int,
        )
}

/// The cues taken in the order that `order` gives.
pub open spec fn arranged(cues: Seq<CueText>, order: Seq<usize>) -> Seq<CueText> {
    Seq::new(order.len(), |i: int| cues[order[i] as int])
}

/// The keys of a list of cues with keys.
pub open spec fn keys_of(keyed: Seq<(u32, Cue)>) -> Seq<u32> {
    keyed.map_values(|entry: (u32, Cue)| entry.0)
}

/// The cues of a list of cues with keys, as the grammar gives them.
pub open spec fn cues_of(keyed: Seq<(u32, Cue)>) -> Seq<CueText> {
    keyed.map_values(|entry: (u32, Cue)| entry.1@)
}

/// Two stable orders of the same keys agree on their first `n` entries.
proof fn lemma_stable_orders_agree(keys: Seq<u32>, a: Seq<usize>, b: Seq<usize>, n: int)
    requires
        is_stable_order(keys, a),
        is_stable_order(keys, b),
        0 <= n <= keys.len(),
    ensures
        forall|i: int| 0 <= i < n ==> a[i] == b[i],
    decreases n,
{
    if n > 0 {
        lemma_stable_orders_agree(keys, a, b, n - 1);
        let m = n - 1;
        assert(lists_place(b, a[m] as int));
        assert(lists_place(a, b[m] as int));
        let j = choose|j: int| 0 <= j < b.len() && #[trigger] b[j] == a[m];
        let k = choose|k: int| 0 <= k < a.len() && #[trigger] a[k] == b[m];
        if j < m {
            assert(a[j] == b[j]);
            assert(comes_before(keys, a[j] as int, a[m] as int));
        }
        if k < m {
            assert(a[k] == b[k]);
            assert(comes_before(keys, b[k] as int, b[m] as int));
        }
        if j > m {
            assert(comes_before(keys, b[m] as int, b[j] as int));
        }
        if k > m {
            assert(comes_before(keys, a[m] as int, a[k] as int));
        }
    }
}

/// Keys have one stable order: to say that a list is in stable order of its
/// keys leaves no choice.
pub proof fn lemma_stable_order_unique(keys: Seq<u32>, a: Seq<usize>, b: Seq<usize>)
    requires
        is_stable_order(keys, a),
        is_stable_order(keys, b),
    ensures
        a == b,
{
    lemma_stable_orders_agree(keys, a, b, keys.len() as int);
    assert(a =~= b);
}

/// Putting place `m` into a stable order of the first `m` keys, behind the
/// entries whose key is not greater and before those whose key is greater,
/// gives a stable order of the first `m + 1` keys.
pub proof fn lemma_stable_order_grows(keys: Seq<u32>, m: int, order: Seq<usize>, p: int)
    requires
        0 <= m < keys.len(),
        m <= usize::MAX,
        is_stable_order(keys.take(m), order),
        0 <= p <= m,
        forall|i: int| 0 <= i < p ==> keys[(#[trigger] order[i]) as int] <= keys[m],
        forall|i: int| p <= i < m ==> keys[(#[trigger] order[i]) as int] > keys[m],
    ensures
        is_stable_order(keys.take(m + 1), order.insert(p, m as usize)),
{
    let grown = order.insert(p, m as usize);
    let old_keys = keys.take(m);
    let new_keys = keys.take(m + 1);
    order.insert_ensures(p, m as usize);
    assert forall|i: int| 0 <= i < grown.len() implies (#[trigger] grown[i]) < new_keys.len() by {
        if i < p {
            assert(grown[i] == order[i]);
        } else if i > p {
            assert(grown[i] == order[i - 1]);
        }
    }
    assert forall|k: int| 0 <= k < new_keys.len() implies #[trigger] lists_place(grown, k) by {
        if k < m {
            assert(lists_place(order, k));
            let i = choose|i: int| 0 <= i < order.len() && #[trigger] order[i] == k;
            if i < p {
                assert(grown[i] == k);
            } else {
                assert(grown[i + 1] == order[i]);
            }
        } else {
            assert(grown[p] == k);
        }
    }
    assert forall|i: int, j: int| 0 <= i < j < grown.len() implies comes_before(
        new_keys,
        (#[trigger] grown[i]) as int,
        (#[trigger] grown[j]) as int,
    ) by {
        let a = if i < p {
            i
        } else {
            i - 1
        };
        let b = if j < p {
            j
        } else {
            j - 1
        };
        if i != p && j != p {
            assert(grown[i] == order[a]);
            assert(grown[j] == order[b]);
            assert(comes_before(old_keys, order[a] as int, order[b] as int));
        } else if i == p {
            assert(grown[j] == order[b]);
            assert(order[b] < m);
        } else {
            assert(grown[i] == order[a]);
            assert(order[a] < m);
        }
    }
}

/// A text that holds the pattern is cut into two pieces at least.
pub proof fn lemma_split_of_match(s: Seq<char>, pat: Seq<char>)
    requires
        contains(s, pat),
    ensures
        split(s, pat).len() >= 2,
{
    lemma_first_match(s, pat, 0);
    let i = first_match(s, pat, 0)->Some_0;
    let rest = split_from(s, pat, i + pat.len());
    assert(rest.len() >= 1) by {
        lemma_first_match(s, pat, i + pat.len());
    }
    assert(split(s, pat) == seq![s.subrange(0, i)] + rest);
}

/// The digits at the start of a number do not make a greater number.
pub proof fn lemma_digits_value_grows(s: Seq<char>, k: int)
    requires
        0 <= k <= s.len(),
    ensures
        digits_value(s.take(k)) <= digits_value(s),
    decreases s.len(),
{
    if k < s.len() {
        lemma_digits_value_grows(s.drop_last(), k);
        assert(s.drop_last().take(k) =~= s.take(k));
    } else {
        assert(s.take(k) =~= s);
    }
}

/// What `first_separator` finds is the leftmost separator.
pub proof fn lemma_first_separator(s: Seq<char>, from: int)
    requires
        0 <= from,
    ensures
        match first_separator(s, from) {
            Some(i) => from <= i < s.len() && is_separator(s[i]) && forall|j: int|
                from <= j < i ==> !is_separator(s[j]),
            None => forall|j: int| from <= j < s.len() ==> !is_separator(s[j]),
        },
    decreases s.len() - from,
{
    if from < s.len() && !is_separator(s[from]) {
        lemma_first_separator(s, from + 1);
    }
}

/// What `first_match` finds is the leftmost occurrence.
pub proof fn lemma_first_match(s: Seq<char>, pat: Seq<char>, from: int)
    requires
        0 <= from,
    ensures
        match first_match(s, pat, from) {
            Some(i) => from <= i && matches_at(s, pat, i) && forall|j: int|
                from <= j < i ==> !matches_at(s, pat, j),
            None => pat.len() == 0 || forall|j: int| from <= j ==> !matches_at(s, pat, j),
        },
    decreases s.len() - from,
{
    if pat.len() > 0 && from + pat.len() <= s.len() && !matches_at(s, pat, from) {
        lemma_first_match(s, pat, from + 1);
    }
}

} // verus!
