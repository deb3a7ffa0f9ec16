//! Alarms and the alarm file: one alarm per line, `hhmm [title]`.

use vstd::prelude::*;

use crate::text::{chars_of, is_whitespace, line_spans, push_char, string_from_span, trim_span};
use crate::text;
use vstd::utf8::*;

verus! {

/// One alarm: a time of day written `hhmm` and an optional title.
#[derive(Debug, Clone, PartialEq, Eq)]
pub struct Alarm {
    pub hhmm: String,
    pub title: String,
}

/// What an [`Alarm`] holds, as character sequences.
#[verifier::ext_equal]
pub struct AlarmView {
    pub hhmm: Seq<char>,
    pub title: Seq<char>,
}

impl View for Alarm {
    type V = AlarmView;

    open spec fn view(&self) -> AlarmView {
        AlarmView { hhmm: self.hhmm@, title: self.title@ }
    }
}

/// The views of a sequence of alarms.
pub open spec fn alarm_views(s: Seq<Alarm>) -> Seq<AlarmView> {
    s.map_values(|a: Alarm| a@)
}

pub open spec fn is_digit(c: char) -> bool {
    '0' <= c <= '9'
}

pub open spec fn digit_value(c: char) -> int {
    c as int - '0' as int
}

/// `s` is four ASCII digits `hhmm` with `hh` at most 23 and `mm` at most 59.
pub open spec fn valid_hhmm(s: Seq<char>) -> bool {
    &&& s.len() == 4
    &&& is_digit(s[0]) && is_digit(s[1]) && is_digit(s[2]) && is_digit(s[3])
    &&& 10 * digit_value(s[0]) + digit_value(s[1]) <= 23
    &&& 10 * digit_value(s[2]) + digit_value(s[3]) <= 59
}

/// The line written for an alarm in the history: `hhmm`, or `hhmm title`.
pub open spec fn alarm_line(a: AlarmView) -> Seq<char> {
    if a.title.len() == 0 {
        a.hhmm
    } else {
        a.hhmm + seq![' '] + a.title
    }
}

/// Whether `v[lo..hi]` is a valid `hhmm`.
fn valid_hhmm_span(v: &Vec<char>, lo: usize, hi: usize) -> (r: bool)
    requires
        lo <= hi <= v.len(),
    ensures
        r == valid_hhmm(v@.subrange(lo as int, hi as int)),
{
    if hi - lo != 4 {
        return false;
    }
    let c0 = v[lo];
    let c1 = v[lo + 1];
    let c2 = v[lo + 2];
    let c3 = v[lo + 3];
    if !('0' <= c0 && c0 <= '9' && '0' <= c1 && c1 <= '9' && '0' <= c2 && c2 <= '9' && '0' <= c3
        && c3 <= '9') {
        return false;
    }
    let hh: u32 = 10 * (c0 as u32 - '0' as u32) + (c1 as u32 - '0' as u32);
    let mm: u32 = 10 * (c2 as u32 - '0' as u32) + (c3 as u32 - '0' as u32);
    hh <= 23 && mm <= 59
}

/// Whether `s` is a valid time `hhmm` (`hh` 00-23, `mm` 00-59): exactly four
/// bytes, all ASCII digits.
pub fn is_valid_hhmm(s: &str) -> (r: bool)
    ensures
        r == valid_hhmm(s@),
{
    let v = chars_of(s);
    assert(v@.subrange(0, v@.len() as int) =~= v@);
    valid_hhmm_span(&v, 0, v.len())
}

impl Alarm {
    /// The line written for this alarm in the history: `hhmm` alone when
    /// the title is empty, else `hhmm title`.
    pub fn to_line(&self) -> (r: String)
        ensures
            r@ == alarm_line(self@),
    {
        if self.title.as_str().is_empty() {
            self.hhmm.clone()
        } else {
            let mut r = self.hhmm.clone();
            push_char(&mut r, ' ');
            r.append(self.title.as_str());
            r
        }
    }
}


/// The UTF-8 bytes of `s`.
pub open spec fn utf8(s: Seq<char>) -> Seq<u8> {
    encode_utf8(s)
}

/// `hhmm_to_display` can cut `s` in two: when `s` takes four bytes, its
/// third byte starts a character.
pub open spec fn displayable(s: Seq<char>) -> bool {
    utf8(s).len() == 4 ==> is_char_boundary(utf8(s), 2)
}

/// `s` as shown to the user: a string of four bytes gets a colon after its
/// first two bytes ("0850" becomes "08:50"); any other string is shown as it is.
pub open spec fn display_hhmm(s: Seq<char>) -> Seq<char> {
    if utf8(s).len() == 4 {
        decode_utf8(utf8(s).subrange(0, 2)) + seq![':'] + decode_utf8(utf8(s).subrange(2, 4))
    } else {
        s
    }
}

/// Turns `"0850"` into `"08:50"`; a string that is not four bytes long is returned unchanged.
/// A four-byte string whose third byte lies inside a character cannot be cut
/// there and is not accepted.
pub fn hhmm_to_display(hhmm: &str) -> (r: String)
    requires
        displayable(hhmm@),
    ensures
        r@ == display_hhmm(hhmm@),
{
    let bytes = hhmm.as_bytes();
    if bytes.len() == 4 {
        proof {
            encode_utf8_valid_utf8(hhmm@);
        }
        let (head, tail) = hhmm.split_at(2);
        proof {
            encode_utf8_decode_utf8(head@);
            encode_utf8_decode_utf8(tail@);
            assert(utf8(hhmm@).subrange(2, utf8(hhmm@).len() as int) == utf8(hhmm@).subrange(2, 4));
        }
        let mut r = String::from_str(head);
        push_char(&mut r, ':');
        r.append(tail);
        r
    } else {
        String::from_str(hhmm)
    }
}


/// The number of leading characters of `s` that are not whitespace.
pub open spec fn word_len(s: Seq<char>) -> nat
    decreases s.len(),
{
    if s.len() == 0 || text::is_ws(s[0]) {
        0
    } else {
        1 + word_len(s.drop_first())
    }
}

pub proof fn lemma_word_len_bound(s: Seq<char>)
    ensures
        word_len(s) <= s.len(),
        word_len(s) < s.len() ==> text::is_ws(s[word_len(s) as int]),
        forall|i: int| 0 <= i < word_len(s) ==> !text::is_ws(#[trigger] s[i]),
    decreases s.len(),
{
    if s.len() > 0 && !text::is_ws(s[0]) {
        lemma_word_len_bound(s.drop_first());
        assert forall|i: int| 0 <= i < word_len(s) implies !text::is_ws(#[trigger] s[i]) by {
            if i > 0 {
                assert(s[i] == s.drop_first()[i - 1]);
            }
        }
    }
}

/// The alarm that one line of the alarm file describes, if any: the line is
/// trimmed; an empty line describes none; otherwise its first word is the
/// time and the rest, trimmed, the title. The time must be a valid `hhmm`.
pub open spec fn parse_line(line: Seq<char>) -> Option<AlarmView> {
    let l = text::trim(line);
    let k = word_len(l) as int;
    let hhmm = l.subrange(0, k);
    let title = if k < l.len() {
        text::trim(l.subrange(k + 1, l.len() as int))
    } else {
        Seq::<char>::empty()
    };
    if l.len() == 0 || !valid_hhmm(hhmm) {
        None
    } else {
        Some(AlarmView { hhmm, title })
    }
}

/// `found` followed by `a` when `a` describes an alarm not in `found` yet.
pub open spec fn add_new(found: Seq<AlarmView>, a: Option<AlarmView>) -> Seq<AlarmView> {
    match a {
        Some(x) => if found.contains(x) {
            found
        } else {
            found.push(x)
        },
        None => found,
    }
}

/// The alarms that `lines` describe, each once, in the order of first appearance.
pub open spec fn parse_lines(lines: Seq<Seq<char>>) -> Seq<AlarmView>
    decreases lines.len(),
{
    if lines.len() == 0 {
        Seq::empty()
    } else {
        add_new(parse_lines(lines.drop_last()), parse_line(lines.last()))
    }
}

/// The alarms that the text of an alarm file describes.
pub open spec fn parsed_alarms(content: Seq<char>) -> Seq<AlarmView> {
    parse_lines(text::split_lines(content))
}

/// The alarm that the line `v[lo..hi]` describes, if any; see [`parse_line`].
fn parse_line_span(v: &Vec<char>, lo: usize, hi: usize) -> (r: Option<Alarm>)
    requires
        lo <= hi <= v.len(),
    ensures
        match r {
            Some(a) => parse_line(v@.subrange(lo as int, hi as int)) == Some(a@),
            None => parse_line(v@.subrange(lo as int, hi as int)) is None,
        },
{
    let ghost line = v@.subrange(lo as int, hi as int);
    let (a, b) = trim_span(v, lo, hi);
    let ghost l = v@.subrange(a as int, b as int);
    if a == b {
        return None;
    }
    let mut k = a;
    while k < b && !is_whitespace(v[k])
        invariant
            a <= k <= b <= v.len(),
            word_len(l) == (k - a) + word_len(v@.subrange(k as int, b as int)),
        decreases b - k,
    {
        assert(v@.subrange(k as int, b as int).drop_first() =~= v@.subrange(k + 1, b as int));
        k = k + 1;
    }
    assert(word_len(l) == k - a);
    assert(l.subrange(0, k - a) =~= v@.subrange(a as int, k as int));
    if !valid_hhmm_span(v, a, k) {
        return None;
    }
    let hhmm = string_from_span(v, a, k);
    let title = if k < b {
        let (c, d) = trim_span(v, k + 1, b);
        assert(l.subrange(k - a + 1, l.len() as int) =~= v@.subrange(k + 1, b as int));
        string_from_span(v, c, d)
    } else {
        String::new()
    };
    let r = Alarm { hhmm, title };
    assert(parse_line(line) == Some(r@));
    Some(r)
}

/// Whether `found` already holds an alarm equal to `a`.
fn contains_alarm(found: &Vec<Alarm>, a: &Alarm) -> (r: bool)
    ensures
        r == alarm_views(found@).contains(a@),
{
    let mut i: usize = 0;
    while i < found.len()
        invariant
            0 <= i <= found.len(),
            forall|j: int| 0 <= j < i ==> found@[j]@ != a@,
        decreases found.len() - i,
    {
        if found[i].hhmm == a.hhmm && found[i].title == a.title {
            assert(alarm_views(found@)[i as int] == a@);
            return true;
        }
        i = i + 1;
    }
    proof {
        if alarm_views(found@).contains(a@) {
            let j = choose|j: int| 0 <= j < alarm_views(found@).len() && alarm_views(found@)[j] == a@;
            assert(found@[j]@ == a@);
        }
    }
    false
}

/// Parses the text of an alarm file.
/// - one line is `hhmm [title]`
/// - lines that are not valid are ignored
/// - of equal `(hhmm, title)` pairs only the first is kept, in file order
pub fn parse_alarms(content: &str) -> (r: Vec<Alarm>)
    ensures
        alarm_views(r@) == parsed_alarms(content@),
{
    let v = chars_of(content);
    let spans = line_spans(&v);
    let ghost lines = text::split_lines(v@);
    let mut out: Vec<Alarm> = Vec::new();
    let mut j: usize = 0;
    assert(lines.take(0) =~= Seq::<Seq<char>>::empty());
    while j < spans.len()
        invariant
            0 <= j <= spans@.len(),
            spans@.len() == lines.len(),
            lines == text::split_lines(v@),
            text::spans_match(v@, spans@, lines),
            alarm_views(out@) == parse_lines(lines.take(j as int)),
        decreases spans.len() - j,
    {
        let (lo, hi) = spans[j];
        assert(lines.take(j + 1).drop_last() =~= lines.take(j as int));
        assert(lines.take(j + 1).last() == lines[j as int]);
        let parsed = parse_line_span(&v, lo, hi);
        match parsed {
            Some(a) => {
                if !contains_alarm(&out, &a) {
                    out.push(a);
                    assert(alarm_views(out@) =~= parse_lines(lines.take(j as int)).push(a@));
                }
            },
            None => {},
        }
        j = j + 1;
    }
    assert(lines.take(j as int) =~= lines);
    out
}


/// What `parse_line` gives is a valid time with a trimmed title, taken from
/// the line.
#[verifier::spinoff_prover]
proof fn lemma_parse_line_well_formed(line: Seq<char>)
    ensures
        parse_line(line) matches Some(a) ==> {
            &&& valid_hhmm(a.hhmm)
            &&& text::trim(a.title) == a.title
            &&& (!line.contains('\n') ==> !a.title.contains('\n'))
        },
{
    if let Some(a) = parse_line(line) {
        let l = text::trim(line);
        let k = word_len(l) as int;
        lemma_word_len_bound(l);
        text::lemma_trim_shape(line);
        if k < l.len() {
            let rest = l.subrange(k + 1, l.len() as int);
            text::lemma_trim_idempotent(rest);
            text::lemma_trim_shape(rest);
            if !line.contains('\n') && a.title.contains('\n') {
                let (x, y) = choose|x: int, y: int|
                    0 <= x <= y <= line.len() && l == line.subrange(x, y);
                let (u, w) = choose|u: int, w: int|
                    0 <= u <= w <= rest.len() && a.title == rest.subrange(u, w);
                let j = choose|j: int| 0 <= j < a.title.len() && a.title[j] == '\n';
                assert(line[x + k + 1 + u + j] == '\n');
            }
        } else {
            assert(a.title =~= Seq::<char>::empty());
        }
    }
}

/// Law: every alarm read from an alarm file has a valid time and a trimmed
/// title on one line, and no alarm is read twice.
#[verifier::spinoff_prover]
pub proof fn lemma_parsed_alarms_well_formed(content: Seq<char>)
    ensures
        forall|i: int|
            0 <= i < parsed_alarms(content).len() ==> {
                &&& valid_hhmm(#[trigger] parsed_alarms(content)[i].hhmm)
                &&& text::trim(parsed_alarms(content)[i].title) == parsed_alarms(content)[i].title
                &&& !parsed_alarms(content)[i].title.contains('\n')
            },
        forall|i: int, j: int|
            0 <= i < j < parsed_alarms(content).len() ==> parsed_alarms(content)[i]
                != parsed_alarms(content)[j],
{
    text::lemma_split_lines_no_newline(content);
    lemma_parse_lines_well_formed(text::split_lines(content));
}

#[verifier::spinoff_prover]
proof fn lemma_parse_lines_well_formed(lines: Seq<Seq<char>>)
    requires
        forall|i: int| 0 <= i < lines.len() ==> !(#[trigger] lines[i]).contains('\n'),
    ensures
        forall|i: int|
            0 <= i < parse_lines(lines).len() ==> {
                &&& valid_hhmm(#[trigger] parse_lines(lines)[i].hhmm)
                &&& text::trim(parse_lines(lines)[i].title) == parse_lines(lines)[i].title
                &&& !parse_lines(lines)[i].title.contains('\n')
            },
        forall|i: int, j: int|
            0 <= i < j < parse_lines(lines).len() ==> parse_lines(lines)[i] != parse_lines(
                lines,
            )[j],
    decreases lines.len(),
{
    if lines.len() > 0 {
        let prev = parse_lines(lines.drop_last());
        assert forall|i: int| 0 <= i < lines.drop_last().len() implies !(
        #[trigger] lines.drop_last()[i]).contains('\n') by {
            assert(lines.drop_last()[i] == lines[i]);
        }
        lemma_parse_lines_well_formed(lines.drop_last());
        assert(lines.last() == lines[lines.len() - 1]);
        lemma_parse_line_well_formed(lines.last());
        let r = parse_lines(lines);
        if let Some(x) = parse_line(lines.last()) {
            if !prev.contains(x) {
                assert(r == prev.push(x));
                assert forall|i: int, j: int| 0 <= i < j < r.len() implies r[i] != r[j] by {
                    if j == prev.len() {
                        assert(r[j] == x);
                        assert(r[i] == prev[i]);
                    } else {
                        assert(r[i] == prev[i]);
                        assert(r[j] == prev[j]);
                    }
                }
                assert forall|i: int| 0 <= i < r.len() implies {
                    &&& valid_hhmm(#[trigger] r[i].hhmm)
                    &&& text::trim(r[i].title) == r[i].title
                    &&& !r[i].title.contains('\n')
                } by {
                    if i < prev.len() {
                        assert(r[i] == prev[i]);
                    }
                }
            }
        }
    }
}

proof fn lemma_digit_not_ws(c: char)
    requires
        is_digit(c),
    ensures
        !text::is_ws(c),
{
}

/// The first word of `l` is its first four characters when these are not
/// whitespace and the fifth is (or there is none).
proof fn lemma_word_len_four(l: Seq<char>)
    requires
        l.len() >= 4,
        !text::is_ws(l[0]) && !text::is_ws(l[1]) && !text::is_ws(l[2]) && !text::is_ws(l[3]),
        l.len() > 4 ==> text::is_ws(l[4]),
    ensures
        word_len(l) == 4,
{
    lemma_word_len_bound(l);
    let k = word_len(l) as int;
    if k < 4 {
        assert(text::is_ws(l[k]));
    } else if k > 4 {
        assert(!text::is_ws(l[4]));
    }
}

/// Law: the line written for an alarm in the history reads back as the same
/// alarm, so an alarm inserted again from the history is the alarm that rang.
#[verifier::spinoff_prover]
pub proof fn lemma_alarm_line_round_trip(a: AlarmView)
    requires
        valid_hhmm(a.hhmm),
        text::trim(a.title) == a.title,
    ensures
        parse_line(alarm_line(a)) == Some(a),
{
    let l = alarm_line(a);
    let h = a.hhmm;
    assert(l.len() >= 4 && l[0] == h[0] && l[1] == h[1] && l[2] == h[2] && l[3] == h[3]);
    assert(!text::is_ws(l[0]) && !text::is_ws(l[1]) && !text::is_ws(l[2]) && !text::is_ws(l[3]))
        by {
        lemma_digit_not_ws(h[0]);
        lemma_digit_not_ws(h[1]);
        lemma_digit_not_ws(h[2]);
        lemma_digit_not_ws(h[3]);
    }
    assert(text::is_trimmed(l) && (l.len() > 4 ==> text::is_ws(l[4]))) by {
        if a.title.len() > 0 {
            text::lemma_trim_shape(a.title);
            assert(l.last() == a.title.last());
            assert(l[4] == ' ');
        } else {
            assert(l.last() == h[3]);
        }
    }
    assert(text::trim(l) == l) by {
        text::lemma_trim_trimmed(l);
    }
    assert(word_len(l) == 4) by {
        lemma_word_len_four(l);
    }
    assert(l.subrange(0, 4) == h);
    let title = if 4 < l.len() {
        text::trim(l.subrange(5, l.len() as int))
    } else {
        Seq::<char>::empty()
    };
    assert(title == a.title) by {
        if a.title.len() > 0 {
            assert(l.subrange(5, l.len() as int) =~= a.title);
        } else {
            assert(a.title =~= Seq::<char>::empty());
        }
    }
}

/// Law: a valid time `hhmm` is shown as `hh:mm`.
pub proof fn lemma_display_valid_hhmm(s: Seq<char>)
    requires
        valid_hhmm(s),
    ensures
        displayable(s),
        display_hhmm(s) == s.subrange(0, 2) + seq![':'] + s.subrange(2, 4),
{
    assert(is_ascii_chars(s)) by {
        assert forall|i: int| 0 <= i < s.len() implies '\0' <= #[trigger] s[i] <= '\u{7f}' by {
            assert(i == 0 || i == 1 || i == 2 || i == 3);
        }
    }
    is_ascii_chars_encode_utf8(s);
    let b = utf8(s);
    assert(b.len() == 4);
    assert(is_ascii_chars(s.subrange(0, 2)));
    assert(is_ascii_chars(s.subrange(2, 4)));
    is_ascii_chars_encode_utf8(s.subrange(0, 2));
    is_ascii_chars_encode_utf8(s.subrange(2, 4));
    assert(utf8(s.subrange(0, 2)) =~= b.subrange(0, 2));
    assert(utf8(s.subrange(2, 4)) =~= b.subrange(2, 4));
    encode_utf8_decode_utf8(s.subrange(0, 2));
    encode_utf8_decode_utf8(s.subrange(2, 4));
    encode_utf8_valid_utf8(s);
    assert(b[2] == s[2] as u8);
    is_char_boundary_iff_not_is_continuation_byte(b, 2);
}


/// Law: what one line of the alarm file means, in terms of the trimmed line
/// `l`: it describes an alarm exactly when its first four characters are a
/// valid time followed by whitespace or by nothing; the time is those four
/// characters and the title is the rest after the whitespace character, trimmed.
#[verifier::spinoff_prover]
pub proof fn lemma_parse_line_meaning(line: Seq<char>)
    ensures
        ({
            let l = text::trim(line);
            &&& parse_line(line) is Some <==> (l.len() >= 4 && valid_hhmm(l.subrange(0, 4)) && (
            l.len() == 4 || text::is_ws(l[4])))
            &&& parse_line(line) matches Some(a) ==> {
                &&& a.hhmm == l.subrange(0, 4)
                &&& a.title == if l.len() == 4 {
                    Seq::<char>::empty()
                } else {
                    text::trim(l.subrange(5, l.len() as int))
                }
            }
        }),
{
    let l = text::trim(line);
    lemma_word_len_bound(l);
    let k = word_len(l) as int;
    if l.len() >= 4 && valid_hhmm(l.subrange(0, 4)) && (l.len() == 4 || text::is_ws(l[4])) {
        let h = l.subrange(0, 4);
        lemma_digit_not_ws(h[0]);
        lemma_digit_not_ws(h[1]);
        lemma_digit_not_ws(h[2]);
        lemma_digit_not_ws(h[3]);
        assert(l[0] == h[0] && l[1] == h[1] && l[2] == h[2] && l[3] == h[3]);
        lemma_word_len_four(l);
    }
    if parse_line(line) is Some {
        assert(valid_hhmm(l.subrange(0, k)));
        assert(k == 4);
        if k < l.len() {
            assert(text::is_ws(l[k]));
        }
    }
}

proof fn lemma_parse_lines_complete(lines: Seq<Seq<char>>)
    ensures
        forall|i: int|
            0 <= i < lines.len() && (#[trigger] parse_line(lines[i])) is Some ==> parse_lines(
                lines,
            ).contains(parse_line(lines[i]).unwrap()),
        forall|p: int|
            0 <= p < parse_lines(lines).len() ==> exists|i: int|
                0 <= i < lines.len() && #[trigger] parse_line(lines[i]) == Some(
                    #[trigger] parse_lines(lines)[p],
                ),
        forall|p: int, q: int|
            #![trigger parse_lines(lines)[p], parse_lines(lines)[q]]
            0 <= p < q < parse_lines(lines).len() ==> exists|i: int|
                #![trigger lines[i]]
                0 <= i < lines.len() && parse_line(lines[i]) == Some(parse_lines(lines)[p]) && (
                forall|k: int|
                    0 <= k <= i ==> #[trigger] parse_line(lines[k]) != Some(
                        parse_lines(lines)[q],
                    )),
    decreases lines.len(),
{
    if lines.len() > 0 {
        let rest = lines.drop_last();
        lemma_parse_lines_complete(rest);
        let prev = parse_lines(rest);
        let r = parse_lines(lines);
        let n = lines.len() - 1;
        assert(lines[n] == lines.last());
        assert forall|i: int| 0 <= i < rest.len() implies lines[i] == rest[i] by {}
        assert forall|i: int|
            0 <= i < lines.len() && (#[trigger] parse_line(lines[i])) is Some implies r.contains(
            parse_line(lines[i]).unwrap(),
        ) by {
            if i < n {
                assert(parse_line(rest[i]) == parse_line(lines[i]));
                let x = parse_line(lines[i]).unwrap();
                assert(prev.contains(x));
                let m = choose|m: int| 0 <= m < prev.len() && prev[m] == x;
                if !(r == prev) {
                    assert(r[m] == prev[m]);
                }
            } else {
                let x = parse_line(lines[i]).unwrap();
                if !prev.contains(x) {
                    assert(r[prev.len() as int] == x);
                }
            }
        }
        assert forall|p: int| 0 <= p < r.len() implies exists|i: int|
            0 <= i < lines.len() && #[trigger] parse_line(lines[i]) == Some(#[trigger] r[p]) by {
            if p < prev.len() {
                assert(r[p] == prev[p]);
                let i = choose|i: int| 0 <= i < rest.len() && #[trigger] parse_line(rest[i]) == Some(prev[p]);
                assert(parse_line(lines[i]) == Some(r[p]));
            } else {
                assert(parse_line(lines[n]) == Some(r[p]));
            }
        }
        assert forall|p: int, q: int|
            #![trigger r[p], r[q]]
            0 <= p < q < r.len() implies exists|i: int|
            #![trigger lines[i]]
            0 <= i < lines.len() && parse_line(lines[i]) == Some(r[p]) && (forall|k: int|
                0 <= k <= i ==> #[trigger] parse_line(lines[k]) != Some(r[q])) by {
            assert(r[p] == prev[p]);
            if q < prev.len() {
                assert(r[q] == prev[q]);
                let i = choose|i: int|
                    #![trigger rest[i]]
                    0 <= i < rest.len() && parse_line(rest[i]) == Some(prev[p]) && (forall|k: int|
                        0 <= k <= i ==> #[trigger] parse_line(rest[k]) != Some(prev[q]));
                assert forall|k: int| 0 <= k <= i implies #[trigger] parse_line(lines[k]) != Some(r[q]) by {
                    assert(lines[k] == rest[k]);
                }
            } else {
                let x = r[q];
                assert(!prev.contains(x));
                let i = choose|i: int| 0 <= i < rest.len() && #[trigger] parse_line(rest[i]) == Some(prev[p]);
                assert(parse_line(lines[i]) == Some(r[p]));
                assert forall|k: int| 0 <= k <= i implies #[trigger] parse_line(lines[k]) != Some(x) by {
                    assert(lines[k] == rest[k]);
                    if parse_line(rest[k]) == Some(x) {
                        assert(prev.contains(parse_line(rest[k]).unwrap()));
                    }
                }
            }
        }
    }
}

/// Law: every alarm that a line of the file describes is read, only those
/// are read, and they come in the order of their first lines: of two alarms
/// read, the first has a line before any line of the second.
#[verifier::spinoff_prover]
pub proof fn lemma_parsed_alarms_complete(content: Seq<char>)
    ensures
        forall|i: int|
            0 <= i < text::split_lines(content).len() && (#[trigger] parse_line(
                text::split_lines(content)[i],
            )) is Some ==> parsed_alarms(content).contains(
                parse_line(text::split_lines(content)[i]).unwrap(),
            ),
        forall|p: int|
            0 <= p < parsed_alarms(content).len() ==> exists|i: int|
                0 <= i < text::split_lines(content).len() && #[trigger] parse_line(
                    text::split_lines(content)[i],
                ) == Some(#[trigger] parsed_alarms(content)[p]),
        forall|p: int, q: int|
            #![trigger parsed_alarms(content)[p], parsed_alarms(content)[q]]
            0 <= p < q < parsed_alarms(content).len() ==> exists|i: int|
                #![trigger text::split_lines(content)[i]]
                0 <= i < text::split_lines(content).len() && parse_line(
                    text::split_lines(content)[i],
                ) == Some(parsed_alarms(content)[p]) && (forall|k: int|
                    0 <= k <= i ==> #[trigger] parse_line(text::split_lines(content)[k]) != Some(
                        parsed_alarms(content)[q],
                    )),
{
    lemma_parse_lines_complete(text::split_lines(content));
}


/// Law: a string that is not four bytes long is shown as it is; a
/// four-byte one is cut into two parts, the first of two bytes, with a colon
/// put between them.
pub proof fn lemma_display_meaning(s: Seq<char>)
    requires
        displayable(s),
    ensures
        utf8(s).len() != 4 ==> display_hhmm(s) == s,
        utf8(s).len() == 4 ==> exists|p: Seq<char>, q: Seq<char>|
            #![trigger utf8(p), utf8(q)]
            p + q == s && utf8(p).len() == 2 && display_hhmm(s) == p + seq![':'] + q,
{
    if utf8(s).len() == 4 {
        let b = utf8(s);
        encode_utf8_valid_utf8(s);
        valid_utf8_split(b, 2);
        decode_utf8_split(b, 2);
        encode_utf8_decode_utf8(s);
        let p = decode_utf8(b.subrange(0, 2));
        let q = decode_utf8(b.subrange(2, 4));
        assert(b.subrange(2, b.len() as int) == b.subrange(2, 4));
        decode_utf8_encode_utf8(b.subrange(0, 2));
        assert(p + q == s);
        assert(utf8(p).len() == 2);
        assert(utf8(q) == utf8(q));
    }
}

/// Law: the history line of an alarm is its time alone when it has no
/// title, else its time, one space and its title.
pub proof fn lemma_alarm_line_shape(a: AlarmView)
    ensures
        a.title.len() == 0 ==> alarm_line(a) == a.hhmm,
        a.title.len() > 0 ==> {
            let l = alarm_line(a);
            let n = a.hhmm.len() as int;
            &&& l.len() == n + 1 + a.title.len()
            &&& l.subrange(0, n) == a.hhmm
            &&& l[n] == ' '
            &&& l.subrange(n + 1, l.len() as int) == a.title
        },
{
    if a.title.len() > 0 {
        let l = alarm_line(a);
        let n = a.hhmm.len() as int;
        assert(l.subrange(0, n) =~= a.hhmm);
        assert(l.subrange(n + 1, l.len() as int) =~= a.title);
    }
}

} // verus!
