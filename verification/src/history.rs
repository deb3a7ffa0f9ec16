//! The history of rung alarms (`log.txt`), most recent first, and the
//! editor text that a history line is inserted into.

use vstd::prelude::*;

use crate::alarm;
use crate::alarm::Alarm;
use crate::text;
use crate::text::{chars_of, line_spans, push_char, string_from_span, trim_span, trim_string};

verus! {

/// The views of a sequence of strings.
pub open spec fn string_views(s: Seq<String>) -> Seq<Seq<char>> {
    s.map_values(|x: String| x@)
}

/// The lines of `lines`, trimmed, without the empty ones and without those
/// equal to `entry`.
pub open spec fn others(lines: Seq<Seq<char>>, entry: Seq<char>) -> Seq<Seq<char>>
    decreases lines.len(),
{
    if lines.len() == 0 {
        Seq::empty()
    } else {
        let prev = others(lines.drop_last(), entry);
        let l = text::trim(lines.last());
        if l.len() == 0 || l == entry {
            prev
        } else {
            prev.push(l)
        }
    }
}

/// The history after `entry` rang: `entry`, trimmed, first, then the other
/// lines in their order, trimmed, without empty lines and other copies of `entry`.
pub open spec fn moved_to_front(lines: Seq<Seq<char>>, entry: Seq<char>) -> Seq<Seq<char>> {
    seq![text::trim(entry)] + others(lines, text::trim(entry))
}

/// The history after `entry` rang (most recent first): `entry` goes to the
/// front, an earlier copy of it and empty lines are dropped.
pub fn move_to_front(existing: &[String], entry: &str) -> (r: Vec<String>)
    ensures
        string_views(r@) == moved_to_front(string_views(existing@), entry@),
{
    let e = trim_string(entry);
    let ghost views = string_views(existing@);
    let mut out: Vec<String> = Vec::new();
    out.push(e.clone());
    let mut i: usize = 0;
    assert(views.take(0) =~= Seq::<Seq<char>>::empty());
    assert(string_views(out@) =~= seq![e@] + others(views.take(0), e@));
    while i < existing.len()
        invariant
            i <= existing@.len(),
            views == string_views(existing@),
            e@ == text::trim(entry@),
            string_views(out@) == seq![e@] + others(views.take(i as int), e@),
        decreases existing.len() - i,
    {
        assert(views.take(i + 1).drop_last() =~= views.take(i as int));
        assert(views.take(i + 1).last() == existing@[i as int]@);
        let l = trim_string(existing[i].as_str());
        if !l.as_str().is_empty() && !(l == e) {
            let ghost before = out@;
            out.push(l);
            assert(string_views(out@) =~= string_views(before).push(text::trim(existing@[i as int]@)));
        }
        i = i + 1;
    }
    assert(views.take(i as int) =~= views);
    out
}

/// The non-empty lines of `lines`, trimmed.
pub open spec fn kept_lines(lines: Seq<Seq<char>>) -> Seq<Seq<char>>
    decreases lines.len(),
{
    if lines.len() == 0 {
        Seq::empty()
    } else {
        let prev = kept_lines(lines.drop_last());
        let l = text::trim(lines.last());
        if l.len() == 0 {
            prev
        } else {
            prev.push(l)
        }
    }
}

/// The history that the text of `log.txt` holds: its lines, trimmed,
/// without the empty ones.
pub fn history_from_text(content: &str) -> (r: Vec<String>)
    ensures
        string_views(r@) == kept_lines(text::split_lines(content@)),
{
    let v = chars_of(content);
    let spans = line_spans(&v);
    let ghost lines = text::split_lines(v@);
    let mut out: Vec<String> = Vec::new();
    let mut j: usize = 0;
    assert(lines.take(0) =~= Seq::<Seq<char>>::empty());
    assert(string_views(out@) =~= Seq::<Seq<char>>::empty());
    while j < spans.len()
        invariant
            j <= spans@.len(),
            spans@.len() == lines.len(),
            lines == text::split_lines(v@),
            text::spans_match(v@, spans@, lines),
            string_views(out@) == kept_lines(lines.take(j as int)),
        decreases spans.len() - j,
    {
        let (lo, hi) = spans[j];
        assert(lines.take(j + 1).drop_last() =~= lines.take(j as int));
        assert(lines.take(j + 1).last() == lines[j as int]);
        let (a, b) = trim_span(&v, lo, hi);
        if a < b {
            let ghost before = out@;
            out.push(string_from_span(&v, a, b));
            assert(string_views(out@) =~= string_views(before).push(text::trim(lines[j as int])));
        }
        j = j + 1;
    }
    assert(lines.take(j as int) =~= lines);
    out
}

/// The lines of `lines` joined by newlines.
pub open spec fn join_lines(lines: Seq<Seq<char>>) -> Seq<char>
    decreases lines.len(),
{
    if lines.len() == 0 {
        Seq::empty()
    } else if lines.len() == 1 {
        lines[0]
    } else {
        join_lines(lines.drop_last()) + seq!['\n'] + lines.last()
    }
}

/// The text of `log.txt` for a history: its lines joined by newlines, with
/// a final newline unless the text is empty.
pub open spec fn history_text(lines: Seq<Seq<char>>) -> Seq<char> {
    let j = join_lines(lines);
    if j.len() == 0 {
        j
    } else {
        j.push('\n')
    }
}

/// The text of `log.txt` that holds `lines`.
pub fn history_to_text(lines: &[String]) -> (r: String)
    ensures
        r@ == history_text(string_views(lines@)),
{
    let ghost views = string_views(lines@);
    let mut r = String::new();
    let mut i: usize = 0;
    assert(views.take(0) =~= Seq::<Seq<char>>::empty());
    while i < lines.len()
        invariant
            i <= lines@.len(),
            views == string_views(lines@),
            r@ == join_lines(views.take(i as int)),
        decreases lines.len() - i,
    {
        assert(views.take(i + 1).drop_last() =~= views.take(i as int));
        assert(views.take(i + 1).last() == lines@[i as int]@);
        if i > 0 {
            push_char(&mut r, '\n');
        } else {
            assert(r@ =~= Seq::<char>::empty());
            assert(views.take(1)[0] == lines@[0]@);
        }
        r.append(lines[i].as_str());
        i = i + 1;
    }
    assert(views.take(i as int) =~= views);
    if !r.as_str().is_empty() {
        push_char(&mut r, '\n');
    }
    r
}

/// The history after alarm `a` rang: its line goes to the front, except for
/// a test ringing, which leaves the history as it is.
pub open spec fn history_after_ring(log: Seq<Seq<char>>, a: alarm::AlarmView, is_test: bool) -> Seq<
    Seq<char>,
> {
    if is_test {
        log
    } else {
        moved_to_front(log, alarm::alarm_line(a))
    }
}

/// The history after `alarm` rang; a test ringing is not recorded.
pub fn record_ring(log: &[String], alarm: &Alarm, is_test: bool) -> (r: Vec<String>)
    ensures
        string_views(r@) == history_after_ring(string_views(log@), alarm@, is_test),
{
    if is_test {
        let mut out: Vec<String> = Vec::new();
        let mut i: usize = 0;
        while i < log.len()
            invariant
                i <= log@.len(),
                string_views(out@) == string_views(log@).take(i as int),
            decreases log.len() - i,
        {
            let ghost before = out@;
            let c = log[i].clone();
            out.push(c);
            assert(out@ == before.push(log@[i as int]));
            assert(string_views(out@) =~= string_views(before).push(log@[i as int]@));
            assert(string_views(log@).take(i + 1) =~= string_views(log@).take(i as int).push(
                log@[i as int]@,
            ));
            i = i + 1;
        }
        assert(string_views(log@).take(i as int) =~= string_views(log@));
        out
    } else {
        let line = alarm.to_line();
        move_to_front(log, line.as_str())
    }
}

/// The editor text after `line` is inserted from the history: a newline is
/// added first when the text does not end with one, then the line and a newline.
pub open spec fn with_line_inserted(editor: Seq<char>, line: Seq<char>) -> Seq<char> {
    let sep = if editor.len() > 0 && editor.last() != '\n' {
        seq!['\n']
    } else {
        Seq::<char>::empty()
    };
    editor + sep + line + seq!['\n']
}

/// Appends a history line to the text of the alarm editor, as a line of its own.
pub fn insert_history_line(editor: &str, line: &str) -> (r: String)
    ensures
        r@ == with_line_inserted(editor@, line@),
{
    let v = chars_of(editor);
    let mut r = String::from_str(editor);
    if v.len() > 0 && v[v.len() - 1] != '\n' {
        push_char(&mut r, '\n');
    }
    r.append(line);
    push_char(&mut r, '\n');
    assert(r@ =~= with_line_inserted(editor@, line@));
    r
}


proof fn lemma_others_shape(lines: Seq<Seq<char>>, entry: Seq<char>)
    ensures
        others(lines, entry).len() <= lines.len(),
        forall|i: int|
            0 <= i < others(lines, entry).len() ==> {
                &&& (#[trigger] others(lines, entry)[i]).len() > 0
                &&& text::is_trimmed(others(lines, entry)[i])
                &&& others(lines, entry)[i] != entry
            },
    decreases lines.len(),
{
    if lines.len() > 0 {
        lemma_others_shape(lines.drop_last(), entry);
        text::lemma_trim_shape(lines.last());
        let prev = others(lines.drop_last(), entry);
        let r = others(lines, entry);
        assert forall|i: int| 0 <= i < r.len() implies {
            &&& (#[trigger] r[i]).len() > 0
            &&& text::is_trimmed(r[i])
            &&& r[i] != entry
        } by {
            if i < prev.len() {
                assert(r[i] == prev[i]);
            }
        }
    }
}

/// Law: after a ringing, the history starts with the trimmed entry and
/// holds no other copy of it and no empty or untrimmed line; it grows by one
/// line at most.
pub proof fn lemma_moved_to_front_shape(lines: Seq<Seq<char>>, entry: Seq<char>)
    ensures
        moved_to_front(lines, entry).len() >= 1,
        moved_to_front(lines, entry).len() <= lines.len() + 1,
        moved_to_front(lines, entry)[0] == text::trim(entry),
        forall|i: int|
            1 <= i < moved_to_front(lines, entry).len() ==> {
                &&& (#[trigger] moved_to_front(lines, entry)[i]).len() > 0
                &&& text::is_trimmed(moved_to_front(lines, entry)[i])
                &&& moved_to_front(lines, entry)[i] != moved_to_front(lines, entry)[0]
            },
{
    let t = text::trim(entry);
    lemma_others_shape(lines, t);
    let r = moved_to_front(lines, entry);
    assert forall|i: int| 1 <= i < r.len() implies {
        &&& (#[trigger] r[i]).len() > 0
        &&& text::is_trimmed(r[i])
        &&& r[i] != r[0]
    } by {
        assert(r[i] == others(lines, t)[i - 1]);
    }
}

proof fn lemma_others_concat(a: Seq<Seq<char>>, b: Seq<Seq<char>>, entry: Seq<char>)
    ensures
        others(a + b, entry) == others(a, entry) + others(b, entry),
    decreases b.len(),
{
    if b.len() == 0 {
        assert(a + b =~= a);
        assert(others(a, entry) + others(b, entry) =~= others(a, entry));
    } else {
        lemma_others_concat(a, b.drop_last(), entry);
        assert((a + b).drop_last() =~= a + b.drop_last());
        assert((a + b).last() == b.last());
        assert(others(a + b, entry) =~= others(a, entry) + others(b, entry));
    }
}

proof fn lemma_others_of_clean(lines: Seq<Seq<char>>, entry: Seq<char>)
    requires
        forall|i: int|
            0 <= i < lines.len() ==> {
                &&& (#[trigger] lines[i]).len() > 0
                &&& text::is_trimmed(lines[i])
                &&& lines[i] != entry
            },
    ensures
        others(lines, entry) == lines,
    decreases lines.len(),
{
    if lines.len() > 0 {
        lemma_others_of_clean(lines.drop_last(), entry);
        assert(lines.last() == lines[lines.len() - 1]);
        text::lemma_trim_trimmed(lines.last());
        assert(lines.drop_last().push(lines.last()) =~= lines);
    }
}

/// Law: the same entry ringing twice in a row leaves the history as after
/// the first time.
pub proof fn lemma_move_to_front_idempotent(lines: Seq<Seq<char>>, entry: Seq<char>)
    ensures
        moved_to_front(moved_to_front(lines, entry), entry) == moved_to_front(lines, entry),
{
    let t = text::trim(entry);
    let r = moved_to_front(lines, entry);
    let rest = others(lines, t);
    lemma_others_shape(lines, t);
    lemma_others_concat(seq![t], rest, t);
    assert(r =~= seq![t] + rest);
    text::lemma_trim_idempotent(entry);
    assert(seq![t].drop_last() =~= Seq::<Seq<char>>::empty());
    assert(others(Seq::<Seq<char>>::empty(), t) =~= Seq::<Seq<char>>::empty());
    assert(seq![t].last() == t);
    assert(others(seq![t], t) =~= Seq::<Seq<char>>::empty());
    lemma_others_of_clean(rest, t);
    assert(others(r, t) =~= rest);
}

proof fn lemma_kept_lines_clean(lines: Seq<Seq<char>>)
    requires
        forall|i: int|
            0 <= i < lines.len() ==> (#[trigger] lines[i]).len() > 0 && text::is_trimmed(lines[i]),
    ensures
        kept_lines(lines) == lines,
    decreases lines.len(),
{
    if lines.len() > 0 {
        lemma_kept_lines_clean(lines.drop_last());
        assert(lines.last() == lines[lines.len() - 1]);
        text::lemma_trim_trimmed(lines.last());
        assert(lines.drop_last().push(lines.last()) =~= lines);
    }
}

proof fn lemma_split_join(lines: Seq<Seq<char>>)
    requires
        lines.len() > 0,
        forall|i: int| 0 <= i < lines.len() ==> !(#[trigger] lines[i]).contains('\n'),
    ensures
        text::split_lines(join_lines(lines)) == lines,
    decreases lines.len(),
{
    if lines.len() == 1 {
        text::lemma_split_lines_single(lines[0]);
        assert(lines =~= seq![lines[0]]);
    } else {
        lemma_split_join(lines.drop_last());
        assert(lines.last() == lines[lines.len() - 1]);
        text::lemma_split_lines_single(lines.last());
        text::lemma_split_lines_concat(join_lines(lines.drop_last()), lines.last());
        assert(lines.drop_last() + seq![lines.last()] =~= lines);
    }
}

/// Law: a history saved to `log.txt` reads back unchanged, as long as its
/// lines are non-empty, trimmed and without newlines (as a history always is).
pub proof fn lemma_history_text_round_trip(lines: Seq<Seq<char>>)
    requires
        forall|i: int|
            0 <= i < lines.len() ==> {
                &&& (#[trigger] lines[i]).len() > 0
                &&& text::is_trimmed(lines[i])
                &&& !lines[i].contains('\n')
            },
    ensures
        kept_lines(text::split_lines(history_text(lines))) == lines,
{
    if lines.len() == 0 {
        assert(history_text(lines) =~= Seq::<char>::empty());
        let all = text::split_lines(Seq::<char>::empty());
        assert(all.drop_last() =~= Seq::<Seq<char>>::empty());
        assert(all.last() =~= Seq::<char>::empty());
        assert(text::trim(Seq::<char>::empty()) =~= Seq::<char>::empty());
        assert(kept_lines(Seq::<Seq<char>>::empty()) =~= Seq::<Seq<char>>::empty());
    } else {
        lemma_split_join(lines);
        assert(join_lines(lines).len() > 0) by {
            if join_lines(lines).len() == 0 {
                assert(text::split_lines(join_lines(lines)) =~= seq![Seq::<char>::empty()]);
                assert(lines[0].len() > 0);
            }
        }
        let j = join_lines(lines);
        text::lemma_split_lines_concat(j, Seq::<char>::empty());
        assert(j + seq!['\n'] + Seq::<char>::empty() =~= history_text(lines));
        let all = text::split_lines(history_text(lines));
        assert(all =~= lines.push(Seq::<char>::empty()));
        assert(all.drop_last() =~= lines);
        assert(all.last() =~= Seq::<char>::empty());
        assert(text::trim(Seq::<char>::empty()) =~= Seq::<char>::empty());
        lemma_kept_lines_clean(lines);
        assert(kept_lines(all) == kept_lines(lines));
    }
}

/// Law: an alarm inserted into the editor from its history line is among
/// the alarms that the edited text describes.
pub proof fn lemma_reinserted_alarm_is_parsed(editor: Seq<char>, a: alarm::AlarmView)
    requires
        alarm::valid_hhmm(a.hhmm),
        text::trim(a.title) == a.title,
        !a.title.contains('\n'),
    ensures
        alarm::parsed_alarms(with_line_inserted(editor, alarm::alarm_line(a))).contains(a),
{
    let l = alarm::alarm_line(a);
    assert(!l.contains('\n')) by {
        if l.contains('\n') {
            let j = choose|j: int| 0 <= j < l.len() && l[j] == '\n';
            if j >= 5 {
                assert(a.title[j - 5] == '\n');
            }
        }
    }
    text::lemma_split_lines_single(l);
    text::lemma_split_lines_concat(l, Seq::<char>::empty());
    assert(l + seq!['\n'] + Seq::<char>::empty() =~= l.push('\n'));
    let tail = seq![l, Seq::<char>::empty()];
    assert(text::split_lines(l.push('\n')) =~= tail);
    let text_all = with_line_inserted(editor, l);
    let prefix: Seq<Seq<char>> = if editor.len() == 0 {
        assert(text_all =~= l.push('\n'));
        Seq::empty()
    } else if editor.last() != '\n' {
        text::lemma_split_lines_concat(editor, l.push('\n'));
        assert(text_all =~= editor + seq!['\n'] + l.push('\n'));
        text::split_lines(editor)
    } else {
        let e0 = editor.drop_last();
        text::lemma_split_lines_concat(e0, l.push('\n'));
        assert(editor =~= e0 + seq!['\n']);
        assert(text_all =~= e0 + seq!['\n'] + l.push('\n'));
        text::split_lines(e0)
    };
    let all = text::split_lines(text_all);
    assert(all =~= prefix + tail);
    assert(all.last() =~= Seq::<char>::empty());
    assert(alarm::parse_line(Seq::<char>::empty()) is None) by {
        assert(text::trim(Seq::<char>::empty()) =~= Seq::<char>::empty());
    }
    assert(all.drop_last() =~= prefix.push(l));
    assert(all.drop_last().drop_last() =~= prefix);
    assert(all.drop_last().last() == l);
    alarm::lemma_alarm_line_round_trip(a);
    assert(alarm::parse_lines(all) == alarm::parse_lines(all.drop_last()));
    assert(alarm::parse_lines(all.drop_last()) == alarm::add_new(
        alarm::parse_lines(prefix),
        Some(a),
    ));
    let found = alarm::parse_lines(prefix);
    if !found.contains(a) {
        assert(found.push(a)[found.len() as int] == a);
    }
}


proof fn lemma_others_as_filter(
    lines: Seq<Seq<char>>,
    entry: Seq<char>,
    tr: spec_fn(Seq<char>) -> Seq<char>,
    keep: spec_fn(Seq<char>) -> bool,
)
    requires
        forall|x: Seq<char>| #[trigger] tr(x) == text::trim(x),
        forall|x: Seq<char>| #[trigger] keep(x) == (x.len() > 0 && x != entry),
    ensures
        others(lines, entry) == lines.map_values(tr).filter(keep),
    decreases lines.len(),
{
    reveal(Seq::filter);
    if lines.len() > 0 {
        lemma_others_as_filter(lines.drop_last(), entry, tr, keep);
        let m = lines.map_values(tr);
        assert(m.drop_last() =~= lines.drop_last().map_values(tr));
        assert(m.last() == tr(lines.last()));
    } else {
        assert(lines.map_values(tr) =~= Seq::<Seq<char>>::empty());
    }
}

/// Law: after a ringing the history is exactly the trimmed entry followed by
/// every line of the old history, trimmed, in its order, except empty lines
/// and copies of the entry; nothing else is dropped or added.
pub proof fn lemma_moved_to_front_keeps_the_rest(lines: Seq<Seq<char>>, entry: Seq<char>)
    ensures
        moved_to_front(lines, entry) == seq![text::trim(entry)] + lines.map_values(
            |l: Seq<char>| text::trim(l),
        ).filter(|l: Seq<char>| l.len() > 0 && l != text::trim(entry)),
        moved_to_front(lines, entry).len() == 1 + lines.map_values(|l: Seq<char>| text::trim(l)).filter(
            |l: Seq<char>| l.len() > 0 && l != text::trim(entry),
        ).len(),
{
    let t = text::trim(entry);
    let tr = |l: Seq<char>| text::trim(l);
    let keep = |l: Seq<char>| l.len() > 0 && l != t;
    lemma_others_as_filter(lines, t, tr, keep);
}

/// Law: a test ringing leaves the history as it is; any other ringing puts
/// the alarm's trimmed line first, whatever the history held (empty too),
/// and keeps every other non-empty line, trimmed, in its order.
pub proof fn lemma_record_ring(log: Seq<Seq<char>>, a: alarm::AlarmView, is_test: bool)
    ensures
        is_test ==> history_after_ring(log, a, is_test) == log,
        !is_test ==> history_after_ring(log, a, is_test).len() >= 1,
        !is_test ==> history_after_ring(log, a, is_test)[0] == text::trim(alarm::alarm_line(a)),
        !is_test ==> history_after_ring(log, a, is_test) == seq![text::trim(alarm::alarm_line(a))]
            + log.map_values(|l: Seq<char>| text::trim(l)).filter(
            |l: Seq<char>| l.len() > 0 && l != text::trim(alarm::alarm_line(a)),
        ),
{
    if !is_test {
        lemma_moved_to_front_keeps_the_rest(log, alarm::alarm_line(a));
    }
}


proof fn lemma_kept_lines_as_filter(
    lines: Seq<Seq<char>>,
    tr: spec_fn(Seq<char>) -> Seq<char>,
    keep: spec_fn(Seq<char>) -> bool,
)
    requires
        forall|x: Seq<char>| #[trigger] tr(x) == text::trim(x),
        forall|x: Seq<char>| #[trigger] keep(x) == (x.len() > 0),
    ensures
        kept_lines(lines) == lines.map_values(tr).filter(keep),
    decreases lines.len(),
{
    reveal(Seq::filter);
    if lines.len() > 0 {
        lemma_kept_lines_as_filter(lines.drop_last(), tr, keep);
        let m = lines.map_values(tr);
        assert(m.drop_last() =~= lines.drop_last().map_values(tr));
        assert(m.last() == tr(lines.last()));
    } else {
        assert(lines.map_values(tr) =~= Seq::<Seq<char>>::empty());
    }
}

/// Law: the history read from `log.txt` is its lines, trimmed, in order,
/// without the empty ones; nothing else.
pub proof fn lemma_history_from_text_meaning(content: Seq<char>)
    ensures
        kept_lines(text::split_lines(content)) == text::split_lines(content).map_values(
            |l: Seq<char>| text::trim(l),
        ).filter(|l: Seq<char>| l.len() > 0),
{
    let tr = |l: Seq<char>| text::trim(l);
    let keep = |l: Seq<char>| l.len() > 0;
    lemma_kept_lines_as_filter(text::split_lines(content), tr, keep);
}

/// Law: the text of `log.txt` holds each line of the history as a line of
/// its own, in order, each ended by a newline; an empty history is an empty
/// text.
pub proof fn lemma_history_text_lines(lines: Seq<Seq<char>>)
    ensures
        lines.len() == 0 ==> history_text(lines).len() == 0,
        lines.len() > 0 && (lines.len() >= 2 || lines[0].len() > 0) && (forall|i: int|
            0 <= i < lines.len() ==> !(#[trigger] lines[i]).contains('\n')) ==> text::split_lines(
            history_text(lines),
        ) == lines.push(Seq::<char>::empty()),
{
    if lines.len() > 0 && (lines.len() >= 2 || lines[0].len() > 0) && (forall|i: int|
        0 <= i < lines.len() ==> !(#[trigger] lines[i]).contains('\n')) {
        lemma_split_join(lines);
        let j = join_lines(lines);
        assert(j.len() > 0) by {
            if lines.len() >= 2 {
                assert(j == join_lines(lines.drop_last()) + seq!['\n'] + lines.last());
            }
        }
        text::lemma_split_lines_concat(j, Seq::<char>::empty());
        assert(j + seq!['\n'] + Seq::<char>::empty() =~= history_text(lines));
        assert(text::split_lines(Seq::<char>::empty()) =~= seq![Seq::<char>::empty()]);
        assert(lines + seq![Seq::<char>::empty()] =~= lines.push(Seq::<char>::empty()));
    }
}

/// Law: inserting a history line keeps the editor text as it is, adds a
/// newline only when the text does not end with one, then the line and a
/// newline: the lines of the editor stay, and the inserted line follows as
/// a line of its own.
pub proof fn lemma_insert_history_line_meaning(editor: Seq<char>, line: Seq<char>)
    ensures
        ({
            let r = with_line_inserted(editor, line);
            let gap: int = if editor.len() > 0 && editor.last() != '\n' {
                1
            } else {
                0
            };
            &&& r.len() == editor.len() + gap + line.len() + 1
            &&& r.subrange(0, editor.len() as int) == editor
            &&& gap == 1 ==> r[editor.len() as int] == '\n'
            &&& r.subrange(editor.len() + gap, r.len() - 1) == line
            &&& r.last() == '\n'
        }),
        !line.contains('\n') ==> text::split_lines(with_line_inserted(editor, line)) == (if editor.len()
            == 0 {
            Seq::<Seq<char>>::empty()
        } else if editor.last() == '\n' {
            text::split_lines(editor).drop_last()
        } else {
            text::split_lines(editor)
        }) + seq![line, Seq::<char>::empty()],
{
    let r = with_line_inserted(editor, line);
    let gap: int = if editor.len() > 0 && editor.last() != '\n' {
        1
    } else {
        0
    };
    assert(r.subrange(0, editor.len() as int) =~= editor);
    assert(r.subrange(editor.len() + gap, r.len() - 1) =~= line);
    if !line.contains('\n') {
        text::lemma_split_lines_single(line);
        text::lemma_split_lines_concat(line, Seq::<char>::empty());
        assert(line + seq!['\n'] + Seq::<char>::empty() =~= line.push('\n'));
        assert(text::split_lines(Seq::<char>::empty()) =~= seq![Seq::<char>::empty()]);
        let tail = seq![line, Seq::<char>::empty()];
        assert(text::split_lines(line.push('\n')) =~= tail);
        if editor.len() == 0 {
            assert(r =~= line.push('\n'));
            assert(Seq::<Seq<char>>::empty() + tail =~= tail);
        } else if editor.last() != '\n' {
            text::lemma_split_lines_concat(editor, line.push('\n'));
            assert(r =~= editor + seq!['\n'] + line.push('\n'));
        } else {
            let e0 = editor.drop_last();
            text::lemma_split_lines_concat(e0, line.push('\n'));
            text::lemma_split_lines_concat(e0, Seq::<char>::empty());
            assert(editor =~= e0 + seq!['\n'] + Seq::<char>::empty());
            assert(r =~= e0 + seq!['\n'] + line.push('\n'));
            assert(text::split_lines(editor).drop_last() =~= text::split_lines(e0));
        }
    }
}

} // verus!
