//! The "next alarm" label of the main window.

use vstd::prelude::*;

use crate::alarm::{hhmm_to_display, Alarm};
use crate::alarm;
use crate::text::push_char;

verus! {

/// `a` sorts before `b` in the byte order in which `str` values compare:
/// lexicographically, a proper prefix first.
pub open spec fn bytes_lt(a: Seq<u8>, b: Seq<u8>) -> bool
    decreases a.len(),
{
    if a.len() == 0 {
        b.len() > 0
    } else if b.len() == 0 {
        false
    } else if a[0] != b[0] {
        a[0] < b[0]
    } else {
        bytes_lt(a.drop_first(), b.drop_first())
    }
}

/// Whether `a` sorts before `b`.
fn slice_lt(a: &[u8], b: &[u8]) -> (r: bool)
    ensures
        r == bytes_lt(a@, b@),
{
    let mut i: usize = 0;
    assert(a@.skip(0) =~= a@);
    assert(b@.skip(0) =~= b@);
    while i < a.len() && i < b.len() && a[i] == b[i]
        invariant
            i <= a.len(),
            i <= b.len(),
            bytes_lt(a@, b@) == bytes_lt(a@.skip(i as int), b@.skip(i as int)),
        decreases a.len() - i,
    {
        assert(a@.skip(i as int).drop_first() =~= a@.skip(i + 1));
        assert(b@.skip(i as int).drop_first() =~= b@.skip(i + 1));
        i = i + 1;
    }
    if i == a.len() {
        i < b.len()
    } else if i == b.len() {
        false
    } else {
        a[i] < b[i]
    }
}

/// The time of the alarm of `alarms` that comes first in byte order among
/// those after `now` (all of them when `now` is `None`); `None` when there
/// is no such alarm.
pub open spec fn earliest_after(alarms: Seq<alarm::AlarmView>, now: Option<Seq<u8>>) -> Option<
    Seq<char>,
>
    decreases alarms.len(),
{
    if alarms.len() == 0 {
        None
    } else {
        let prev = earliest_after(alarms.drop_last(), now);
        let h = alarms.last().hhmm;
        let counts = match now {
            Some(n) => bytes_lt(n, alarm::utf8(h)),
            None => true,
        };
        if !counts {
            prev
        } else {
            match prev {
                Some(m) => if bytes_lt(alarm::utf8(h), alarm::utf8(m)) {
                    Some(h)
                } else {
                    Some(m)
                },
                None => Some(h),
            }
        }
    }
}

/// The time that the label names: the first alarm still to ring today,
/// else the first alarm of the day.
pub open spec fn label_time(alarms: Seq<alarm::AlarmView>, now: Seq<char>) -> Seq<char> {
    match earliest_after(alarms, Some(alarm::utf8(now))) {
        Some(h) => h,
        None => earliest_after(alarms, None).unwrap(),
    }
}

/// The label: "アラームなし" without alarms; "次: HH:MM" for the first alarm
/// after `now` today; else "次: 明日 HH:MM" for the first alarm of tomorrow.
pub open spec fn next_label(alarms: Seq<alarm::AlarmView>, now: Seq<char>) -> Seq<char> {
    if alarms.len() == 0 {
        "アラームなし"@
    } else {
        match earliest_after(alarms, Some(alarm::utf8(now))) {
            Some(h) => "次: "@ + alarm::display_hhmm(h),
            None => "次: 明日 "@ + alarm::display_hhmm(label_time(alarms, now)),
        }
    }
}

/// Index of an alarm of `alarms` whose time is [`earliest_after`] `now`.
fn find_earliest(alarms: &[Alarm], now: Option<&[u8]>) -> (r: Option<usize>)
    ensures
        match r {
            Some(i) => i < alarms@.len() && earliest_after(
                alarm::alarm_views(alarms@),
                match now {
                    Some(n) => Some(n@),
                    None => None,
                },
            ) == Some(alarms@[i as int].hhmm@),
            None => earliest_after(
                alarm::alarm_views(alarms@),
                match now {
                    Some(n) => Some(n@),
                    None => None,
                },
            ) is None,
        },
{
    let ghost views = alarm::alarm_views(alarms@);
    let ghost nowv: Option<Seq<u8>> = match now {
        Some(n) => Some(n@),
        None => None,
    };
    let mut best: Option<usize> = None;
    let mut i: usize = 0;
    while i < alarms.len()
        invariant
            i <= alarms@.len(),
            views == alarm::alarm_views(alarms@),
            nowv == match now {
                Some(n) => Some(n@),
                None => None::<Seq<u8>>,
            },
            match best {
                Some(b) => b < i && earliest_after(views.take(i as int), nowv) == Some(
                    alarms@[b as int].hhmm@,
                ),
                None => earliest_after(views.take(i as int), nowv) is None,
            },
        decreases alarms.len() - i,
    {
        assert(views.take(i + 1).drop_last() =~= views.take(i as int));
        assert(views.take(i + 1).last() == alarms@[i as int]@);
        let h = alarms[i].hhmm.as_str().as_bytes();
        let counts = match now {
            Some(n) => slice_lt(n, h),
            None => true,
        };
        if counts {
            match best {
                Some(b) => {
                    if slice_lt(h, alarms[b].hhmm.as_str().as_bytes()) {
                        best = Some(i);
                    }
                },
                None => {
                    best = Some(i);
                },
            }
        }
        i = i + 1;
    }
    assert(views.take(i as int) =~= views);
    best
}

/// The label of the main window that names the next alarm.
/// - with alarms still to ring today (after `now_hhmm`, in `str` order),
///   "次: HH:MM" for the first of them;
/// - otherwise "次: 明日 HH:MM" for the first alarm of the day;
/// - "アラームなし" when there is no alarm.
///
/// The time named must be one that [`hhmm_to_display`] accepts; every valid
/// time is (see [`lemma_label_displayable`]).
pub fn next_alarm_label(alarms: &[Alarm], now_hhmm: &str) -> (r: String)
    requires
        alarms@.len() > 0 ==> alarm::displayable(label_time(alarm::alarm_views(alarms@), now_hhmm@)),
    ensures
        r@ == next_label(alarm::alarm_views(alarms@), now_hhmm@),
{
    if alarms.len() == 0 {
        return String::from_str("アラームなし");
    }
    let now = now_hhmm.as_bytes();
    match find_earliest(alarms, Some(now)) {
        Some(i) => {
            let mut r = String::from_str("次: ");
            let shown = hhmm_to_display(alarms[i].hhmm.as_str());
            r.append(shown.as_str());
            r
        },
        None => {
            let first = find_earliest(alarms, None);
            proof {
                assert(alarm::alarm_views(alarms@).len() > 0);
                assert(alarm::alarm_views(alarms@).last() == alarms@[alarms@.len() - 1]@);
            }
            let j = match first {
                Some(j) => j,
                None => 0,
            };
            let mut r = String::from_str("次: 明日 ");
            let shown = hhmm_to_display(alarms[j].hhmm.as_str());
            r.append(shown.as_str());
            r
        },
    }
}


pub proof fn lemma_bytes_lt_irreflexive(a: Seq<u8>)
    ensures
        !bytes_lt(a, a),
    decreases a.len(),
{
    if a.len() > 0 {
        lemma_bytes_lt_irreflexive(a.drop_first());
    }
}

pub proof fn lemma_bytes_lt_transitive(a: Seq<u8>, b: Seq<u8>, c: Seq<u8>)
    requires
        bytes_lt(a, b),
        bytes_lt(b, c),
    ensures
        bytes_lt(a, c),
    decreases a.len(),
{
    if a.len() > 0 && a[0] == b[0] && b[0] == c[0] {
        lemma_bytes_lt_transitive(a.drop_first(), b.drop_first(), c.drop_first());
    }
}

/// Whether the alarm time `h` takes part in [`earliest_after`] `now`.
pub open spec fn counts(h: Seq<char>, now: Option<Seq<u8>>) -> bool {
    match now {
        Some(n) => bytes_lt(n, alarm::utf8(h)),
        None => true,
    }
}

/// [`earliest_after`] gives the time of an alarm that takes part, and none
/// that takes part comes before it; it gives nothing only when no alarm takes part.
pub proof fn lemma_earliest_after(alarms: Seq<alarm::AlarmView>, now: Option<Seq<u8>>)
    ensures
        earliest_after(alarms, now) matches Some(h) ==> {
            &&& exists|i: int| 0 <= i < alarms.len() && #[trigger] alarms[i].hhmm == h
            &&& counts(h, now)
            &&& forall|j: int|
                0 <= j < alarms.len() && counts(#[trigger] alarms[j].hhmm, now) ==> !bytes_lt(
                    alarm::utf8(alarms[j].hhmm),
                    alarm::utf8(h),
                )
        },
        earliest_after(alarms, now) is None ==> forall|j: int|
            0 <= j < alarms.len() ==> !counts(#[trigger] alarms[j].hhmm, now),
    decreases alarms.len(),
{
    if alarms.len() > 0 {
        let rest = alarms.drop_last();
        lemma_earliest_after(rest, now);
        let last = alarms.last().hhmm;
        assert(alarms[alarms.len() - 1].hhmm == last);
        assert forall|j: int| 0 <= j < rest.len() implies #[trigger] alarms[j].hhmm == rest[j].hhmm by {}
        match earliest_after(rest, now) {
            Some(m) => {
                let i = choose|i: int| 0 <= i < rest.len() && #[trigger] rest[i].hhmm == m;
                assert(alarms[i].hhmm == m);
                if counts(last, now) && bytes_lt(alarm::utf8(last), alarm::utf8(m)) {
                    assert forall|j: int|
                        0 <= j < alarms.len() && counts(#[trigger] alarms[j].hhmm, now) implies !bytes_lt(
                        alarm::utf8(alarms[j].hhmm),
                        alarm::utf8(last),
                    ) by {
                        if j < rest.len() {
                            assert(alarms[j].hhmm == rest[j].hhmm);
                            if bytes_lt(alarm::utf8(alarms[j].hhmm), alarm::utf8(last)) {
                                lemma_bytes_lt_transitive(
                                    alarm::utf8(alarms[j].hhmm),
                                    alarm::utf8(last),
                                    alarm::utf8(m),
                                );
                            }
                        } else {
                            lemma_bytes_lt_irreflexive(alarm::utf8(last));
                        }
                    }
                } else {
                    assert forall|j: int|
                        0 <= j < alarms.len() && counts(#[trigger] alarms[j].hhmm, now) implies !bytes_lt(
                        alarm::utf8(alarms[j].hhmm),
                        alarm::utf8(m),
                    ) by {
                        if j < rest.len() {
                            assert(alarms[j].hhmm == rest[j].hhmm);
                        }
                    }
                }
            },
            None => {
                if counts(last, now) {
                    lemma_bytes_lt_irreflexive(alarm::utf8(last));
                    assert forall|j: int|
                        0 <= j < alarms.len() && counts(#[trigger] alarms[j].hhmm, now) implies !bytes_lt(
                        alarm::utf8(alarms[j].hhmm),
                        alarm::utf8(last),
                    ) by {
                        if j < rest.len() {
                            assert(alarms[j].hhmm == rest[j].hhmm);
                        }
                    }
                } else {
                    assert forall|j: int| 0 <= j < alarms.len() implies !counts(
                        #[trigger] alarms[j].hhmm,
                        now,
                    ) by {
                        if j < rest.len() {
                            assert(alarms[j].hhmm == rest[j].hhmm);
                        }
                    }
                }
            },
        }
    }
}

/// Law: with alarms, the label names the time of one of them. When an alarm
/// is after `now`, it names such a time and no alarm after `now` is earlier;
/// otherwise (the label says tomorrow) no alarm is after `now` and no alarm
/// at all is earlier than the time named.
pub proof fn lemma_label_time(alarms: Seq<alarm::AlarmView>, now: Seq<char>)
    requires
        alarms.len() > 0,
    ensures
        exists|i: int| 0 <= i < alarms.len() && #[trigger] alarms[i].hhmm == label_time(alarms, now),
        earliest_after(alarms, Some(alarm::utf8(now))) is Some ==> {
            &&& bytes_lt(alarm::utf8(now), alarm::utf8(label_time(alarms, now)))
            &&& forall|j: int|
                0 <= j < alarms.len() && bytes_lt(alarm::utf8(now), alarm::utf8(#[trigger] alarms[j].hhmm))
                    ==> !bytes_lt(alarm::utf8(alarms[j].hhmm), alarm::utf8(label_time(alarms, now)))
        },
        earliest_after(alarms, Some(alarm::utf8(now))) is None ==> {
            &&& forall|j: int|
                0 <= j < alarms.len() ==> !bytes_lt(alarm::utf8(now), alarm::utf8(#[trigger] alarms[j].hhmm))
            &&& forall|j: int|
                0 <= j < alarms.len() ==> !bytes_lt(
                    alarm::utf8(#[trigger] alarms[j].hhmm),
                    alarm::utf8(label_time(alarms, now)),
                )
        },
{
    let n = Some(alarm::utf8(now));
    lemma_earliest_after(alarms, n);
    lemma_earliest_after(alarms, None);
    assert(counts(alarms.last().hhmm, None));
    assert(alarms[alarms.len() - 1] == alarms.last());
    if earliest_after(alarms, n) is None {
        assert(earliest_after(alarms, None) is Some);
        assert forall|j: int| 0 <= j < alarms.len() implies !bytes_lt(
            alarm::utf8(#[trigger] alarms[j].hhmm),
            alarm::utf8(label_time(alarms, now)),
        ) by {
            assert(counts(alarms[j].hhmm, None));
        }
        assert forall|j: int| 0 <= j < alarms.len() implies !bytes_lt(
            alarm::utf8(now),
            alarm::utf8(#[trigger] alarms[j].hhmm),
        ) by {
            assert(!counts(alarms[j].hhmm, n));
        }
    } else {
        assert forall|j: int|
            0 <= j < alarms.len() && bytes_lt(alarm::utf8(now), alarm::utf8(#[trigger] alarms[j].hhmm))
                implies !bytes_lt(alarm::utf8(alarms[j].hhmm), alarm::utf8(label_time(alarms, now))) by {
            assert(counts(alarms[j].hhmm, n));
        }
    }
}


/// Law: when every alarm has a valid time, the label can always be shown,
/// so `next_alarm_label` accepts any list of alarms read from a file.
pub proof fn lemma_label_displayable(alarms: Seq<alarm::AlarmView>, now: Seq<char>)
    requires
        forall|i: int| 0 <= i < alarms.len() ==> alarm::valid_hhmm(#[trigger] alarms[i].hhmm),
    ensures
        alarms.len() > 0 ==> alarm::displayable(label_time(alarms, now)),
{
    if alarms.len() > 0 {
        lemma_label_time(alarms, now);
        let i = choose|i: int| 0 <= i < alarms.len() && #[trigger] alarms[i].hhmm == label_time(alarms, now);
        alarm::lemma_display_valid_hhmm(alarms[i].hhmm);
    }
}

/// The minute of the day that a valid `hhmm` names.
pub open spec fn minute_of_day(s: Seq<char>) -> int {
    60 * (10 * alarm::digit_value(s[0]) + alarm::digit_value(s[1])) + 10 * alarm::digit_value(s[2])
        + alarm::digit_value(s[3])
}

/// Law: between valid times, the `str` order in which the label compares
/// them is the order of the day.
pub proof fn lemma_valid_hhmm_order(a: Seq<char>, b: Seq<char>)
    requires
        alarm::valid_hhmm(a),
        alarm::valid_hhmm(b),
    ensures
        bytes_lt(alarm::utf8(a), alarm::utf8(b)) <==> minute_of_day(a) < minute_of_day(b),
{
    assert(vstd::utf8::is_ascii_chars(a)) by {
        assert forall|i: int| 0 <= i < a.len() implies '\0' <= #[trigger] a[i] <= '\u{7f}' by {
            assert(i == 0 || i == 1 || i == 2 || i == 3);
        }
    }
    assert(vstd::utf8::is_ascii_chars(b)) by {
        assert forall|i: int| 0 <= i < b.len() implies '\0' <= #[trigger] b[i] <= '\u{7f}' by {
            assert(i == 0 || i == 1 || i == 2 || i == 3);
        }
    }
    vstd::utf8::is_ascii_chars_encode_utf8(a);
    vstd::utf8::is_ascii_chars_encode_utf8(b);
    let x = alarm::utf8(a);
    let y = alarm::utf8(b);
    assert(x[0] == a[0] as u8 && x[1] == a[1] as u8 && x[2] == a[2] as u8 && x[3] == a[3] as u8);
    assert(y[0] == b[0] as u8 && y[1] == b[1] as u8 && y[2] == b[2] as u8 && y[3] == b[3] as u8);
    let x1 = x.drop_first();
    let x2 = x1.drop_first();
    let x3 = x2.drop_first();
    let y1 = y.drop_first();
    let y2 = y1.drop_first();
    let y3 = y2.drop_first();
    assert(x3.drop_first().len() == 0 && y3.drop_first().len() == 0);
    assert(x1[0] == x[1] && x2[0] == x[2] && x3[0] == x[3]);
    assert(y1[0] == y[1] && y2[0] == y[2] && y3[0] == y[3]);
    assert(bytes_lt(x3.drop_first(), y3.drop_first()) == false);
    assert(bytes_lt(x3, y3) == if x3[0] != y3[0] {
        x3[0] < y3[0]
    } else {
        bytes_lt(x3.drop_first(), y3.drop_first())
    });
    assert(bytes_lt(x2, y2) == if x2[0] != y2[0] {
        x2[0] < y2[0]
    } else {
        bytes_lt(x3, y3)
    });
    assert(bytes_lt(x1, y1) == if x1[0] != y1[0] {
        x1[0] < y1[0]
    } else {
        bytes_lt(x2, y2)
    });
    assert(bytes_lt(x, y) == if x[0] != y[0] {
        x[0] < y[0]
    } else {
        bytes_lt(x1, y1)
    });
    assert(48 <= a[0] as int <= 57 && 48 <= a[1] as int <= 57 && 48 <= a[2] as int <= 57 && 48
        <= a[3] as int <= 57);
    assert(48 <= b[0] as int <= 57 && 48 <= b[1] as int <= 57 && 48 <= b[2] as int <= 57 && 48
        <= b[3] as int <= 57);
    assert(x[0] as int == a[0] as int && x[1] as int == a[1] as int && x[2] as int == a[2] as int
        && x[3] as int == a[3] as int);
    assert(y[0] as int == b[0] as int && y[1] as int == b[1] as int && y[2] as int == b[2] as int
        && y[3] as int == b[3] as int);
}


/// Law: the label is "アラームなし" without alarms. When some alarm (any of
/// them, the last one included) is after `now`, the label is "次: " and the
/// time, shown, of an alarm after `now` that no alarm after `now` precedes.
/// When none is after `now`, it is "次: 明日 " and the time, shown, of an
/// alarm that no alarm precedes.
pub proof fn lemma_next_label(alarms: Seq<alarm::AlarmView>, now: Seq<char>)
    ensures
        alarms.len() == 0 ==> next_label(alarms, now) == "アラームなし"@,
        (exists|j: int|
            0 <= j < alarms.len() && bytes_lt(alarm::utf8(now), alarm::utf8(#[trigger] alarms[j].hhmm)))
            ==> exists|i: int|
            0 <= i < alarms.len() && {
                &&& bytes_lt(alarm::utf8(now), alarm::utf8(#[trigger] alarms[i].hhmm))
                &&& next_label(alarms, now) == "次: "@ + alarm::display_hhmm(alarms[i].hhmm)
                &&& forall|j: int|
                    0 <= j < alarms.len() && bytes_lt(alarm::utf8(now), alarm::utf8(#[trigger] alarms[j].hhmm))
                        ==> !bytes_lt(alarm::utf8(alarms[j].hhmm), alarm::utf8(alarms[i].hhmm))
            },
        alarms.len() > 0 && (forall|j: int|
            0 <= j < alarms.len() ==> !bytes_lt(alarm::utf8(now), alarm::utf8(#[trigger] alarms[j].hhmm)))
            ==> exists|i: int|
            0 <= i < alarms.len() && {
                &&& next_label(alarms, now) == "次: 明日 "@ + alarm::display_hhmm(#[trigger] alarms[i].hhmm)
                &&& forall|j: int|
                    0 <= j < alarms.len() ==> !bytes_lt(alarm::utf8(#[trigger] alarms[j].hhmm), alarm::utf8(alarms[i].hhmm))
            },
{
    if alarms.len() > 0 {
        lemma_label_time(alarms, now);
        let n = Some(alarm::utf8(now));
        lemma_earliest_after(alarms, n);
        let i = choose|i: int| 0 <= i < alarms.len() && #[trigger] alarms[i].hhmm == label_time(alarms, now);
        if exists|j: int|
            0 <= j < alarms.len() && bytes_lt(alarm::utf8(now), alarm::utf8(#[trigger] alarms[j].hhmm)) {
            let j = choose|j: int|
                0 <= j < alarms.len() && bytes_lt(alarm::utf8(now), alarm::utf8(#[trigger] alarms[j].hhmm));
            assert(counts(alarms[j].hhmm, n));
            assert(earliest_after(alarms, n) is Some);
            assert(bytes_lt(alarm::utf8(now), alarm::utf8(alarms[i].hhmm)));
        } else {
            assert(earliest_after(alarms, n) is None) by {
                if earliest_after(alarms, n) is Some {
                    let h = earliest_after(alarms, n).unwrap();
                    let k = choose|k: int| 0 <= k < alarms.len() && #[trigger] alarms[k].hhmm == h;
                    assert(counts(alarms[k].hhmm, n));
                }
            }
        }
    }
}

} // verus!
