//! The per-minute firing decision: which alarms ring when the minute turns.

use vstd::prelude::*;

use crate::alarm;
use crate::alarm::Alarm;
use crate::text::push_char;

verus! {

/// The ASCII digit for `d` (0 to 9).
pub open spec fn digit_char(d: int) -> char {
    (d + '0' as int) as char
}

/// The time `hour:minute` written `hhmm`, each part on two digits.
pub open spec fn clock_hhmm(hour: int, minute: int) -> Seq<char> {
    seq![digit_char(hour / 10), digit_char(hour % 10), digit_char(minute / 10), digit_char(minute % 10)]
}

fn digit(d: u32) -> (c: char)
    requires
        d < 10,
    ensures
        c == digit_char(d as int),
{
    let b: u8 = 48u8 + (d as u8);
    b as char
}

/// The minute of the clock, `hour` and `minute` as a clock reads them,
/// written as in the alarm file: `"0850"` for 8:50.
pub fn hhmm_from_clock(hour: u32, minute: u32) -> (r: String)
    requires
        hour < 24,
        minute < 60,
    ensures
        r@ == clock_hhmm(hour as int, minute as int),
        alarm::valid_hhmm(r@),
{
    let mut r = String::new();
    push_char(&mut r, digit(hour / 10));
    push_char(&mut r, digit(hour % 10));
    push_char(&mut r, digit(minute / 10));
    push_char(&mut r, digit(minute % 10));
    assert(r@ =~= clock_hhmm(hour as int, minute as int));
    r
}

/// What identifies one ringing: the day (`YYYY-MM-DD`), the time and the title.
pub type FireKey = (Seq<char>, Seq<char>, Seq<char>);

/// The key of alarm `a` ringing on `day`.
pub open spec fn fire_key(day: Seq<char>, a: alarm::AlarmView) -> FireKey {
    (day, a.hhmm, a.title)
}

/// What an [`AlarmClock`] remembers: the minute it last looked at, and
/// which alarms it has rung (on which day).
pub struct ClockView {
    pub last_minute: Seq<char>,
    pub fired: Set<FireKey>,
}

/// Remembers the last minute seen and the alarms already rung, so that each
/// alarm rings at most once per day and only when the minute turns.
pub struct AlarmClock {
    last_minute: String,
    fired: Vec<(String, String, String)>,
}

/// The keys that a list of rung alarms holds.
pub open spec fn key_set(v: Seq<(String, String, String)>) -> Set<FireKey> {
    Set::new(|k: FireKey| exists|i: int| 0 <= i < v.len() && #[trigger] key_of(v[i]) == k)
}

pub open spec fn key_of(e: (String, String, String)) -> FireKey {
    (e.0@, e.1@, e.2@)
}

impl View for AlarmClock {
    type V = ClockView;

    closed spec fn view(&self) -> ClockView {
        ClockView { last_minute: self.last_minute@, fired: key_set(self.fired@) }
    }
}

/// Rings, in order, each alarm of `alarms` set to `now` whose key for
/// `today` is not rung yet; gives the keys rung afterwards and the alarms rung.
pub open spec fn ring_matching(
    fired: Set<FireKey>,
    alarms: Seq<alarm::AlarmView>,
    now: Seq<char>,
    today: Seq<char>,
) -> (Set<FireKey>, Seq<alarm::AlarmView>)
    decreases alarms.len(),
{
    if alarms.len() == 0 {
        (fired, Seq::empty())
    } else {
        let (f, rung) = ring_matching(fired, alarms.drop_last(), now, today);
        let a = alarms.last();
        if a.hhmm == now && !f.contains(fire_key(today, a)) {
            (f.insert(fire_key(today, a)), rung.push(a))
        } else {
            (f, rung)
        }
    }
}

/// The keys of `fired` rung on `today`.
pub open spec fn kept_today(fired: Set<FireKey>, today: Seq<char>) -> Set<FireKey> {
    fired.filter(|k: FireKey| k.0 == today)
}

/// One tick of the clock at minute `now` of day `today`: nothing happens
/// while the minute is the one last seen; when it has changed, the keys of
/// other days are forgotten and the alarms set to `now` ring, each once.
pub open spec fn tick_result(
    st: ClockView,
    alarms: Seq<alarm::AlarmView>,
    now: Seq<char>,
    today: Seq<char>,
) -> (ClockView, Seq<alarm::AlarmView>) {
    if now == st.last_minute {
        (st, Seq::empty())
    } else {
        let (f, rung) = ring_matching(kept_today(st.fired, today), alarms, now, today);
        (ClockView { last_minute: now, fired: f }, rung)
    }
}

/// Adding an entry to a list of rung alarms adds its key.
pub proof fn lemma_key_set_push(v: Seq<(String, String, String)>, e: (String, String, String))
    ensures
        key_set(v.push(e)) == key_set(v).insert(key_of(e)),
{
    let w = v.push(e);
    assert forall|k: FireKey| key_set(v).insert(key_of(e)).contains(k) implies #[trigger] key_set(w).contains(k) by {
        if k == key_of(e) {
            assert(key_of(w[v.len() as int]) == k);
        } else {
            let m = choose|m: int| 0 <= m < v.len() && #[trigger] key_of(v[m]) == k;
            assert(key_of(w[m]) == k);
        }
    }
    assert forall|k: FireKey| #[trigger] key_set(w).contains(k) implies key_set(v).insert(key_of(e)).contains(k) by {
        let m = choose|m: int| 0 <= m < w.len() && #[trigger] key_of(w[m]) == k;
        if m < v.len() {
            assert(key_of(v[m]) == k);
        }
    }
    assert(key_set(w) =~= key_set(v).insert(key_of(e)));
}

/// Whether `v` holds the key `(day, a.hhmm, a.title)`.
fn holds_key(v: &Vec<(String, String, String)>, day: &String, a: &Alarm) -> (r: bool)
    ensures
        r == key_set(v@).contains(fire_key(day@, a@)),
{
    let mut i: usize = 0;
    while i < v.len()
        invariant
            i <= v@.len(),
            forall|j: int| 0 <= j < i ==> key_of(#[trigger] v@[j]) != fire_key(day@, a@),
        decreases v.len() - i,
    {
        let e = &v[i];
        if e.0 == *day && e.1 == a.hhmm && e.2 == a.title {
            assert(key_of(v@[i as int]) == fire_key(day@, a@));
            return true;
        }
        i = i + 1;
    }
    false
}

impl AlarmClock {
    /// A clock started at minute `now_hhmm`: that minute counts as seen, so
    /// alarms set to it do not ring (no ringing after the fact at start-up).
    pub fn new(now_hhmm: &str) -> (r: Self)
        ensures
            r@ == (ClockView { last_minute: now_hhmm@, fired: Set::empty() }),
    {
        let r = AlarmClock { last_minute: String::from_str(now_hhmm), fired: Vec::new() };
        assert(key_set(r.fired@) =~= Set::empty());
        r
    }

    /// The minute last seen.
    pub fn last_minute(&self) -> (r: &str)
        ensures
            r@ == self@.last_minute,
    {
        self.last_minute.as_str()
    }

    /// Looks at the clock at minute `now_hhmm` of day `today` and returns the
    /// alarms that ring now, in their order in `alarms`; see [`tick_result`].
    pub fn tick(&mut self, alarms: &[Alarm], now_hhmm: &str, today: &str) -> (r: Vec<Alarm>)
        ensures
            (final(self)@, alarm::alarm_views(r@)) == tick_result(
                old(self)@,
                alarm::alarm_views(alarms@),
                now_hhmm@,
                today@,
            ),
    {
        let now = String::from_str(now_hhmm);
        if self.last_minute == now {
            let r: Vec<Alarm> = Vec::new();
            assert(alarm::alarm_views(r@) =~= Seq::empty());
            return r;
        }
        let day = String::from_str(today);
        let ghost old_keys = key_set(self.fired@);
        let ghost kept_set = kept_today(old_keys, today@);
        let mut kept: Vec<(String, String, String)> = Vec::new();
        let mut i: usize = 0;
        assert(self.fired@.take(0) =~= Seq::<(String, String, String)>::empty());
        assert(key_set(kept@) =~= kept_today(key_set(self.fired@.take(0)), today@));
        while i < self.fired.len()
            invariant
                i <= self.fired@.len(),
                day@ == today@,
                key_set(kept@) == kept_today(key_set(self.fired@.take(i as int)), today@),
            decreases self.fired.len() - i,
        {
            let e = &self.fired[i];
            proof {
                assert(self.fired@.take(i + 1) =~= self.fired@.take(i as int).push(*e));
                lemma_key_set_push(self.fired@.take(i as int), *e);
            }
            if e.0 == day {
                let ghost old_kept = kept@;
                let c = (e.0.clone(), e.1.clone(), e.2.clone());
                kept.push(c);
                proof {
                    lemma_key_set_push(old_kept, c);
                    assert(key_set(kept@) =~= kept_today(key_set(self.fired@.take(i + 1)), today@));
                }
            } else {
                assert(key_set(kept@) =~= kept_today(key_set(self.fired@.take(i + 1)), today@));
            }
            i = i + 1;
        }
        assert(self.fired@.take(i as int) =~= self.fired@);
        assert(key_set(kept@) =~= kept_set);
        let ghost views = alarm::alarm_views(alarms@);
        let mut rung: Vec<Alarm> = Vec::new();
        let mut n: usize = 0;
        assert(views.take(0) =~= Seq::<alarm::AlarmView>::empty());
        assert(alarm::alarm_views(rung@) =~= Seq::empty());
        while n < alarms.len()
            invariant
                n <= alarms@.len(),
                day@ == today@,
                now@ == now_hhmm@,
                views == alarm::alarm_views(alarms@),
                (key_set(kept@), alarm::alarm_views(rung@)) == ring_matching(
                    kept_set,
                    views.take(n as int),
                    now_hhmm@,
                    today@,
                ),
            decreases alarms.len() - n,
        {
            assert(views.take(n + 1).drop_last() =~= views.take(n as int));
            assert(views.take(n + 1).last() == alarms@[n as int]@);
            let a = &alarms[n];
            if a.hhmm == now && !holds_key(&kept, &day, a) {
                let ghost old_kept = kept@;
                kept.push((day.clone(), a.hhmm.clone(), a.title.clone()));
                rung.push(Alarm { hhmm: a.hhmm.clone(), title: a.title.clone() });
                assert(alarm::alarm_views(rung@) =~= alarm::alarm_views(rung@).drop_last().push(a@));
                proof {
                    lemma_key_set_push(old_kept, kept@.last());
                    assert(kept@ == old_kept.push(kept@.last()));
                }
                assert(alarm::alarm_views(rung@).drop_last() =~= alarm::alarm_views(rung@.drop_last()));
            }
            n = n + 1;
        }
        assert(views.take(n as int) =~= views);
        self.last_minute = now;
        self.fired = kept;
        rung
    }
}


/// What [`ring_matching`] does: it only adds keys; each alarm it rings is
/// one of `alarms`, set to `now`, whose key was not rung yet, and its key is
/// rung afterwards; afterwards the key of every alarm set to `now` is rung;
/// each key it adds belongs to an alarm it rang.
pub proof fn lemma_ring_matching(
    fired: Set<FireKey>,
    alarms: Seq<alarm::AlarmView>,
    now: Seq<char>,
    today: Seq<char>,
)
    ensures
        ({
            let (f, rung) = ring_matching(fired, alarms, now, today);
            &&& forall|k: FireKey| fired.contains(k) ==> #[trigger] f.contains(k)
            &&& forall|i: int|
                0 <= i < rung.len() ==> {
                    &&& (#[trigger] rung[i]).hhmm == now
                    &&& !fired.contains(fire_key(today, rung[i]))
                    &&& f.contains(fire_key(today, rung[i]))
                    &&& alarms.contains(rung[i])
                }
            &&& forall|i: int|
                0 <= i < alarms.len() && (#[trigger] alarms[i]).hhmm == now ==> f.contains(
                    fire_key(today, alarms[i]),
                )
            &&& forall|k: FireKey|
                #[trigger] f.contains(k) && !fired.contains(k) ==> exists|i: int|
                    0 <= i < rung.len() && fire_key(today, #[trigger] rung[i]) == k
        }),
    decreases alarms.len(),
{
    if alarms.len() > 0 {
        let rest = alarms.drop_last();
        lemma_ring_matching(fired, rest, now, today);
        let (f0, r0) = ring_matching(fired, rest, now, today);
        let (f, rung) = ring_matching(fired, alarms, now, today);
        let a = alarms.last();
        assert(alarms[alarms.len() - 1] == a);
        assert forall|i: int| 0 <= i < r0.len() implies alarms.contains(#[trigger] r0[i]) by {
            let j = choose|j: int| 0 <= j < rest.len() && rest[j] == r0[i];
            assert(alarms[j] == rest[j]);
        }
        assert forall|i: int| 0 <= i < alarms.len() && (#[trigger] alarms[i]).hhmm == now implies f.contains(
            fire_key(today, alarms[i]),
        ) by {
            if i < rest.len() {
                assert(alarms[i] == rest[i]);
            }
        }
        if a.hhmm == now && !f0.contains(fire_key(today, a)) {
            assert(rung == r0.push(a));
            assert forall|i: int| 0 <= i < rung.len() implies {
                &&& (#[trigger] rung[i]).hhmm == now
                &&& !fired.contains(fire_key(today, rung[i]))
                &&& f.contains(fire_key(today, rung[i]))
                &&& alarms.contains(rung[i])
            } by {
                if i < r0.len() {
                    assert(rung[i] == r0[i]);
                } else {
                    assert(rung[i] == a);
                }
            }
            assert forall|k: FireKey| #[trigger] f.contains(k) && !fired.contains(k) implies exists|i: int|
                0 <= i < rung.len() && fire_key(today, #[trigger] rung[i]) == k by {
                if k == fire_key(today, a) {
                    assert(rung[r0.len() as int] == a);
                } else {
                    let i = choose|i: int| 0 <= i < r0.len() && fire_key(today, #[trigger] r0[i]) == k;
                    assert(rung[i] == r0[i]);
                }
            }
        }
    }
}

/// Law: a tick keeps the keys of `today`: an alarm rung today stays rung
/// for the rest of the day.
pub proof fn lemma_tick_keeps_today(
    st: ClockView,
    alarms: Seq<alarm::AlarmView>,
    now: Seq<char>,
    today: Seq<char>,
)
    ensures
        forall|k: FireKey|
            k.0 == today && st.fired.contains(k) ==> #[trigger] tick_result(
                st,
                alarms,
                now,
                today,
            ).0.fired.contains(k),
{
    if now != st.last_minute {
        let kept = kept_today(st.fired, today);
        lemma_ring_matching(kept, alarms, now, today);
        assert forall|k: FireKey| k.0 == today && st.fired.contains(k) implies #[trigger] tick_result(
            st,
            alarms,
            now,
            today,
        ).0.fired.contains(k) by {
            assert(kept.contains(k));
        }
    }
}

/// Law: a tick rings only alarms of `alarms` set to the minute `now`, only
/// when the minute has changed, never an alarm already rung today, and the
/// alarms it rings count as rung today afterwards.
pub proof fn lemma_tick_rings(
    st: ClockView,
    alarms: Seq<alarm::AlarmView>,
    now: Seq<char>,
    today: Seq<char>,
)
    ensures
        ({
            let (after, rung) = tick_result(st, alarms, now, today);
            &&& now == st.last_minute ==> rung.len() == 0 && after == st
            &&& after.last_minute == now
            &&& forall|i: int|
                0 <= i < rung.len() ==> {
                    &&& (#[trigger] rung[i]).hhmm == now
                    &&& alarms.contains(rung[i])
                    &&& !st.fired.contains(fire_key(today, rung[i]))
                    &&& after.fired.contains(fire_key(today, rung[i]))
                }
        }),
{
    if now != st.last_minute {
        let kept = kept_today(st.fired, today);
        lemma_ring_matching(kept, alarms, now, today);
        let rung = tick_result(st, alarms, now, today).1;
        assert forall|i: int| 0 <= i < rung.len() implies !st.fired.contains(
            fire_key(today, #[trigger] rung[i]),
        ) by {
            assert(!kept.contains(fire_key(today, rung[i])));
        }
    }
}

/// Law: each alarm rings at most once per day: an alarm rung by one tick is
/// not rung again by the next tick of the same day.
pub proof fn lemma_rings_once_per_day(
    st: ClockView,
    first: Seq<alarm::AlarmView>,
    now1: Seq<char>,
    second: Seq<alarm::AlarmView>,
    now2: Seq<char>,
    today: Seq<char>,
)
    ensures
        forall|a: alarm::AlarmView|
            #[trigger] tick_result(st, first, now1, today).1.contains(a) ==> !tick_result(
                tick_result(st, first, now1, today).0,
                second,
                now2,
                today,
            ).1.contains(a),
{
    let (s1, r1) = tick_result(st, first, now1, today);
    lemma_tick_rings(st, first, now1, today);
    lemma_tick_rings(s1, second, now2, today);
    let r2 = tick_result(s1, second, now2, today).1;
    assert forall|a: alarm::AlarmView| #[trigger] r1.contains(a) implies !r2.contains(a) by {
        let i = choose|i: int| 0 <= i < r1.len() && r1[i] == a;
        assert(s1.fired.contains(fire_key(today, r1[i])));
        if r2.contains(a) {
            let j = choose|j: int| 0 <= j < r2.len() && r2[j] == a;
            assert(!s1.fired.contains(fire_key(today, r2[j])));
        }
    }
}

/// Law: alarm lines stay after ringing and ring again on another day: on a
/// new minute of a day without rung keys, every alarm set to that minute rings.
pub proof fn lemma_rings_again_next_day(
    st: ClockView,
    alarms: Seq<alarm::AlarmView>,
    now: Seq<char>,
    today: Seq<char>,
    a: alarm::AlarmView,
)
    requires
        now != st.last_minute,
        forall|k: FireKey| #[trigger] st.fired.contains(k) ==> k.0 != today,
        alarms.contains(a),
        a.hhmm == now,
    ensures
        tick_result(st, alarms, now, today).1.contains(a),
{
    let kept = kept_today(st.fired, today);
    lemma_ring_matching(kept, alarms, now, today);
    let (f, rung) = ring_matching(kept, alarms, now, today);
    let i = choose|i: int| 0 <= i < alarms.len() && alarms[i] == a;
    assert(alarms[i].hhmm == now);
    assert(f.contains(fire_key(today, a)));
    assert(!kept.contains(fire_key(today, a)));
    let j = choose|j: int| 0 <= j < rung.len() && fire_key(today, #[trigger] rung[j]) == fire_key(
        today,
        a,
    );
    assert(rung[j] == a);
}


/// [`ring_matching`] rings no alarm twice.
pub proof fn lemma_ring_matching_distinct(
    fired: Set<FireKey>,
    alarms: Seq<alarm::AlarmView>,
    now: Seq<char>,
    today: Seq<char>,
)
    ensures
        forall|i: int, j: int|
            0 <= i < j < ring_matching(fired, alarms, now, today).1.len() ==> ring_matching(
                fired,
                alarms,
                now,
                today,
            ).1[i] != ring_matching(fired, alarms, now, today).1[j],
    decreases alarms.len(),
{
    if alarms.len() > 0 {
        let rest = alarms.drop_last();
        lemma_ring_matching_distinct(fired, rest, now, today);
        lemma_ring_matching(fired, rest, now, today);
        let (f0, r0) = ring_matching(fired, rest, now, today);
        let rung = ring_matching(fired, alarms, now, today).1;
        let a = alarms.last();
        if a.hhmm == now && !f0.contains(fire_key(today, a)) {
            assert(rung == r0.push(a));
            assert forall|i: int, j: int| 0 <= i < j < rung.len() implies rung[i] != rung[j] by {
                assert(rung[i] == r0[i]);
                if j == r0.len() {
                    assert(f0.contains(fire_key(today, r0[i])));
                } else {
                    assert(rung[j] == r0[j]);
                }
            }
        }
    }
}

/// A day of ticks, each step `(alarms, minute)` on day `today`: the state
/// after them and every alarm they rang, in order.
pub open spec fn run_day(
    st: ClockView,
    steps: Seq<(Seq<alarm::AlarmView>, Seq<char>)>,
    today: Seq<char>,
) -> (ClockView, Seq<alarm::AlarmView>)
    decreases steps.len(),
{
    if steps.len() == 0 {
        (st, Seq::empty())
    } else {
        let (s, all) = run_day(st, steps.drop_last(), today);
        let (s2, rung) = tick_result(s, steps.last().0, steps.last().1, today);
        (s2, all + rung)
    }
}

/// Law: each alarm rings at most once a day. Over any sequence of ticks on
/// the same day (whatever the alarms and the minutes of each tick), no alarm
/// rings twice, and every alarm rung counts as rung today afterwards.
#[verifier::spinoff_prover]
pub proof fn lemma_day_rings_each_alarm_once(
    st: ClockView,
    steps: Seq<(Seq<alarm::AlarmView>, Seq<char>)>,
    today: Seq<char>,
)
    ensures
        forall|i: int, j: int|
            0 <= i < j < run_day(st, steps, today).1.len() ==> run_day(st, steps, today).1[i]
                != run_day(st, steps, today).1[j],
        forall|i: int|
            0 <= i < run_day(st, steps, today).1.len() ==> run_day(st, steps, today).0.fired.contains(
                fire_key(today, #[trigger] run_day(st, steps, today).1[i]),
            ),
    decreases steps.len(),
{
    if steps.len() > 0 {
        lemma_day_rings_each_alarm_once(st, steps.drop_last(), today);
        let (s, all) = run_day(st, steps.drop_last(), today);
        let alarms = steps.last().0;
        let now = steps.last().1;
        let (s2, rung) = tick_result(s, alarms, now, today);
        lemma_tick_rings(s, alarms, now, today);
        lemma_tick_keeps_today(s, alarms, now, today);
        if now != s.last_minute {
            lemma_ring_matching_distinct(kept_today(s.fired, today), alarms, now, today);
        }
        let total = all + rung;
        assert(run_day(st, steps, today) == (s2, total));
        assert forall|i: int| 0 <= i < total.len() implies s2.fired.contains(
            fire_key(today, #[trigger] total[i]),
        ) by {
            if i < all.len() {
                assert(total[i] == all[i]);
                assert(s.fired.contains(fire_key(today, all[i])));
            } else {
                assert(total[i] == rung[i - all.len()]);
            }
        }
        assert forall|i: int, j: int| 0 <= i < j < total.len() implies total[i] != total[j] by {
            if j < all.len() {
                assert(total[i] == all[i]);
                assert(total[j] == all[j]);
            } else if i < all.len() {
                assert(total[i] == all[i]);
                assert(total[j] == rung[j - all.len()]);
                assert(s.fired.contains(fire_key(today, all[i])));
                assert(!s.fired.contains(fire_key(today, rung[j - all.len()])));
            } else {
                assert(total[i] == rung[i - all.len()]);
                assert(total[j] == rung[j - all.len()]);
            }
        }
    }
}


/// Law: on a new minute, an alarm rings exactly when it is one of `alarms`,
/// set to that minute, and its own key `(today, hhmm, title)` has not rung
/// yet, whatever other keys of today (other times, the same title) have rung.
/// Within the same minute nothing rings.
pub proof fn lemma_tick_rings_exactly_the_due(
    st: ClockView,
    alarms: Seq<alarm::AlarmView>,
    now: Seq<char>,
    today: Seq<char>,
    a: alarm::AlarmView,
)
    ensures
        tick_result(st, alarms, now, today).1.contains(a) <==> {
            &&& now != st.last_minute
            &&& alarms.contains(a)
            &&& a.hhmm == now
            &&& !st.fired.contains((today, a.hhmm, a.title))
        },
{
    lemma_tick_rings(st, alarms, now, today);
    let rung = tick_result(st, alarms, now, today).1;
    if rung.contains(a) {
        let i = choose|i: int| 0 <= i < rung.len() && rung[i] == a;
        assert(rung[i].hhmm == now);
    }
    if now != st.last_minute && alarms.contains(a) && a.hhmm == now && !st.fired.contains(
        (today, a.hhmm, a.title),
    ) {
        let kept = kept_today(st.fired, today);
        lemma_ring_matching(kept, alarms, now, today);
        let (f, r) = ring_matching(kept, alarms, now, today);
        let i = choose|i: int| 0 <= i < alarms.len() && alarms[i] == a;
        assert(alarms[i].hhmm == now);
        assert(f.contains(fire_key(today, a)));
        assert(!kept.contains(fire_key(today, a)));
        let j = choose|j: int| 0 <= j < r.len() && fire_key(today, #[trigger] r[j]) == fire_key(
            today,
            a,
        );
        assert(r[j] == a);
    }
}

/// Law: the minute written by [`hhmm_from_clock`] names that minute of the day.
pub proof fn lemma_clock_hhmm_minute(hour: int, minute: int)
    requires
        0 <= hour < 24,
        0 <= minute < 60,
    ensures
        alarm::valid_hhmm(clock_hhmm(hour, minute)),
        crate::label::minute_of_day(clock_hhmm(hour, minute)) == 60 * hour + minute,
{
}


/// Law: a string is a valid time exactly when it is a clock reading
/// (`hour` 0-23, `minute` 0-59) written as [`hhmm_from_clock`] writes it.
pub proof fn lemma_valid_hhmm_is_clock_reading(s: Seq<char>)
    ensures
        alarm::valid_hhmm(s) <==> exists|hour: int, minute: int|
            0 <= hour < 24 && 0 <= minute < 60 && s == #[trigger] clock_hhmm(hour, minute),
{
    if alarm::valid_hhmm(s) {
        let hour = 10 * alarm::digit_value(s[0]) + alarm::digit_value(s[1]);
        let minute = 10 * alarm::digit_value(s[2]) + alarm::digit_value(s[3]);
        let c = clock_hhmm(hour, minute);
        assert(hour / 10 == alarm::digit_value(s[0]) && hour % 10 == alarm::digit_value(s[1]));
        assert(minute / 10 == alarm::digit_value(s[2]) && minute % 10 == alarm::digit_value(s[3]));
        assert(c[0] == s[0] && c[1] == s[1] && c[2] == s[2] && c[3] == s[3]);
        assert(c =~= s);
    }
    if exists|hour: int, minute: int|
        0 <= hour < 24 && 0 <= minute < 60 && s == #[trigger] clock_hhmm(hour, minute) {
        let (hour, minute) = choose|hour: int, minute: int|
            0 <= hour < 24 && 0 <= minute < 60 && s == #[trigger] clock_hhmm(hour, minute);
        lemma_clock_hhmm_minute(hour, minute);
    }
}

} // verus!
