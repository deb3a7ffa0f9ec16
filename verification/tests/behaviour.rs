use ralarm::alarm::{hhmm_to_display, is_valid_hhmm, parse_alarms, Alarm};
use ralarm::beep::{beep_step, BeepAction};
use ralarm::clock::{hhmm_from_clock, AlarmClock};
use ralarm::history::{
    history_from_text, history_to_text, insert_history_line, move_to_front, record_ring,
};
use ralarm::label::next_alarm_label;

fn alarm(hhmm: &str, title: &str) -> Alarm {
    Alarm {
        hhmm: hhmm.to_string(),
        title: title.to_string(),
    }
}

fn strings(v: &[&str]) -> Vec<String> {
    v.iter().map(|s| s.to_string()).collect()
}

#[test]
fn to_line_without_and_with_title() {
    assert_eq!(alarm("0850", "").to_line(), "0850");
    assert_eq!(alarm("1150", "買い物").to_line(), "1150 買い物");
    assert_eq!(alarm("1150", "a  b").to_line(), "1150 a  b");
}

#[test]
fn valid_hhmm_edges() {
    assert!(is_valid_hhmm("2300"));
    assert!(is_valid_hhmm("0059"));
    assert!(!is_valid_hhmm("0060"));
    assert!(!is_valid_hhmm("23:59"));
    assert!(!is_valid_hhmm(""));
    assert!(!is_valid_hhmm("08500"));
    assert!(!is_valid_hhmm("０８５０"));
    assert!(!is_valid_hhmm(" 850"));
}

#[test]
fn parse_handles_spacing_and_line_endings() {
    let input = "  0850   朝会  \r\n0900\tA\r\n0930\u{3000}会議\n1000 a  b\n0850x\n0860\n\n   \n1200";
    let expected = vec![
        alarm("0850", "朝会"),
        alarm("0900", "A"),
        alarm("0930", "会議"),
        alarm("1000", "a  b"),
        alarm("1200", ""),
    ];
    assert_eq!(parse_alarms(input), expected);
    assert_eq!(parse_alarms(""), Vec::<Alarm>::new());
    assert_eq!(parse_alarms("\n\n"), Vec::<Alarm>::new());
}

#[test]
fn parse_keeps_first_of_equal_alarms() {
    let input = "0850 a\n0850 b\n0850  a \n0850 b";
    assert_eq!(parse_alarms(input), vec![alarm("0850", "a"), alarm("0850", "b")]);
}

#[test]
fn display_cuts_after_second_byte() {
    assert_eq!(hhmm_to_display("2359"), "23:59");
    assert_eq!(hhmm_to_display("éab"), "é:ab");
    assert_eq!(hhmm_to_display("ab"), "ab");
    assert_eq!(hhmm_to_display(""), "");
}

#[test]
fn label_picks_strictly_later_alarm() {
    let alarms = vec![alarm("1522", ""), alarm("0850", ""), alarm("1421", "1on1")];
    assert_eq!(next_alarm_label(&alarms, "1421"), "次: 15:22");
    assert_eq!(next_alarm_label(&alarms, "0000"), "次: 08:50");
    assert_eq!(next_alarm_label(&alarms, "1522"), "次: 明日 08:50");
    assert_eq!(next_alarm_label(&alarms, "2359"), "次: 明日 08:50");
}

#[test]
fn move_to_front_trims_and_is_idempotent() {
    let existing = strings(&["  1150 買い物 ", "0850", "   "]);
    let once = move_to_front(&existing, "  0850  ");
    assert_eq!(once, strings(&["0850", "1150 買い物"]));
    let twice = move_to_front(&once, "  0850  ");
    assert_eq!(twice, once);
    assert_eq!(move_to_front(&[], "0900"), strings(&["0900"]));
}

#[test]
fn history_text_round_trip() {
    let lines = strings(&["1421 1on1", "1150 買い物", "0850"]);
    let text = history_to_text(&lines);
    assert_eq!(text, "1421 1on1\n1150 買い物\n0850\n");
    assert_eq!(history_from_text(&text), lines);
    assert_eq!(history_to_text(&[]), "");
    assert_eq!(history_from_text(""), Vec::<String>::new());
    assert_eq!(history_from_text("a\n\n  b \r\n"), strings(&["a", "b"]));
}

#[test]
fn test_ringing_is_not_recorded() {
    let log = strings(&["0850", "1150 買い物"]);
    assert_eq!(record_ring(&log, &alarm("1150", "買い物"), true), log);
    assert_eq!(
        record_ring(&log, &alarm("1150", "買い物"), false),
        strings(&["1150 買い物", "0850"])
    );
    assert_eq!(
        record_ring(&log, &alarm("0930", ""), false),
        strings(&["0930", "0850", "1150 買い物"])
    );
}

#[test]
fn inserted_history_line_becomes_an_alarm() {
    assert_eq!(insert_history_line("", "0850"), "0850\n");
    assert_eq!(insert_history_line("0900", "0850 a"), "0900\n0850 a\n");
    assert_eq!(insert_history_line("0900\n", "0850 a"), "0900\n0850 a\n");
    let edited = insert_history_line("0900 x", &alarm("1421", "1on1").to_line());
    assert_eq!(
        parse_alarms(&edited),
        vec![alarm("0900", "x"), alarm("1421", "1on1")]
    );
}

#[test]
fn clock_minute_is_valid_hhmm() {
    assert_eq!(hhmm_from_clock(8, 5), "0805");
    assert_eq!(hhmm_from_clock(0, 0), "0000");
    assert_eq!(hhmm_from_clock(23, 59), "2359");
    assert!(is_valid_hhmm(&hhmm_from_clock(12, 30)));
}

#[test]
fn clock_rings_once_per_day_on_minute_change() {
    let alarms = vec![alarm("0851", "a"), alarm("0851", "b"), alarm("0900", "")];
    let mut clock = AlarmClock::new("0851");
    assert_eq!(clock.tick(&alarms, "0851", "2024-05-01"), Vec::<Alarm>::new());
    let mut clock2 = AlarmClock::new("0850");
    assert_eq!(
        clock2.tick(&alarms, "0851", "2024-05-01"),
        vec![alarm("0851", "a"), alarm("0851", "b")]
    );
    assert_eq!(clock2.last_minute(), "0851");
    assert_eq!(clock2.tick(&alarms, "0851", "2024-05-01"), Vec::<Alarm>::new());
    assert_eq!(clock2.tick(&alarms, "0852", "2024-05-01"), Vec::<Alarm>::new());
    assert_eq!(clock2.tick(&alarms, "0851", "2024-05-01"), Vec::<Alarm>::new());
    assert_eq!(clock2.tick(&alarms, "0900", "2024-05-01"), vec![alarm("0900", "")]);
    assert_eq!(
        clock2.tick(&alarms, "0851", "2024-05-02"),
        vec![alarm("0851", "a"), alarm("0851", "b")]
    );
}

#[test]
fn clock_rings_duplicate_lines_once() {
    let alarms = vec![alarm("0700", ""), alarm("0700", "")];
    let mut clock = AlarmClock::new("0659");
    assert_eq!(clock.tick(&alarms, "0700", "d"), vec![alarm("0700", "")]);
}

#[test]
fn beeper_schedule() {
    assert_eq!(beep_step(true, 0, None), BeepAction::Finish);
    assert_eq!(beep_step(true, 100, Some(100)), BeepAction::Finish);
    assert_eq!(beep_step(false, 0, None), BeepAction::Tone);
    assert_eq!(beep_step(false, 300, Some(300)), BeepAction::Wait);
    assert_eq!(beep_step(false, 1000, Some(700)), BeepAction::Tone);
    assert_eq!(beep_step(false, 59_999, None), BeepAction::Tone);
    assert_eq!(beep_step(false, 60_000, Some(700)), BeepAction::Finish);
    assert_eq!(beep_step(false, 60_400, Some(400)), BeepAction::Wait);
}
