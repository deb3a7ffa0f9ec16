use ralarm::alarm::{hhmm_to_display, is_valid_hhmm, parse_alarms, Alarm};
use ralarm::history::move_to_front;
use ralarm::label::next_alarm_label;

fn a(hhmm: &str, title: &str) -> Alarm {
    Alarm {
        hhmm: hhmm.to_string(),
        title: title.to_string(),
    }
}

#[test]
fn test_parse_alarms() {
    let input = "0850\n1150 買い物\n1421 1on1\n1522\n\nbad line\n2570\n1150 買い物\n0850 朝会\n";
    let expected = vec![
        a("0850", ""),
        a("1150", "買い物"),
        a("1421", "1on1"),
        a("1522", ""),
        a("0850", "朝会"),
    ];
    assert_eq!(parse_alarms(input), expected);
}

#[test]
fn test_is_valid_hhmm() {
    assert!(is_valid_hhmm("0000"));
    assert!(is_valid_hhmm("2359"));
    assert!(!is_valid_hhmm("2570"));
    assert!(!is_valid_hhmm("2400"));
    assert!(!is_valid_hhmm("850"));
    assert!(!is_valid_hhmm("08a0"));
}

#[test]
fn test_move_to_front() {
    let existing: Vec<String> = vec!["1150 買い物", "0850", "1421 1on1"]
        .into_iter()
        .map(String::from)
        .collect();
    let after = move_to_front(&existing, "1421 1on1");
    assert_eq!(after, vec!["1421 1on1", "1150 買い物", "0850"]);

    let after2 = move_to_front(&after, "0930 新規");
    assert_eq!(after2[0], "0930 新規");
    assert_eq!(after2, vec!["0930 新規", "1421 1on1", "1150 買い物", "0850"]);
}

#[test]
fn test_move_to_front_removes_blanks() {
    let existing: Vec<String> = vec!["1150 買い物", "", "0850"]
        .into_iter()
        .map(String::from)
        .collect();
    let after = move_to_front(&existing, "0850");
    assert_eq!(after, vec!["0850", "1150 買い物"]);
}

#[test]
fn test_next_alarm_label() {
    let alarms = vec![a("0850", ""), a("1421", "1on1"), a("1522", "")];
    assert_eq!(next_alarm_label(&alarms, "1000"), "次: 14:21");
    assert_eq!(next_alarm_label(&alarms, "1600"), "次: 明日 08:50");
    assert_eq!(next_alarm_label(&[], "1000"), "アラームなし");
}

#[test]
fn display_inserts_colon() {
    assert_eq!(hhmm_to_display("0850"), "08:50");
    assert_eq!(hhmm_to_display("850"), "850");
    assert_eq!(hhmm_to_display("abcde"), "abcde");
}
