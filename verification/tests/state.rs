use dice_expr::message::{respond, ControllerMessage, UiMessage};
use dice_expr::state::{build_state, longest_name, roster_rows, Character, State};

#[test]
fn initial_roster() {
    let s = build_state();
    let names: Vec<&str> = s.characters.iter().map(|c| c.name.as_str()).collect();
    assert_eq!(
        names,
        vec![
            "Player #1",
            "Player #2",
            "Monster #1",
            "Player #3",
            "Monster #2",
            "Player #4",
            "Monster #3",
            "Monster #4"
        ]
    );
    assert!(s.characters.iter().all(|c| c.hp == "24/24"));
    assert_eq!(s.selected_index, 0);
    assert!(s.log_messages.is_empty());
    for (i, c) in s.characters.iter().enumerate() {
        if i == 2 {
            assert_eq!(c.notes, Some("dazed".to_string()));
        } else {
            assert_eq!(c.notes, None);
        }
    }
}

#[test]
fn new_character_has_no_notes() {
    let c = Character::new("Goblin", "7/7");
    assert_eq!(c.name, "Goblin");
    assert_eq!(c.hp, "7/7");
    assert_eq!(c.notes, None);
}

#[test]
fn default_state_is_empty() {
    let s = State::default();
    assert!(s.characters.is_empty());
    assert!(s.log_messages.is_empty());
    assert_eq!(s.selected_index, 0);
}

#[test]
fn roster_rows_pad_names_with_dots() {
    let rows = roster_rows(&build_state());
    assert_eq!(rows.len(), 8);
    assert_eq!(rows[0].name, "Player #1");
    assert_eq!(rows[0].rest, "...24/24 ");
    assert_eq!(rows[2].name, "Monster #1");
    assert_eq!(rows[2].rest, "..24/24 dazed");
    for (i, row) in rows.iter().enumerate() {
        assert_eq!(row.selected, i == 0);
    }
}

#[test]
fn roster_rows_mark_the_selected_character() {
    let mut s = State::default();
    s.characters.push(Character::new("Al", "1/2"));
    s.characters.push(Character::new("Barbara", "3/4"));
    s.selected_index = 1;
    assert_eq!(longest_name(&s.characters), 7);
    let rows = roster_rows(&s);
    assert_eq!(rows[0].rest, ".......1/2 ");
    assert_eq!(rows[1].rest, "..3/4 ");
    assert!(!rows[0].selected);
    assert!(rows[1].selected);
}

#[test]
fn names_are_measured_in_characters() {
    let mut s = State::default();
    s.characters.push(Character::new("Zoë", "1/1"));
    s.characters.push(Character::new("Bob", "1/1"));
    assert_eq!(longest_name(&s.characters), 3);
    let rows = roster_rows(&s);
    assert_eq!(rows[0].rest, "..1/1 ");
    assert_eq!(rows[1].rest, "..1/1 ");
}

#[test]
fn empty_roster_has_no_rows() {
    assert_eq!(longest_name(&Vec::new()), 0);
    assert_eq!(roster_rows(&State::default()).len(), 0);
}

#[test]
fn every_report_is_answered_with_a_log_line() {
    match respond(ControllerMessage::LogMessage("rolled".to_string())) {
        UiMessage::Log(text) => assert_eq!(text, "rolled"),
    }
    match respond(ControllerMessage::AddNote("dazed".to_string())) {
        UiMessage::Log(text) => assert_eq!(text, "dazed"),
    }
}
