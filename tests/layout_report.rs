use lt3_keyboard::layout::Action;
use lt3_keyboard::report::render;
use lt3_keyboard::transport::{Submission, SubmitAction, WriteOutcome};
use lt3_keyboard::{is_modifier, modifier_bit, Event, Layout};

fn wide_layout() -> Layout {
    let row: Vec<Action> = (0..10u8).map(|i| Action::KeyCode(0x04 + i)).collect();
    Layout::new(vec![vec![row]])
}

#[test]
fn overflow_drops_new_presses() {
    let mut l = wide_layout();
    for c in 0..8u8 {
        l.event(Event::Press(0, c));
    }
    let held = l.tick();
    assert_eq!(held, vec![0x04, 0x05, 0x06, 0x07, 0x08, 0x09]);
    let rep = render(&held);
    assert_eq!(rep.as_bytes(), &[0, 0, 0x04, 0x05, 0x06, 0x07, 0x08, 0x09]);
    l.event(Event::Release(0, 2));
    assert_eq!(l.held_codes(), vec![0x04, 0x05, 0x07, 0x08, 0x09]);
    l.event(Event::Press(0, 9));
    assert_eq!(l.held_codes(), vec![0x04, 0x05, 0x07, 0x08, 0x09, 0x0D]);
}

#[test]
fn modifiers_do_not_take_slots() {
    let row = vec![
        Action::KeyCode(0x04),
        Action::KeyCode(0x05),
        Action::KeyCode(0x06),
        Action::KeyCode(0x07),
        Action::KeyCode(0x08),
        Action::KeyCode(0x09),
        Action::KeyCode(0xE7),
    ];
    let mut l = Layout::new(vec![vec![row]]);
    for c in 0..7u8 {
        l.event(Event::Press(0, c));
    }
    let rep = render(&l.held_codes());
    assert_eq!(rep.as_bytes(), &[0x80, 0, 0x04, 0x05, 0x06, 0x07, 0x08, 0x09]);
}

#[test]
fn render_dedups_and_orders() {
    let rep = render(&vec![0x05, 0xE1, 0x04, 0x05, 0, 0xE0, 0x06]);
    assert_eq!(rep.as_bytes(), &[0x03, 0, 0x05, 0x04, 0x06, 0, 0, 0]);
    let same = render(&vec![0x05, 0xE1, 0x04, 0x05, 0, 0xE0, 0x06]);
    assert_eq!(rep.as_bytes(), same.as_bytes());
}

#[test]
fn render_more_than_six_keeps_first_six() {
    let rep = render(&vec![0x10, 0x11, 0x12, 0x13, 0x14, 0x15, 0x16, 0x17]);
    assert_eq!(rep.as_bytes(), &[0, 0, 0x10, 0x11, 0x12, 0x13, 0x14, 0x15]);
}

#[test]
fn empty_report_is_zero() {
    assert_eq!(render(&Vec::new()).as_bytes(), &[0u8; 8]);
}

#[test]
fn modifier_bits() {
    assert_eq!(modifier_bit(0xE0), 0x01);
    assert_eq!(modifier_bit(0xE1), 0x02);
    assert_eq!(modifier_bit(0xE7), 0x80);
    assert_eq!(modifier_bit(0x04), 0);
    assert!(is_modifier(0xE3));
    assert!(!is_modifier(0xE8));
}

#[test]
fn layer_shift_and_transparency() {
    let base = vec![vec![Action::LayerShift(1), Action::KeyCode(0x04), Action::KeyCode(0x05)]];
    let upper = vec![vec![Action::Trans, Action::KeyCode(0x1E), Action::Trans]];
    let mut l = Layout::new(vec![base, upper]);
    assert_eq!(l.resolve(0, 1), Action::KeyCode(0x04));
    l.event(Event::Press(0, 0));
    assert_eq!(l.resolve(0, 1), Action::KeyCode(0x1E));
    assert_eq!(l.resolve(0, 2), Action::KeyCode(0x05));
    l.event(Event::Press(0, 1));
    l.event(Event::Press(0, 2));
    assert_eq!(l.held_codes(), vec![0x1E, 0x05]);
    l.event(Event::Release(0, 0));
    assert_eq!(l.resolve(0, 1), Action::KeyCode(0x04));
    assert_eq!(l.held_codes(), vec![0x1E, 0x05]);
    l.event(Event::Release(0, 1));
    assert_eq!(l.held_codes(), vec![0x05]);
}

#[test]
fn shift_to_missing_layer_is_ignored() {
    let mut l = Layout::new(vec![vec![vec![Action::LayerShift(3), Action::KeyCode(0x04)]]]);
    l.event(Event::Press(0, 0));
    assert_eq!(l.resolve(0, 1), Action::KeyCode(0x04));
    assert_eq!(l.resolve(5, 5), Action::Trans);
}

#[test]
fn repeated_code_is_held_once() {
    let mut l = Layout::new(vec![vec![vec![Action::KeyCode(0x04), Action::KeyCode(0x04)]]]);
    l.event(Event::Press(0, 0));
    l.event(Event::Press(0, 1));
    assert_eq!(l.held_codes(), vec![0x04]);
    l.event(Event::Release(0, 1));
    assert_eq!(l.held_codes(), vec![0x04]);
    l.event(Event::Release(0, 0));
    assert!(l.held_codes().is_empty());
}

#[test]
fn submission_retries_while_busy() {
    let (mut s, act) = Submission::start(true, 3);
    assert_eq!(act, SubmitAction::Write);
    assert_eq!(s.on_write(WriteOutcome::Busy), SubmitAction::Write);
    assert_eq!(s.on_write(WriteOutcome::Busy), SubmitAction::Write);
    assert_eq!(s.on_write(WriteOutcome::Busy), SubmitAction::Done);
}

#[test]
fn submission_stops_when_accepted_or_unchanged() {
    let (mut s, act) = Submission::start(true, 3);
    assert_eq!(act, SubmitAction::Write);
    assert_eq!(s.on_write(WriteOutcome::Accepted(8)), SubmitAction::Done);
    let (mut f, _) = Submission::start(true, 3);
    assert_eq!(f.on_write(WriteOutcome::Failed), SubmitAction::Done);
    let (_, idle) = Submission::start(false, 3);
    assert_eq!(idle, SubmitAction::Done);
}
