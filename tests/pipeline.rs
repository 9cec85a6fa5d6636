use lt3_keyboard::board::{layers, COLS, DEBOUNCE_THRESHOLD, ROWS};
use lt3_keyboard::keycode::{LEFT_CTRL, LEFT_SHIFT};
use lt3_keyboard::{Event, HidReport, Keyboard, PressedKeys, ScanError};

fn board() -> Keyboard {
    Keyboard::new(ROWS, COLS, DEBOUNCE_THRESHOLD, layers())
}

fn snapshot(a: bool, b: bool) -> PressedKeys {
    PressedKeys { keys: vec![vec![a, b]] }
}

fn bytes(r: &HidReport) -> Vec<u8> {
    r.as_bytes().to_vec()
}

#[test]
fn left_shift_after_five_ticks() {
    let mut kb = board();
    let mut d = lt3_keyboard::Debouncer::new(ROWS, COLS, DEBOUNCE_THRESHOLD);
    for tick in 1..=5 {
        let ev = d.events(&snapshot(true, false));
        if tick < 5 {
            assert!(ev.is_empty());
        } else {
            assert_eq!(ev, vec![Event::Press(0, 0)]);
        }
        let rep = kb.tick(&snapshot(true, false));
        if tick < 5 {
            assert_eq!(bytes(&rep), vec![0; 8]);
        } else {
            assert_eq!(bytes(&rep), vec![0x02, 0, 0, 0, 0, 0, 0, 0]);
        }
    }
}

#[test]
fn left_ctrl_after_five_ticks() {
    let mut kb = board();
    let mut rep = HidReport::empty();
    for _ in 0..6 {
        rep = kb.tick(&snapshot(false, true));
    }
    assert_eq!(bytes(&rep), vec![0x01, 0, 0, 0, 0, 0, 0, 0]);
    assert_eq!(rep.modifiers(), 0x01);
}

#[test]
fn both_modifiers_held() {
    let mut kb = board();
    let mut rep = HidReport::empty();
    for _ in 0..5 {
        rep = kb.tick(&snapshot(true, true));
    }
    assert_eq!(bytes(&rep), vec![0x03, 0, 0, 0, 0, 0, 0, 0]);
}

#[test]
fn flicker_below_threshold_emits_nothing() {
    let mut kb = board();
    for _ in 0..3 {
        for _ in 0..4 {
            assert_eq!(bytes(&kb.tick(&snapshot(true, false))), vec![0; 8]);
        }
        assert_eq!(bytes(&kb.tick(&snapshot(false, false))), vec![0; 8]);
    }
    assert!(!kb.debouncer.is_pressed(0, 0));
}

#[test]
fn press_then_release_round_trip() {
    let mut d = lt3_keyboard::Debouncer::new(ROWS, COLS, DEBOUNCE_THRESHOLD);
    let mut seen = Vec::new();
    for _ in 0..5 {
        seen.extend(d.events(&snapshot(false, true)));
    }
    for _ in 0..5 {
        seen.extend(d.events(&snapshot(false, false)));
    }
    assert_eq!(seen, vec![Event::Press(0, 1), Event::Release(0, 1)]);

    let mut kb = board();
    for _ in 0..5 {
        kb.tick(&snapshot(false, true));
    }
    assert_eq!(kb.layout.held_codes(), vec![LEFT_CTRL]);
    let mut rep = HidReport::empty();
    for _ in 0..5 {
        rep = kb.tick(&snapshot(false, false));
    }
    assert_eq!(kb.layout.held_codes(), Vec::<u8>::new());
    assert_eq!(bytes(&rep), vec![0; 8]);
}

#[test]
fn tick_without_events_keeps_held_keys() {
    let mut kb = board();
    for _ in 0..5 {
        kb.tick(&snapshot(true, false));
    }
    let before = kb.layout.held_codes();
    let again = kb.layout.tick();
    assert_eq!(before, vec![LEFT_SHIFT]);
    assert_eq!(again, before);
    assert_eq!(kb.layout.held_codes(), before);
}

#[test]
fn threshold_one_flips_at_once() {
    let mut d = lt3_keyboard::Debouncer::new(2, 2, 1);
    let ev = d.events(&PressedKeys { keys: vec![vec![false, true], vec![true, false]] });
    assert_eq!(ev, vec![Event::Press(0, 1), Event::Press(1, 0)]);
    assert!(d.is_pressed(1, 0));
}

#[test]
fn events_come_in_row_major_order() {
    let mut d = lt3_keyboard::Debouncer::new(2, 3, 2);
    let all = PressedKeys { keys: vec![vec![true, false, true], vec![false, true, false]] };
    assert!(d.events(&all).is_empty());
    assert_eq!(
        d.events(&all),
        vec![Event::Press(0, 0), Event::Press(0, 2), Event::Press(1, 1)]
    );
    let none = PressedKeys { keys: vec![vec![false; 3], vec![false; 3]] };
    assert!(d.events(&none).is_empty());
    assert_eq!(
        d.events(&none),
        vec![Event::Release(0, 0), Event::Release(0, 2), Event::Release(1, 1)]
    );
}

#[test]
fn scan_reads_active_low() {
    let levels = vec![vec![Ok(false), Ok(true)]];
    let p = lt3_keyboard::scan(&levels).unwrap();
    assert_eq!(p.keys, vec![vec![true, false]]);
}

#[test]
fn scan_error_abandons_tick() {
    let mut kb = board();
    for _ in 0..4 {
        kb.scan_tick(&vec![vec![Ok(false), Ok(true)]]).unwrap();
    }
    let failed = kb.scan_tick(&vec![vec![Ok(false), Err(ScanError::PinRead)]]);
    assert_eq!(failed.err(), Some(ScanError::PinRead));
    let rep = kb.scan_tick(&vec![vec![Ok(false), Ok(true)]]).unwrap();
    assert_eq!(bytes(&rep), vec![0x02, 0, 0, 0, 0, 0, 0, 0]);
}
