use evremap::engine::Engine;
use evremap::keys::{Event, KeyCode, KeyState, OutputEvent, Stimulus};
use evremap::mapping::Mapping;

fn caps() -> KeyCode {
    KeyCode(58)
}

fn lctrl() -> KeyCode {
    KeyCode(29)
}

fn esc() -> KeyCode {
    KeyCode(1)
}

fn key_a() -> KeyCode {
    KeyCode(30)
}

fn tab() -> KeyCode {
    KeyCode(15)
}

fn rshift() -> KeyCode {
    KeyCode(54)
}

fn f1() -> KeyCode {
    KeyCode(59)
}

fn lalt() -> KeyCode {
    KeyCode(56)
}

fn f4() -> KeyCode {
    KeyCode(62)
}

fn volumeup() -> KeyCode {
    KeyCode(115)
}


fn hold_us() -> u64 {
    200_000
}

fn caps_rule() -> Mapping {
    Mapping::DualRole { input: caps(), hold: vec![lctrl()], tap: vec![esc()] }
}

fn chord_rule() -> Mapping {
    Mapping::Remap { input: vec![lalt(), f4()], output: vec![volumeup()] }
}

fn engine(rules: Vec<Mapping>) -> Engine {
    Engine::new(rules, hold_us()).expect("table should be accepted")
}

fn press(t: u64, k: KeyCode) -> Stimulus {
    Stimulus::Key(Event { time: t, code: k, state: KeyState::Press })
}

fn release(t: u64, k: KeyCode) -> Stimulus {
    Stimulus::Key(Event { time: t, code: k, state: KeyState::Release })
}

fn repeat(t: u64, k: KeyCode) -> Stimulus {
    Stimulus::Key(Event { time: t, code: k, state: KeyState::Repeat })
}

fn key(t: u64, k: KeyCode, s: KeyState) -> OutputEvent {
    OutputEvent::Key { time: t, code: k, state: s }
}

fn syn(t: u64) -> OutputEvent {
    OutputEvent::Syn { time: t }
}

#[test]
fn pure_tap() {
    let mut e = engine(vec![caps_rule()]);
    assert_eq!(e.on_event(press(0, caps())), vec![]);
    let out = e.on_event(release(50_000, caps()));
    assert_eq!(
        out,
        vec![
            key(50_000, esc(), KeyState::Press),
            syn(50_000),
            key(50_000, esc(), KeyState::Release),
            syn(50_000),
        ]
    );
    assert!(e.emitted_down.is_empty());
}

#[test]
fn pure_hold_timeout() {
    let mut e = engine(vec![caps_rule()]);
    assert_eq!(e.on_event(press(0, caps())), vec![]);
    assert_eq!(e.timer_deadline(), Some(hold_us()));
    let out = e.on_event(Stimulus::Timer { time: hold_us() });
    assert_eq!(out, vec![key(hold_us(), lctrl(), KeyState::Press), syn(hold_us())]);
    assert_eq!(e.timer_deadline(), None);
    let out = e.on_event(release(300_000, caps()));
    assert_eq!(out, vec![key(300_000, lctrl(), KeyState::Release), syn(300_000)]);
    assert!(e.emitted_down.is_empty());
}

#[test]
fn hold_by_other_key() {
    let mut e = engine(vec![caps_rule()]);
    assert_eq!(e.on_event(press(0, caps())), vec![]);
    let out = e.on_event(press(30_000, key_a()));
    assert_eq!(
        out,
        vec![
            key(30_000, lctrl(), KeyState::Press),
            key(30_000, key_a(), KeyState::Press),
            syn(30_000),
        ]
    );
    let out = e.on_event(release(60_000, key_a()));
    assert_eq!(out, vec![key(60_000, key_a(), KeyState::Release), syn(60_000)]);
    let out = e.on_event(release(100_000, caps()));
    assert_eq!(out, vec![key(100_000, lctrl(), KeyState::Release), syn(100_000)]);
    assert!(e.emitted_down.is_empty());
}

#[test]
fn chord_remap() {
    let mut e = engine(vec![chord_rule()]);
    let out = e.on_event(press(0, lalt()));
    assert_eq!(out, vec![key(0, lalt(), KeyState::Press), syn(0)]);
    let out = e.on_event(press(10_000, f4()));
    assert_eq!(
        out,
        vec![
            key(10_000, lalt(), KeyState::Release),
            key(10_000, volumeup(), KeyState::Press),
            syn(10_000),
        ]
    );
    let out = e.on_event(release(20_000, f4()));
    assert_eq!(out, vec![key(20_000, volumeup(), KeyState::Release), syn(20_000)]);
    let out = e.on_event(release(30_000, lalt()));
    assert_eq!(out, vec![]);
    assert!(e.emitted_down.is_empty());
}

#[test]
fn nested_dual_role_resolved_by_sibling_press() {
    let tab_rule = Mapping::DualRole { input: tab(), hold: vec![rshift()], tap: vec![f1()] };
    let mut e = engine(vec![caps_rule(), tab_rule]);
    assert_eq!(e.on_event(press(0, caps())), vec![]);
    let out = e.on_event(press(10_000, tab()));
    // the first dual-role key resolves as hold before the second goes pending
    assert_eq!(out, vec![key(10_000, lctrl(), KeyState::Press), syn(10_000)]);
    let p = e.pending_dual.expect("second dual-role key should be pending");
    assert_eq!(p.code, tab());
    assert_eq!(p.press_time, 10_000);
}

#[test]
fn shutdown_cleanliness() {
    let mut e = engine(vec![caps_rule()]);
    e.on_event(press(0, caps()));
    e.on_event(Stimulus::Timer { time: hold_us() });
    let out = e.shutdown(250_000);
    assert_eq!(out, vec![key(250_000, lctrl(), KeyState::Release), syn(250_000)]);
    assert!(e.emitted_down.is_empty());
    let out = e.shutdown(260_000);
    assert_eq!(out, vec![]);
}

#[test]
fn plain_repeat_forwarded() {
    let mut e = engine(vec![caps_rule()]);
    e.on_event(press(0, key_a()));
    let out = e.on_event(repeat(5_000, key_a()));
    assert_eq!(out, vec![key(5_000, key_a(), KeyState::Repeat), syn(5_000)]);
}

#[test]
fn mapped_repeat_dropped() {
    let mut e = engine(vec![caps_rule(), chord_rule()]);
    e.on_event(press(0, caps()));
    assert_eq!(e.on_event(repeat(5_000, caps())), vec![]);
    assert_eq!(e.on_event(repeat(6_000, lalt())), vec![]);
    assert_eq!(e.on_event(repeat(7_000, volumeup())), vec![]);
}

#[test]
fn tap_cancelled_by_release_of_other_key() {
    // releasing a different key leaves the dual-role decision open
    let mut e = engine(vec![caps_rule()]);
    e.on_event(press(0, key_a()));
    e.on_event(press(10_000, caps()));
    assert!(e.pending_dual.is_some());
    let out = e.on_event(release(20_000, key_a()));
    assert_eq!(out, vec![key(20_000, key_a(), KeyState::Release), syn(20_000)]);
    assert!(e.pending_dual.is_some());
    let out = e.on_event(release(30_000, caps()));
    assert_eq!(
        out,
        vec![
            key(30_000, esc(), KeyState::Press),
            syn(30_000),
            key(30_000, esc(), KeyState::Release),
            syn(30_000),
        ]
    );
}

#[test]
fn balance_after_burst() {
    let mut e = engine(vec![caps_rule(), chord_rule()]);
    let keys = [caps(), key_a(), lalt(), f4(), tab()];
    for (i, k) in keys.iter().enumerate() {
        e.on_event(press(i as u64 * 1_000, *k));
    }
    for (i, k) in keys.iter().enumerate() {
        e.on_event(release(100_000 + i as u64 * 1_000, *k));
    }
    assert!(e.physical_down.is_empty());
    assert!(e.emitted_down.is_empty());
}

#[test]
fn table_validation() {
    // duplicate dual-role input
    assert!(Engine::new(vec![caps_rule(), caps_rule()], hold_us()).is_none());
    // empty chord input
    let bad = Mapping::Remap { input: vec![], output: vec![volumeup()] };
    assert!(Engine::new(vec![bad], hold_us()).is_none());
    // two chords over the same input set
    let c1 = Mapping::Remap { input: vec![lalt(), f4()], output: vec![volumeup()] };
    let c2 = Mapping::Remap { input: vec![f4(), lalt()], output: vec![esc()] };
    assert!(Engine::new(vec![c1, c2], hold_us()).is_none());
    // a dual-role input inside a chord input
    let c3 = Mapping::Remap { input: vec![caps(), f4()], output: vec![volumeup()] };
    assert!(Engine::new(vec![caps_rule(), c3], hold_us()).is_none());
    // a dual-role input inside another rule's tap sequence
    let d2 = Mapping::DualRole { input: tab(), hold: vec![rshift()], tap: vec![caps()] };
    assert!(Engine::new(vec![caps_rule(), d2], hold_us()).is_none());
    // a sound table
    assert!(Engine::new(vec![caps_rule(), chord_rule()], hold_us()).is_some());
}

#[test]
fn frames_never_empty_across_a_run() {
    // every SYN_REPORT closes at least one event, in every batch of a run
    let mut e = engine(vec![caps_rule(), chord_rule()]);
    let stimuli = vec![
        press(0, caps()),
        press(10_000, lalt()),
        press(20_000, f4()),
        repeat(25_000, key_a()),
        release(30_000, f4()),
        release(40_000, caps()),
        Stimulus::Timer { time: 50_000 },
        release(60_000, lalt()),
    ];
    let mut run: Vec<OutputEvent> = Vec::new();
    for stim in stimuli {
        let batch = e.on_event(stim);
        if !batch.is_empty() {
            assert!(matches!(batch.last(), Some(OutputEvent::Syn { .. })));
        }
        run.extend(batch);
    }
    for (i, ev) in run.iter().enumerate() {
        if matches!(ev, OutputEvent::Syn { .. }) {
            assert!(i > 0, "a frame mark must close something");
            assert!(
                !matches!(run[i - 1], OutputEvent::Syn { .. }),
                "no two adjacent frame marks"
            );
        }
    }
    assert!(e.physical_down.is_empty());
    assert!(e.emitted_down.is_empty());
}
