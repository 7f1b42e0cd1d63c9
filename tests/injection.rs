use espanso_inject::capture::{classify_keypress, event_from_decoded, CaptureError, LinuxContext};
use espanso_inject::engine::{Engine, Match};
use espanso_inject::event::{combination_events, key_events, Event, InputEvent, KeyEvent, KeyModifier};
use espanso_inject::injector::{
    get_injector, select_backend, string_events, BackendInjector, BackendKind, InjectError, Injector,
};
use espanso_inject::keys::Key;
use espanso_inject::options::{InjectionOptions, InjectorCreationOptions, Platform};
use espanso_inject::resolver::{ascending_modifiers, resolve, KeyBinding, KeysymTable, LayoutSnapshot};

fn binding(code: u32, modifiers: Vec<u32>, symbol: char) -> KeyBinding {
    KeyBinding { code, modifiers, symbol }
}

// A small layout: key 30 gives 'a', with Shift 'A', with AltGr 'æ', with both
// 'Æ'; key 48 gives 'b' and with Shift 'B'; key 31 also gives 'a' with Shift+AltGr.
fn sample_layout() -> LayoutSnapshot {
    LayoutSnapshot {
        min_keycode: 8,
        max_keycode: 60,
        bindings: vec![
            binding(30, vec![], 'a'),
            binding(30, vec![42], 'A'),
            binding(30, vec![100], 'æ'),
            binding(30, vec![42, 100], 'Æ'),
            binding(48, vec![], 'b'),
            binding(48, vec![42], 'B'),
            binding(31, vec![42, 100], 'a'),
            binding(20, vec![42], 'A'),
        ],
    }
}

fn events(inj: &BackendInjector) -> Vec<InputEvent> {
    inj.dispatched().iter().map(|d| d.event).collect()
}

fn x11() -> BackendInjector {
    get_injector(Platform::Linux, false, &InjectorCreationOptions::default(), None).unwrap()
}

fn evdev(layout: &LayoutSnapshot) -> BackendInjector {
    get_injector(Platform::Linux, true, &InjectorCreationOptions::default(), Some(layout)).unwrap()
}

fn opts() -> InjectionOptions {
    InjectionOptions::default_for(Platform::Linux)
}

#[test]
fn single_key_sent_alone_or_as_combination_is_the_same() {
    for k in [Key::A, Key::Enter, Key::Shift, Key::F5, Key::Backspace, Key::N7, Key::ArrowUp] {
        let mut a = x11();
        let mut b = x11();
        a.send_keys(&[k], opts()).unwrap();
        b.send_key_combination(&[k], opts()).unwrap();
        assert_eq!(events(&a), vec![InputEvent::Press(k), InputEvent::Release(k)]);
        assert_eq!(events(&a), events(&b));
    }
}

#[test]
fn combination_releases_in_reverse_order() {
    let mut inj = x11();
    inj.send_key_combination(&[Key::Control, Key::Shift, Key::T], opts()).unwrap();
    assert_eq!(
        events(&inj),
        vec![
            InputEvent::Press(Key::Control),
            InputEvent::Press(Key::Shift),
            InputEvent::Press(Key::T),
            InputEvent::Release(Key::T),
            InputEvent::Release(Key::Shift),
            InputEvent::Release(Key::Control),
        ]
    );
}

#[test]
fn keys_are_tapped_one_after_another() {
    assert_eq!(
        key_events(&[Key::A, Key::B]),
        vec![
            InputEvent::Press(Key::A),
            InputEvent::Release(Key::A),
            InputEvent::Press(Key::B),
            InputEvent::Release(Key::B),
        ]
    );
    assert!(key_events(&[]).is_empty());
    assert!(combination_events(&[]).is_empty());
}

#[test]
fn resolver_is_deterministic() {
    let layout = sample_layout();
    let t1 = resolve(&layout, &[42, 100], 2);
    let t2 = resolve(&layout, &[42, 100], 2);
    assert_eq!(t1.entries(), t2.entries());
    assert_eq!(t1.len(), 6);
}

#[test]
fn resolver_respects_the_modifier_bound() {
    let layout = sample_layout();
    for max in 0..4usize {
        let t = resolve(&layout, &[42, 100], max);
        for e in t.entries() {
            assert!(e.modifiers.len() <= max);
        }
    }
    let t = resolve(&layout, &[42, 100], 1);
    assert!(t.lookup('Æ').is_none());
    assert!(t.lookup('æ').is_some());
    let t = resolve(&layout, &[42, 100], 0);
    assert_eq!(t.len(), 2);
}

#[test]
fn resolver_prefers_fewer_modifiers_then_lower_codes() {
    let layout = sample_layout();
    let t = resolve(&layout, &[42, 100], 2);
    // 'a' is reachable on key 30 bare and on key 31 with two modifiers.
    let a = t.lookup('a').unwrap();
    assert_eq!((a.code, a.modifiers.clone()), (30, vec![]));
    // 'A' is reachable with Shift on keys 20 and 30: the lower code wins.
    let upper = t.lookup('A').unwrap();
    assert_eq!((upper.code, upper.modifiers.clone()), (20, vec![42]));
    let ae = t.lookup('Æ').unwrap();
    assert_eq!((ae.code, ae.modifiers.clone()), (30, vec![42, 100]));
    assert!(t.lookup('z').is_none());
    // Order of entries: bare keys first, by code; then one modifier.
    let symbols: Vec<char> = t.entries().iter().map(|e| e.symbol).collect();
    assert_eq!(symbols, vec!['a', 'b', 'A', 'æ', 'B', 'Æ']);
}

#[test]
fn resolver_sorts_and_dedups_modifiers() {
    assert_eq!(ascending_modifiers(&[100, 42, 42, 7]), vec![7, 42, 100]);
    assert!(ascending_modifiers(&[]).is_empty());
    let layout = sample_layout();
    let t1 = resolve(&layout, &[100, 42, 100], 2);
    let t2 = resolve(&layout, &[42, 100], 2);
    assert_eq!(t1.entries(), t2.entries());
}

#[test]
fn empty_layout_gives_empty_table() {
    let layout = LayoutSnapshot { min_keycode: 10, max_keycode: 5, bindings: vec![binding(7, vec![], 'x')] };
    let t: KeysymTable = resolve(&layout, &[42], 2);
    assert_eq!(t.len(), 0);
}

#[test]
fn line_break_becomes_enter_without_table() {
    let mut inj = x11();
    inj.send_string("a\nb", opts()).unwrap();
    assert_eq!(
        events(&inj),
        vec![
            InputEvent::Type('a'),
            InputEvent::Press(Key::Enter),
            InputEvent::Release(Key::Enter),
            InputEvent::Type('b'),
        ]
    );
}

#[test]
fn line_break_becomes_enter_with_table() {
    let layout = sample_layout();
    let mut inj = evdev(&layout);
    inj.send_string("a\nB", opts()).unwrap();
    assert_eq!(
        events(&inj),
        vec![
            InputEvent::RawPress(30),
            InputEvent::RawRelease(30),
            InputEvent::Press(Key::Enter),
            InputEvent::Release(Key::Enter),
            InputEvent::RawPress(42),
            InputEvent::RawPress(48),
            InputEvent::RawRelease(48),
            InputEvent::RawRelease(42),
        ]
    );
    assert!(!events(&inj).contains(&InputEvent::Type('\n')));
}

#[test]
fn chord_releases_modifiers_in_reverse() {
    let layout = sample_layout();
    let mut inj = evdev(&layout);
    inj.send_string("Æ", opts()).unwrap();
    assert_eq!(
        events(&inj),
        vec![
            InputEvent::RawPress(42),
            InputEvent::RawPress(100),
            InputEvent::RawPress(30),
            InputEvent::RawRelease(30),
            InputEvent::RawRelease(100),
            InputEvent::RawRelease(42),
        ]
    );
}

#[test]
fn unsupported_characters_are_skipped_and_reported() {
    let layout = sample_layout();
    let mut inj = evdev(&layout);
    let r = inj.send_string("azbq", opts());
    assert_eq!(r, Err(InjectError::UnsupportedSymbols(vec!['z', 'q'])));
    assert_eq!(
        events(&inj),
        vec![
            InputEvent::RawPress(30),
            InputEvent::RawRelease(30),
            InputEvent::RawPress(48),
            InputEvent::RawRelease(48),
        ]
    );
}

#[test]
fn empty_string_sends_nothing() {
    let (ev, skipped) = string_events(&None, "");
    assert!(ev.is_empty());
    assert!(skipped.is_empty());
}

#[test]
fn delay_is_recorded_with_each_event() {
    let mut inj = x11();
    let o = InjectionOptions { delay: 7, disable_fast_inject: true };
    inj.send_keys(&[Key::A], o).unwrap();
    assert!(inj.dispatched().iter().all(|d| d.delay == 7 && d.disable_fast_inject));
    assert_eq!(inj.dispatched().len(), 2);
}

#[test]
fn dispatch_table() {
    assert_eq!(select_backend(Platform::Linux, true, false), Some(BackendKind::Evdev));
    assert_eq!(select_backend(Platform::Linux, true, true), Some(BackendKind::Evdev));
    assert_eq!(select_backend(Platform::Linux, false, false), Some(BackendKind::X11));
    assert_eq!(select_backend(Platform::Linux, false, true), Some(BackendKind::Evdev));
    assert_eq!(select_backend(Platform::Windows, false, true), Some(BackendKind::Windows));
    assert_eq!(select_backend(Platform::MacOs, true, false), Some(BackendKind::Mac));
    assert_eq!(select_backend(Platform::Other, false, false), None);
}

#[test]
fn get_injector_builds_the_chosen_backend() {
    let layout = sample_layout();
    let opts = InjectorCreationOptions::default();
    assert_eq!(get_injector(Platform::Linux, true, &opts, Some(&layout)).unwrap().kind(), BackendKind::Evdev);
    assert_eq!(get_injector(Platform::Linux, false, &opts, None).unwrap().kind(), BackendKind::X11);
    assert_eq!(get_injector(Platform::Windows, false, &opts, None).unwrap().kind(), BackendKind::Windows);
    assert_eq!(get_injector(Platform::MacOs, false, &opts, None).unwrap().kind(), BackendKind::Mac);
    assert!(matches!(get_injector(Platform::Other, false, &opts, None), Err(InjectError::UnsupportedPlatform)));
    assert!(matches!(get_injector(Platform::Linux, true, &opts, None), Err(InjectError::LayoutUnavailable)));
    let evdev_opts = InjectorCreationOptions { use_evdev: true, ..InjectorCreationOptions::default() };
    assert_eq!(get_injector(Platform::Linux, false, &evdev_opts, Some(&layout)).unwrap().kind(), BackendKind::Evdev);
}

#[test]
fn creation_options_shape_the_table() {
    let layout = sample_layout();
    let opts = InjectorCreationOptions {
        use_evdev: true,
        evdev_modifiers: Some(vec![42]),
        evdev_max_modifier_combination_len: Some(-3),
        evdev_keyboard_rmlvo: None,
    };
    // A negative bound allows no subset size: nothing can be typed.
    let mut inj = get_injector(Platform::Linux, false, &opts, Some(&layout)).unwrap();
    assert_eq!(
        inj.send_string("ab", InjectionOptions::default_for(Platform::Linux)),
        Err(InjectError::UnsupportedSymbols(vec!['a', 'b']))
    );
    assert!(inj.dispatched().is_empty());
    assert_eq!(opts.max_modifiers(), None);
    assert_eq!(InjectorCreationOptions::default().max_modifiers(), Some(2));
    let bare = InjectorCreationOptions { evdev_max_modifier_combination_len: Some(0), ..opts.clone() };
    let mut inj = get_injector(Platform::Linux, false, &bare, Some(&layout)).unwrap();
    assert_eq!(inj.send_string("ab", InjectionOptions::default_for(Platform::Linux)), Ok(()));
    assert_eq!(
        inj.send_string("A", InjectionOptions::default_for(Platform::Linux)),
        Err(InjectError::UnsupportedSymbols(vec!['A']))
    );
    assert_eq!(InjectorCreationOptions::default().modifiers_to_probe(), vec![42, 100]);
}

#[test]
fn default_delays_per_platform() {
    assert_eq!(InjectionOptions::default_for(Platform::Windows).delay, 0);
    assert_eq!(InjectionOptions::default_for(Platform::MacOs).delay, 2);
    assert_eq!(InjectionOptions::default_for(Platform::Linux).delay, 0);
    assert!(!InjectionOptions::default_for(Platform::Linux).disable_fast_inject);
    let d = InjectorCreationOptions::default();
    assert!(!d.use_evdev && d.evdev_modifiers.is_none());
}

#[test]
fn match_deletes_trigger_before_typing() {
    let mut engine = Engine::new(x11(), opts());
    let m = Match { trigger: ":hé".to_string(), replace: "x\ny".to_string() };
    engine.on_match(&m).unwrap();
    let ev = events(engine.sender());
    assert_eq!(
        ev,
        vec![
            InputEvent::Press(Key::Backspace),
            InputEvent::Release(Key::Backspace),
            InputEvent::Press(Key::Backspace),
            InputEvent::Release(Key::Backspace),
            InputEvent::Press(Key::Backspace),
            InputEvent::Release(Key::Backspace),
            InputEvent::Type('x'),
            InputEvent::Press(Key::Enter),
            InputEvent::Release(Key::Enter),
            InputEvent::Type('y'),
        ]
    );
}

#[test]
fn unknown_native_modifier_is_dropped() {
    for code in [0, 1, 23, 51, 65, 132, 134, -5] {
        assert_eq!(classify_keypress(&[], 1, code), None);
    }
    let (tx, rx) = std::sync::mpsc::channel();
    let ctx = LinuxContext::new(tx);
    assert_eq!(ctx.on_keypress(&[], 1, 99), Ok(None));
    assert!(rx.try_recv().is_err());
}

#[test]
fn native_events_are_classified() {
    assert_eq!(classify_keypress(&[], 1, 133), Some(Event::Key(KeyEvent::Modifier(KeyModifier::Meta))));
    assert_eq!(classify_keypress(&[], 1, 50), Some(Event::Key(KeyEvent::Modifier(KeyModifier::Shift))));
    assert_eq!(classify_keypress(&[], 1, 64), Some(Event::Key(KeyEvent::Modifier(KeyModifier::Alt))));
    assert_eq!(classify_keypress(&[], 1, 37), Some(Event::Key(KeyEvent::Modifier(KeyModifier::Ctrl))));
    assert_eq!(classify_keypress(&[], 1, 22), Some(Event::Key(KeyEvent::Modifier(KeyModifier::Backspace))));
    assert_eq!(classify_keypress("é!".as_bytes(), 0, 0), Some(Event::Key(KeyEvent::Char('é'))));
    assert_eq!(classify_keypress(&[0xff, b'a'], 0, 0), Some(Event::Key(KeyEvent::Char('\u{FFFD}'))));
    assert_eq!(classify_keypress(&[], 0, 0), None);
    assert_eq!(event_from_decoded(0, 0, "xy"), Some(Event::Key(KeyEvent::Char('x'))));
}

#[test]
fn captured_events_reach_the_channel_in_order() {
    let (tx, rx) = std::sync::mpsc::channel();
    let ctx = LinuxContext::new(tx);
    assert_eq!(ctx.on_keypress(b"h", 0, 0), Ok(Some(Event::Key(KeyEvent::Char('h')))));
    assert_eq!(ctx.on_keypress(&[], 1, 50), Ok(Some(Event::Key(KeyEvent::Modifier(KeyModifier::Shift)))));
    assert_eq!(rx.recv().unwrap(), Event::Key(KeyEvent::Char('h')));
    assert_eq!(rx.recv().unwrap(), Event::Key(KeyEvent::Modifier(KeyModifier::Shift)));
    drop(rx);
    assert_eq!(ctx.on_keypress(b"i", 0, 0), Err(CaptureError::Disconnected));
}

#[test]
fn crlf_is_one_line_break() {
    let mut inj = x11();
    inj.send_string("a\r\nb\rc", opts()).unwrap();
    assert_eq!(
        events(&inj),
        vec![
            InputEvent::Type('a'),
            InputEvent::Press(Key::Enter),
            InputEvent::Release(Key::Enter),
            InputEvent::Type('b'),
            InputEvent::Type('\r'),
            InputEvent::Type('c'),
        ]
    );
    let layout = sample_layout();
    let mut inj = evdev(&layout);
    assert_eq!(inj.send_string("a\r\n", opts()), Ok(()));
    assert_eq!(
        events(&inj),
        vec![
            InputEvent::RawPress(30),
            InputEvent::RawRelease(30),
            InputEvent::Press(Key::Enter),
            InputEvent::Release(Key::Enter),
        ]
    );
}

#[test]
fn binding_modifiers_may_be_listed_in_any_order() {
    let layout = LayoutSnapshot {
        min_keycode: 10,
        max_keycode: 40,
        bindings: vec![binding(30, vec![100, 42, 100], 'Q')],
    };
    let t = resolve(&layout, &[42, 100], 2);
    let q = t.lookup('Q').unwrap();
    assert_eq!((q.code, q.modifiers.clone()), (30, vec![42, 100]));
}

#[test]
fn negative_bound_resolves_nothing() {
    let layout = sample_layout();
    let opts = InjectorCreationOptions {
        use_evdev: true,
        evdev_modifiers: None,
        evdev_max_modifier_combination_len: Some(-1),
        evdev_keyboard_rmlvo: None,
    };
    let mut inj = get_injector(Platform::Linux, true, &opts, Some(&layout)).unwrap();
    assert_eq!(inj.send_string("a", InjectionOptions::default_for(Platform::Linux)), Err(InjectError::UnsupportedSymbols(vec!['a'])));
    assert!(inj.dispatched().is_empty());
}

#[test]
fn match_with_plain_trigger() {
    let mut engine = Engine::new(x11(), opts());
    let m = Match { trigger: "abc".to_string(), replace: "x\ny".to_string() };
    assert_eq!(engine.on_match(&m), Ok(()));
    let ev = events(engine.sender());
    assert_eq!(ev.len(), 10);
    assert!(ev[..6].chunks(2).all(|c| c == [InputEvent::Press(Key::Backspace), InputEvent::Release(Key::Backspace)]));
    assert_eq!(ev[6..].to_vec(), vec![
        InputEvent::Type('x'),
        InputEvent::Press(Key::Enter),
        InputEvent::Release(Key::Enter),
        InputEvent::Type('y'),
    ]);
}
