use vstd::prelude::*;

use crate::event::{combination_plan, combination_events, key_events, keys_plan, tap, InputEvent};
use crate::keys::Key;
use crate::options::{
    InjectionOptions, InjectorCreationOptions, Platform, DEFAULT_MAX_MODIFIERS, probe_bound,
    probe_modifiers,
};
use crate::resolver::{
    entry_for, lemma_entries_within_bound, resolution_table, resolve, KeysymTable, LayoutSnapshot,
};

verus! {

/// Why an injector could not be built, or a call could not be completed.
#[derive(Clone, Debug, PartialEq, Eq)]
pub enum InjectError {
    /// No backend exists for this operating system or session.
    UnsupportedPlatform,
    /// The virtual input device backend was chosen but no keyboard layout
    /// could be loaded.
    LayoutUnavailable,
    /// These characters have no key combination in the loaded layout; every
    /// other character of the text was typed.
    UnsupportedSymbols(Vec<char>),
    /// The platform refused an event part way through a call; the events
    /// before it were dispatched and are not undone.
    Dispatch,
}

/// Whether a call ended because the platform refused an event.
pub open spec fn failed_dispatch(r: Result<(), InjectError>) -> bool {
    r is Err && r->Err_0 is Dispatch
}

/// The backends, one per platform family.
#[derive(Clone, Copy, Debug, PartialEq, Eq)]
pub enum BackendKind {
    Windows,
    Mac,
    X11,
    Evdev,
}

/// Raw presses of `mods` in order.
pub open spec fn raw_presses(mods: Seq<u32>) -> Seq<InputEvent> {
    mods.map_values(|m: u32| InputEvent::RawPress(m))
}

/// Raw releases of `mods` in reverse order.
pub open spec fn raw_releases_reversed(mods: Seq<u32>) -> Seq<InputEvent> {
    Seq::new(mods.len(), |i: int| InputEvent::RawRelease(mods[mods.len() - 1 - i]))
}

/// Hold `mods` in order, tap `code`, release `mods` in reverse order.
pub open spec fn chord_plan(code: u32, mods: Seq<u32>) -> Seq<InputEvent> {
    raw_presses(mods) + seq![InputEvent::RawPress(code), InputEvent::RawRelease(code)]
        + raw_releases_reversed(mods)
}

/// Whether a character must be skipped: it is no line break and the table,
/// where the backend has one, gives it no key.
pub open spec fn is_unsupported(table: Option<Seq<(char, u32, Seq<u32>)>>, c: char) -> bool {
    c != '\n' && table is Some && entry_for(table->Some_0, c) is None
}

/// The events that type `c`: a line break is a tap of Enter; a backend
/// without a table types the character itself; one with a table taps the
/// key combination it records, or nothing when it records none.
pub open spec fn char_plan(table: Option<Seq<(char, u32, Seq<u32>)>>, c: char) -> Seq<InputEvent> {
    if c == '\n' {
        tap(Key::Enter)
    } else {
        match table {
            None => seq![InputEvent::Type(c)],
            Some(t) => match entry_for(t, c) {
                Some(e) => chord_plan(e.0, e.1),
                None => Seq::empty(),
            },
        }
    }
}

/// Whether position `i` of `text` holds the carriage return of a "\r\n"
/// line break, which goes with the line feed after it.
pub open spec fn is_crlf_return(text: Seq<char>, i: int) -> bool {
    0 <= i && i + 1 < text.len() && text[i] == '\r' && text[i + 1] == '\n'
}

/// The events for position `i` of `text`.
pub open spec fn piece(table: Option<Seq<(char, u32, Seq<u32>)>>, text: Seq<char>, i: int) -> Seq<
    InputEvent,
> {
    if is_crlf_return(text, i) {
        Seq::empty()
    } else {
        char_plan(table, text[i])
    }
}

/// The events for the first `n` positions of `text`.
pub open spec fn plan_upto(table: Option<Seq<(char, u32, Seq<u32>)>>, text: Seq<char>, n: int) -> Seq<
    InputEvent,
>
    decreases n,
{
    if n <= 0 {
        Seq::empty()
    } else {
        plan_upto(table, text, n - 1) + piece(table, text, n - 1)
    }
}

/// The events that type `text`, character by character; a "\r\n" pair is
/// one line break.
pub open spec fn text_plan(table: Option<Seq<(char, u32, Seq<u32>)>>, text: Seq<char>) -> Seq<
    InputEvent,
> {
    plan_upto(table, text, text.len() as int)
}

/// The characters among the first `n` positions of `text` that the backend
/// must skip, in order.
pub open spec fn skipped_upto(table: Option<Seq<(char, u32, Seq<u32>)>>, text: Seq<char>, n: int) -> Seq<
    char,
>
    decreases n,
{
    if n <= 0 {
        Seq::empty()
    } else if !is_crlf_return(text, n - 1) && is_unsupported(table, text[n - 1]) {
        skipped_upto(table, text, n - 1).push(text[n - 1])
    } else {
        skipped_upto(table, text, n - 1)
    }
}

/// The characters of `text` that the backend must skip, in order.
pub open spec fn skipped(table: Option<Seq<(char, u32, Seq<u32>)>>, text: Seq<char>) -> Seq<char> {
    skipped_upto(table, text, text.len() as int)
}

/// The same pause before each of `n` events.
pub open spec fn pauses_of(n: nat, delay: i32) -> Seq<i32> {
    Seq::new(n, |i: int| delay)
}

/// Emits synthetic input into the focused application.
///
/// Calls on one injector must not overlap: each takes it mutably.
pub trait Injector {
    /// Every event dispatched so far, in order.
    spec fn sent(&self) -> Seq<InputEvent>;

    /// The pause before each event dispatched so far, in order.
    spec fn pauses(&self) -> Seq<i32>;

    /// The events that typing `text` dispatches.
    spec fn text_events(&self, text: Seq<char>) -> Seq<InputEvent>;

    /// The characters that typing `text` skips.
    spec fn unsupported(&self, text: Seq<char>) -> Seq<char>;

    /// Whether the platform may refuse an event.
    spec fn can_fail(&self) -> bool;

    /// Types `string`; each line break becomes a tap of Enter. Characters
    /// that cannot be typed are skipped, and named in the error. Where the
    /// platform refuses an event, the call stops there.
    fn send_string(&mut self, string: &str, options: InjectionOptions) -> (r: Result<(), InjectError>)
        ensures
            !failed_dispatch(r) ==> final(self).sent() == old(self).sent() + old(self).text_events(
                string@,
            ) && final(self).pauses() == old(self).pauses() + pauses_of(
                old(self).text_events(string@).len(),
                options.delay,
            ),
            failed_dispatch(r) ==> old(self).can_fail() && exists|k: int|
                0 <= k <= old(self).text_events(string@).len() && final(self).sent() == old(
                    self,
                ).sent() + #[trigger] old(self).text_events(string@).take(k) && final(self).pauses()
                    == old(self).pauses() + pauses_of(k as nat, options.delay),
            forall|t: Seq<char>| #[trigger] final(self).text_events(t) == old(self).text_events(t),
            forall|t: Seq<char>| #[trigger] final(self).unsupported(t) == old(self).unsupported(t),
            final(self).can_fail() == old(self).can_fail(),
            match r {
                Ok(()) => old(self).unsupported(string@).len() == 0,
                Err(InjectError::UnsupportedSymbols(v)) => v@ == old(self).unsupported(string@)
                    && v@.len() > 0,
                Err(InjectError::Dispatch) => true,
                Err(_) => false,
            },
    ;

    /// Presses and releases each of `keys` in turn. Where the platform
    /// refuses an event, the call stops there.
    fn send_keys(&mut self, keys: &[Key], options: InjectionOptions) -> (r: Result<(), InjectError>)
        ensures
            !failed_dispatch(r) ==> final(self).sent() == old(self).sent() + keys_plan(keys@)
                && final(self).pauses() == old(self).pauses() + pauses_of(
                keys_plan(keys@).len(),
                options.delay,
            ),
            failed_dispatch(r) ==> old(self).can_fail() && exists|k: int|
                0 <= k <= keys_plan(keys@).len() && final(self).sent() == old(self).sent()
                    + #[trigger] keys_plan(keys@).take(k) && final(self).pauses() == old(
                    self,
                ).pauses() + pauses_of(k as nat, options.delay),
            forall|t: Seq<char>| #[trigger] final(self).text_events(t) == old(self).text_events(t),
            forall|t: Seq<char>| #[trigger] final(self).unsupported(t) == old(self).unsupported(t),
            final(self).can_fail() == old(self).can_fail(),
            r is Ok || failed_dispatch(r),
    ;

    /// Holds `keys` down in order, then releases them in reverse order.
    /// Where the platform refuses an event, the call stops there.
    fn send_key_combination(&mut self, keys: &[Key], options: InjectionOptions) -> (r: Result<
        (),
        InjectError,
    >)
        ensures
            !failed_dispatch(r) ==> final(self).sent() == old(self).sent() + combination_plan(keys@)
                && final(self).pauses() == old(self).pauses() + pauses_of(
                combination_plan(keys@).len(),
                options.delay,
            ),
            failed_dispatch(r) ==> old(self).can_fail() && exists|k: int|
                0 <= k <= combination_plan(keys@).len() && final(self).sent() == old(self).sent()
                    + #[trigger] combination_plan(keys@).take(k) && final(self).pauses() == old(
                    self,
                ).pauses() + pauses_of(k as nat, options.delay),
            forall|t: Seq<char>| #[trigger] final(self).text_events(t) == old(self).text_events(t),
            forall|t: Seq<char>| #[trigger] final(self).unsupported(t) == old(self).unsupported(t),
            final(self).can_fail() == old(self).can_fail(),
            r is Ok || failed_dispatch(r),
    ;
}

/// The backend that serves a platform and session, if any: Windows and
/// macOS have their own; on Linux a Wayland session, or a request for it,
/// takes the virtual input device, and X11 otherwise.
pub open spec fn backend_for(p: Platform, wayland: bool, use_evdev: bool) -> Option<BackendKind> {
    match p {
        Platform::Windows => Some(BackendKind::Windows),
        Platform::MacOs => Some(BackendKind::Mac),
        Platform::Linux => if wayland || use_evdev {
            Some(BackendKind::Evdev)
        } else {
            Some(BackendKind::X11)
        },
        Platform::Other => None,
    }
}

/// Chooses the backend for a platform and session.
pub fn select_backend(p: Platform, wayland: bool, use_evdev: bool) -> (r: Option<BackendKind>)
    ensures
        r == backend_for(p, wayland, use_evdev),
{
    match p {
        Platform::Windows => Some(BackendKind::Windows),
        Platform::MacOs => Some(BackendKind::Mac),
        Platform::Linux => if wayland || use_evdev {
            Some(BackendKind::Evdev)
        } else {
            Some(BackendKind::X11)
        },
        Platform::Other => None,
    }
}

/// An event handed to the platform, with the pause that precedes it and,
/// for X11, whether it goes to the focused window directly instead of
/// through a rebound key code.
#[derive(Clone, Copy, Debug, PartialEq, Eq)]
pub struct Dispatched {
    pub event: InputEvent,
    pub delay: i32,
    pub disable_fast_inject: bool,
}

pub open spec fn events_of(log: Seq<Dispatched>) -> Seq<InputEvent> {
    log.map_values(|d: Dispatched| d.event)
}

pub open spec fn delays_of(log: Seq<Dispatched>) -> Seq<i32> {
    log.map_values(|d: Dispatched| d.delay)
}

pub open spec fn table_view(t: Option<KeysymTable>) -> Option<Seq<(char, u32, Seq<u32>)>> {
    match t {
        Some(t) => Some(t@),
        None => None,
    }
}

fn dispatch_all(log: &mut Vec<Dispatched>, events: &Vec<InputEvent>, options: InjectionOptions)
    ensures
        events_of(final(log)@) == events_of(old(log)@) + events@,
        delays_of(final(log)@) == delays_of(old(log)@) + pauses_of(events@.len(), options.delay),
        final(log)@.len() == old(log)@.len() + events@.len(),
        forall|i: int|
            old(log)@.len() <= i < final(log)@.len() ==> (#[trigger] final(log)@[i]).delay
                == options.delay && final(log)@[i].disable_fast_inject == options.disable_fast_inject,
{
    let ghost start = log@;
    let mut i: usize = 0;
    while i < events.len()
        invariant
            i <= events@.len(),
            log@.len() == start.len() + i,
            forall|k: int| 0 <= k < start.len() ==> #[trigger] log@[k] == start[k],
            events_of(log@) == events_of(start) + events@.take(i as int),
            forall|k: int|
                start.len() <= k < log@.len() ==> (#[trigger] log@[k]).delay == options.delay
                    && log@[k].disable_fast_inject == options.disable_fast_inject,
        decreases events.len() - i,
    {
        let ghost before = log@;
        log.push(
            Dispatched {
                event: events[i],
                delay: options.delay,
                disable_fast_inject: options.disable_fast_inject,
            },
        );
        assert(forall|k: int| 0 <= k < before.len() ==> log@[k] == before[k]);
        assert(log@[before.len() as int].disable_fast_inject == options.disable_fast_inject);
        assert(events_of(log@) =~= events_of(before).push(events@[i as int]));
        assert(events@.take(i + 1) =~= events@.take(i as int).push(events@[i as int]));
        i += 1;
    }
    assert(events@.take(events@.len() as int) == events@);
    assert(delays_of(log@) =~= delays_of(start) + pauses_of(events@.len(), options.delay));
}

fn push_chord(out: &mut Vec<InputEvent>, code: u32, mods: &Vec<u32>)
    ensures
        final(out)@ == old(out)@ + chord_plan(code, mods@),
{
    let ghost start = out@;
    let mut i: usize = 0;
    while i < mods.len()
        invariant
            i <= mods@.len(),
            out@ == start + raw_presses(mods@.take(i as int)),
        decreases mods.len() - i,
    {
        out.push(InputEvent::RawPress(mods[i]));
        assert(raw_presses(mods@.take(i + 1)) =~= raw_presses(mods@.take(i as int)).push(
            InputEvent::RawPress(mods@[i as int]),
        ));
        i += 1;
    }
    assert(mods@.take(mods@.len() as int) == mods@);
    out.push(InputEvent::RawPress(code));
    out.push(InputEvent::RawRelease(code));
    let ghost mid = out@;
    assert(mid == start + raw_presses(mods@) + seq![
        InputEvent::RawPress(code),
        InputEvent::RawRelease(code),
    ]);
    let mut j: usize = mods.len();
    while j > 0
        invariant
            j <= mods@.len(),
            out@ == mid + raw_releases_reversed(mods@).take(mods@.len() - j),
        decreases j,
    {
        j -= 1;
        out.push(InputEvent::RawRelease(mods[j]));
        assert(raw_releases_reversed(mods@).take(mods@.len() - j) =~= raw_releases_reversed(
            mods@,
        ).take(mods@.len() - j - 1).push(InputEvent::RawRelease(mods@[j as int])));
    }
    assert(raw_releases_reversed(mods@).take(mods@.len() as int) =~= raw_releases_reversed(mods@));
    assert(out@ =~= start + chord_plan(code, mods@));
}

/// The events that type `text` with `table` (or the platform's text
/// primitive, where there is none), and the characters skipped.
pub fn string_events(table: &Option<KeysymTable>, text: &str) -> (r: (Vec<InputEvent>, Vec<char>))
    ensures
        r.0@ == text_plan(table_view(*table), text@),
        r.1@ == skipped(table_view(*table), text@),
{
    let ghost tv = table_view(*table);
    let n = text.unicode_len();
    let mut out: Vec<InputEvent> = Vec::new();
    let mut missing: Vec<char> = Vec::new();
    let mut i: usize = 0;
    while i < n
        invariant
            n == text@.len(),
            i <= n,
            tv == table_view(*table),
            out@ == plan_upto(tv, text@, i as int),
            missing@ == skipped_upto(tv, text@, i as int),
        decreases n - i,
    {
        let c = text.get_char(i);
        let ghost pre = plan_upto(tv, text@, i as int);
        let crlf = c == '\r' && i + 1 < n && text.get_char(i + 1) == '\n';
        assert(crlf == is_crlf_return(text@, i as int));
        if crlf {
        } else if c == '\n' {
            out.push(InputEvent::Press(Key::Enter));
            out.push(InputEvent::Release(Key::Enter));
            assert(out@ =~= pre + char_plan(tv, c));
        } else {
            match table {
                None => {
                    out.push(InputEvent::Type(c));
                    assert(out@ =~= pre + char_plan(tv, c));
                },
                Some(t) => {
                    match t.lookup(c) {
                        Some(e) => {
                            push_chord(&mut out, e.code, &e.modifiers);
                        },
                        None => {
                            missing.push(c);
                            assert(out@ =~= pre + char_plan(tv, c));
                        },
                    }
                },
            }
        }
        i += 1;
    }
    (out, missing)
}

/// An injector of one backend. It records each event it hands to the
/// platform, with the pause before it, in dispatch order.
pub struct BackendInjector {
    kind: BackendKind,
    table: Option<KeysymTable>,
    log: Vec<Dispatched>,
}

impl BackendInjector {
    pub closed spec fn spec_kind(&self) -> BackendKind {
        self.kind
    }

    /// The layout table, for the virtual input device backend.
    pub closed spec fn spec_table(&self) -> Option<Seq<(char, u32, Seq<u32>)>> {
        table_view(self.table)
    }

    pub closed spec fn spec_log(&self) -> Seq<Dispatched> {
        self.log@
    }

    pub fn kind(&self) -> (r: BackendKind)
        ensures
            r == self.spec_kind(),
    {
        self.kind
    }

    /// Every event handed to the platform so far, with its pause.
    pub fn dispatched(&self) -> (r: &Vec<Dispatched>)
        ensures
            r@ == self.spec_log(),
    {
        &self.log
    }
}

impl Injector for BackendInjector {
    open spec fn sent(&self) -> Seq<InputEvent> {
        events_of(self.spec_log())
    }

    open spec fn pauses(&self) -> Seq<i32> {
        delays_of(self.spec_log())
    }

    open spec fn text_events(&self, text: Seq<char>) -> Seq<InputEvent> {
        text_plan(self.spec_table(), text)
    }

    open spec fn unsupported(&self, text: Seq<char>) -> Seq<char> {
        skipped(self.spec_table(), text)
    }

    /// Recording never fails.
    open spec fn can_fail(&self) -> bool {
        false
    }

    fn send_string(&mut self, string: &str, options: InjectionOptions) -> (r: Result<(), InjectError>) {
        let (events, missing) = string_events(&self.table, string);
        dispatch_all(&mut self.log, &events, options);
        if missing.len() == 0 {
            Ok(())
        } else {
            Err(InjectError::UnsupportedSymbols(missing))
        }
    }

    fn send_keys(&mut self, keys: &[Key], options: InjectionOptions) -> (r: Result<(), InjectError>) {
        let events = key_events(keys);
        dispatch_all(&mut self.log, &events, options);
        Ok(())
    }

    fn send_key_combination(&mut self, keys: &[Key], options: InjectionOptions) -> (r: Result<
        (),
        InjectError,
    >) {
        let events = combination_events(keys);
        dispatch_all(&mut self.log, &events, options);
        Ok(())
    }
}


/// The table that the virtual input device backend resolves from `layout`
/// with `o`: empty where the bound is negative, as no subset size is then
/// allowed.
pub open spec fn configured_table(layout: &LayoutSnapshot, o: InjectorCreationOptions) -> Seq<
    (char, u32, Seq<u32>),
> {
    match probe_bound(o) {
        Some(n) => resolution_table(layout, probe_modifiers(o), n),
        None => Seq::empty(),
    }
}

/// No entry of the table built from the options holds more modifiers than
/// the configured maximum (two where none is configured).
pub proof fn lemma_configured_table_within_bound(layout: &LayoutSnapshot, o: InjectorCreationOptions)
    ensures
        forall|i: int|
            0 <= i < configured_table(layout, o).len() ==> match o.evdev_max_modifier_combination_len {
                Some(m) => (#[trigger] configured_table(layout, o)[i]).2.len() <= m,
                None => configured_table(layout, o)[i].2.len() <= DEFAULT_MAX_MODIFIERS,
            },
{
    match probe_bound(o) {
        Some(n) => lemma_entries_within_bound(layout, probe_modifiers(o), n),
        None => {},
    }
}

/// Builds the injector that serves platform `p`. For the virtual input
/// device backend, `layout` is the loaded keyboard layout, resolved once
/// here with the modifier codes and bound of `options`.
pub fn get_injector(
    p: Platform,
    wayland: bool,
    options: &InjectorCreationOptions,
    layout: Option<&LayoutSnapshot>,
) -> (r: Result<BackendInjector, InjectError>)
    ensures
        match backend_for(p, wayland, options.use_evdev) {
            None => r == Err::<BackendInjector, InjectError>(InjectError::UnsupportedPlatform),
            Some(BackendKind::Evdev) => match layout {
                None => r == Err::<BackendInjector, InjectError>(InjectError::LayoutUnavailable),
                Some(l) => r is Ok && r->Ok_0.spec_kind() == BackendKind::Evdev
                    && r->Ok_0.spec_table() == Some(configured_table(l, *options))
                    && r->Ok_0.spec_log().len() == 0,
            },
            Some(k) => r is Ok && r->Ok_0.spec_kind() == k && r->Ok_0.spec_table() is None
                && r->Ok_0.spec_log().len() == 0,
        },
{
    let log: Vec<Dispatched> = Vec::new();
    match select_backend(p, wayland, options.use_evdev) {
        None => Err(InjectError::UnsupportedPlatform),
        Some(BackendKind::Evdev) => match layout {
            None => Err(InjectError::LayoutUnavailable),
            Some(l) => {
                let mods = options.modifiers_to_probe();
                let table = match options.max_modifiers() {
                    Some(n) => resolve(l, mods.as_slice(), n),
                    None => KeysymTable::empty(),
                };
                Ok(BackendInjector { kind: BackendKind::Evdev, table: Some(table), log })
            },
        },
        Some(k) => Ok(BackendInjector { kind: k, table: None, log }),
    }
}

/// A single key sent on its own and sent as a combination give the same
/// events: one press, then one release.
pub proof fn lemma_single_key_same_events(k: Key)
    ensures
        keys_plan(seq![k]) == combination_plan(seq![k]),
        keys_plan(seq![k]) == seq![InputEvent::Press(k), InputEvent::Release(k)],
{
    reveal_with_fuel(keys_plan, 2);
    assert(seq![k].drop_last() =~= Seq::<Key>::empty());
    assert(keys_plan(seq![k]) =~= seq![InputEvent::Press(k), InputEvent::Release(k)]);
    assert(combination_plan(seq![k]) =~= seq![InputEvent::Press(k), InputEvent::Release(k)]);
}

/// A combination of three keys presses them in order and releases them in
/// reverse order.
pub proof fn lemma_combination_order(a: Key, b: Key, c: Key)
    ensures
        combination_plan(seq![a, b, c]) == seq![
            InputEvent::Press(a),
            InputEvent::Press(b),
            InputEvent::Press(c),
            InputEvent::Release(c),
            InputEvent::Release(b),
            InputEvent::Release(a),
        ],
{
    assert(combination_plan(seq![a, b, c]) =~= seq![
        InputEvent::Press(a),
        InputEvent::Press(b),
        InputEvent::Press(c),
        InputEvent::Release(c),
        InputEvent::Release(b),
        InputEvent::Release(a),
    ]);
}

proof fn lemma_char_plan_no_line_break(table: Option<Seq<(char, u32, Seq<u32>)>>, c: char)
    ensures
        forall|i: int|
            0 <= i < char_plan(table, c).len() ==> #[trigger] char_plan(table, c)[i]
                != InputEvent::Type('\n'),
{
    let b = char_plan(table, c);
    if c == '\n' {
        assert(b == seq![InputEvent::Press(Key::Enter), InputEvent::Release(Key::Enter)]);
    } else if table is None {
        assert(b == seq![InputEvent::Type(c)]);
    } else {
        let t = table->Some_0;
        if entry_for(t, c) is None {
            assert(b.len() == 0);
        } else {
            let e = entry_for(t, c)->Some_0;
            let m = e.1;
            assert(b == chord_plan(e.0, m));
            assert forall|i: int| 0 <= i < b.len() implies #[trigger] b[i] != InputEvent::Type('\n') by {
                if i < m.len() {
                    assert(b[i] == raw_presses(m)[i]);
                } else if i < m.len() + 2 {
                    assert(b[i] == seq![
                        InputEvent::RawPress(e.0),
                        InputEvent::RawRelease(e.0),
                    ][i - m.len()]);
                } else {
                    assert(b[i] == raw_releases_reversed(m)[i - m.len() - 2]);
                }
            }
        }
    }
}

proof fn lemma_plan_upto_no_line_break(table: Option<Seq<(char, u32, Seq<u32>)>>, text: Seq<char>, n: int)
    requires
        n <= text.len(),
    ensures
        forall|i: int|
            0 <= i < plan_upto(table, text, n).len() ==> #[trigger] plan_upto(table, text, n)[i]
                != InputEvent::Type('\n'),
    decreases n,
{
    if n > 0 {
        lemma_plan_upto_no_line_break(table, text, n - 1);
        let a = plan_upto(table, text, n - 1);
        let b = piece(table, text, n - 1);
        lemma_char_plan_no_line_break(table, text[n - 1]);
        assert forall|i: int| 0 <= i < plan_upto(table, text, n).len() implies #[trigger] plan_upto(
            table,
            text,
            n,
        )[i] != InputEvent::Type('\n') by {
            if i < a.len() {
                assert(plan_upto(table, text, n)[i] == a[i]);
            } else {
                assert(plan_upto(table, text, n)[i] == b[i - a.len()]);
            }
        }
    }
}

/// Typing never dispatches a line break as a character.
pub proof fn lemma_no_typed_line_break(table: Option<Seq<(char, u32, Seq<u32>)>>, text: Seq<char>)
    ensures
        forall|i: int|
            0 <= i < text_plan(table, text).len() ==> #[trigger] text_plan(table, text)[i]
                != InputEvent::Type('\n'),
{
    lemma_plan_upto_no_line_break(table, text, text.len() as int);
}

/// A line break between two characters is typed as a tap of Enter between
/// them; where the backend types characters itself, that is: type the
/// first, press Enter, release Enter, type the second.
pub proof fn lemma_line_break_is_enter(table: Option<Seq<(char, u32, Seq<u32>)>>, a: char, b: char)
    requires
        a != '\n' && a != '\r',
        b != '\n',
    ensures
        text_plan(table, seq![a, '\n', b]) == char_plan(table, a) + tap(Key::Enter) + char_plan(
            table,
            b,
        ),
        table is None ==> text_plan(table, seq![a, '\n', b]) == seq![
            InputEvent::Type(a),
            InputEvent::Press(Key::Enter),
            InputEvent::Release(Key::Enter),
            InputEvent::Type(b),
        ],
{
    reveal_with_fuel(plan_upto, 4);
    let t = seq![a, '\n', b];
    assert(piece(table, t, 0) == char_plan(table, a));
    assert(piece(table, t, 1) == tap(Key::Enter));
    assert(piece(table, t, 2) == char_plan(table, b));
    assert(text_plan(table, t) =~= char_plan(table, a) + tap(Key::Enter) + char_plan(table, b));
    if table is None {
        assert(text_plan(table, t) =~= seq![
            InputEvent::Type(a),
            InputEvent::Press(Key::Enter),
            InputEvent::Release(Key::Enter),
            InputEvent::Type(b),
        ]);
    }
}

proof fn lemma_skipped_upto_without_table(text: Seq<char>, n: int)
    ensures
        skipped_upto(None, text, n) == Seq::<char>::empty(),
    decreases n,
{
    if n > 0 {
        lemma_skipped_upto_without_table(text, n - 1);
    }
}

/// A backend without a table types every character: it skips none.
pub proof fn lemma_no_table_skips_nothing(text: Seq<char>)
    ensures
        skipped(None, text) == Seq::<char>::empty(),
{
    lemma_skipped_upto_without_table(text, text.len() as int);
}

/// A "\r\n" line break is typed as one tap of Enter, like "\n" alone.
pub proof fn lemma_crlf_is_one_enter(table: Option<Seq<(char, u32, Seq<u32>)>>)
    ensures
        text_plan(table, seq!['\r', '\n']) == tap(Key::Enter),
        skipped(table, seq!['\r', '\n']) == Seq::<char>::empty(),
{
    reveal_with_fuel(plan_upto, 3);
    reveal_with_fuel(skipped_upto, 3);
    let t = seq!['\r', '\n'];
    assert(is_crlf_return(t, 0));
    assert(piece(table, t, 1) == tap(Key::Enter));
    assert(text_plan(table, t) =~= tap(Key::Enter));
    assert(skipped(table, t) =~= Seq::<char>::empty());
}

/// On Linux a Wayland session always takes the virtual input device
/// backend; an X11 session takes X11's unless the device is asked for.
pub proof fn lemma_linux_dispatch(use_evdev: bool)
    ensures
        backend_for(Platform::Linux, true, use_evdev) == Some(BackendKind::Evdev),
        backend_for(Platform::Linux, false, false) == Some(BackendKind::X11),
        backend_for(Platform::Linux, false, true) == Some(BackendKind::Evdev),
{
}

} // verus!
