use vstd::prelude::*;

verus! {

/// The operating systems the library knows.
#[derive(Clone, Copy, Debug, PartialEq, Eq)]
pub enum Platform {
    Windows,
    MacOs,
    Linux,
    Other,
}

/// Pause, in milliseconds, between synthetic events on each platform.
pub open spec fn default_delay(p: Platform) -> i32 {
    match p {
        Platform::MacOs => 2,
        _ => 0,
    }
}

/// Options of one injection call.
#[derive(Clone, Copy, Debug)]
pub struct InjectionOptions {
    /// Pause between two synthetic events.
    pub delay: i32,
    /// On X11, deliver events addressed at the focused window instead of
    /// rebinding a key code for each symbol.
    pub disable_fast_inject: bool,
}

impl InjectionOptions {
    /// The options used when a caller gives none, on platform `p`.
    pub fn default_for(p: Platform) -> (r: InjectionOptions)
        requires
            p != Platform::Other,
        ensures
            r.delay == default_delay(p),
            !r.disable_fast_inject,
    {
        let delay: i32 = match p {
            Platform::MacOs => 2,
            _ => 0,
        };
        InjectionOptions { delay, disable_fast_inject: false }
    }
}

/// Describes the keyboard layout to load, as rules, model, layout, variant
/// and options; a field left out takes the value of the running system.
#[derive(Clone, Debug)]
pub struct KeyboardConfig {
    pub rules: Option<String>,
    pub model: Option<String>,
    pub layout: Option<String>,
    pub variant: Option<String>,
    pub options: Option<String>,
}

/// Options read once, when an injector is built.
#[derive(Clone, Debug)]
pub struct InjectorCreationOptions {
    /// On X11, use the virtual input device backend instead of X11's.
    pub use_evdev: bool,
    /// Modifier key codes to try when resolving the layout.
    pub evdev_modifiers: Option<Vec<u32>>,
    /// Most modifiers held at once when resolving the layout.
    pub evdev_max_modifier_combination_len: Option<i32>,
    /// The layout to load instead of the system's.
    pub evdev_keyboard_rmlvo: Option<KeyboardConfig>,
}

impl Default for InjectorCreationOptions {
    fn default() -> (r: InjectorCreationOptions)
        ensures
            !r.use_evdev,
            r.evdev_modifiers is None,
            r.evdev_max_modifier_combination_len is None,
            r.evdev_keyboard_rmlvo is None,
    {
        InjectorCreationOptions {
            use_evdev: false,
            evdev_modifiers: None,
            evdev_max_modifier_combination_len: None,
            evdev_keyboard_rmlvo: None,
        }
    }
}

/// Left Shift, as a key code of the virtual input device.
pub const KEY_LEFTSHIFT: u32 = 42;

/// Right Alt, the level-three (AltGr) modifier, as a key code of the virtual
/// input device.
pub const KEY_RIGHTALT: u32 = 100;

/// Most modifiers held at once when the options do not say.
pub const DEFAULT_MAX_MODIFIERS: usize = 2;

/// The modifier codes the resolver tries.
pub open spec fn probe_modifiers(o: InjectorCreationOptions) -> Seq<u32> {
    match o.evdev_modifiers {
        Some(v) => v@,
        None => seq![KEY_LEFTSHIFT, KEY_RIGHTALT],
    }
}

/// The most modifiers the resolver holds at once. A negative setting leaves
/// no subset size to try at all: there is no bound then, and the resolver
/// tries nothing, so the table stays empty.
pub open spec fn probe_bound(o: InjectorCreationOptions) -> Option<nat> {
    match o.evdev_max_modifier_combination_len {
        Some(n) => if n < 0 {
            None
        } else {
            Some(n as nat)
        },
        None => Some(DEFAULT_MAX_MODIFIERS as nat),
    }
}

impl InjectorCreationOptions {
    pub fn modifiers_to_probe(&self) -> (r: Vec<u32>)
        ensures
            r@ == probe_modifiers(*self),
    {
        match &self.evdev_modifiers {
            Some(v) => {
                let mut r: Vec<u32> = Vec::new();
                let mut i: usize = 0;
                while i < v.len()
                    invariant
                        i <= v@.len(),
                        r@ == v@.take(i as int),
                    decreases v.len() - i,
                {
                    r.push(v[i]);
                    assert(v@.take(i + 1) == v@.take(i as int).push(v@[i as int]));
                    i += 1;
                }
                assert(v@.take(v@.len() as int) == v@);
                r
            },
            None => {
                let r: Vec<u32> = vec![KEY_LEFTSHIFT, KEY_RIGHTALT];
                assert(r@ == seq![KEY_LEFTSHIFT, KEY_RIGHTALT]);
                r
            },
        }
    }

    pub fn max_modifiers(&self) -> (r: Option<usize>)
        ensures
            match r {
                Some(n) => probe_bound(*self) == Some(n as nat),
                None => probe_bound(*self) is None,
            },
    {
        match self.evdev_max_modifier_combination_len {
            Some(n) => if n < 0 {
                None
            } else {
                Some(n as usize)
            },
            None => Some(DEFAULT_MAX_MODIFIERS),
        }
    }
}

} // verus!
