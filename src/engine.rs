use vstd::prelude::*;

use crate::event::{keys_plan, InputEvent};
use crate::injector::{failed_dispatch, pauses_of, InjectError, Injector};
use crate::keys::Key;
use crate::options::InjectionOptions;

verus! {

/// A recognised trigger and the text that replaces it.
pub struct Match {
    pub trigger: String,
    pub replace: String,
}

/// `n` taps of Backspace.
pub open spec fn backspaces(n: nat) -> Seq<Key> {
    Seq::new(n, |i: int| Key::Backspace)
}

/// The events of a match: one tap of Backspace per character of `trigger`,
/// then `insertion`.
pub open spec fn match_plan(trigger: Seq<char>, insertion: Seq<InputEvent>) -> Seq<InputEvent> {
    keys_plan(backspaces(trigger.len())) + insertion
}

/// Replaces recognised triggers through an injector.
pub struct Engine<S: Injector> {
    sender: S,
    options: InjectionOptions,
}

impl<S: Injector> Engine<S> {
    pub closed spec fn spec_sender(&self) -> S {
        self.sender
    }

    pub closed spec fn spec_options(&self) -> InjectionOptions {
        self.options
    }

    pub fn new(sender: S, options: InjectionOptions) -> (r: Engine<S>)
        ensures
            r.spec_sender() == sender,
            r.spec_options() == options,
    {
        Engine { sender, options }
    }

    pub fn sender(&self) -> (r: &S)
        ensures
            *r == self.spec_sender(),
    {
        &self.sender
    }

    /// Deletes the typed trigger, one Backspace per character, then types
    /// the replacement, whose line breaks become taps of Enter. Where the
    /// platform refuses an event, it stops there.
    pub fn on_match(&mut self, m: &Match) -> (r: Result<(), InjectError>)
        ensures
            !failed_dispatch(r) ==> final(self).spec_sender().sent() == old(
                self,
            ).spec_sender().sent() + keys_plan(backspaces(m.trigger@.len())) + old(
                self,
            ).spec_sender().text_events(m.replace@) && final(self).spec_sender().pauses() == old(
                self,
            ).spec_sender().pauses() + pauses_of(
                keys_plan(backspaces(m.trigger@.len())).len(),
                old(self).spec_options().delay,
            ) + pauses_of(
                old(self).spec_sender().text_events(m.replace@).len(),
                old(self).spec_options().delay,
            ),
            failed_dispatch(r) ==> old(self).spec_sender().can_fail() && exists|k: int|
                0 <= k <= match_plan(
                    m.trigger@,
                    old(self).spec_sender().text_events(m.replace@),
                ).len() && final(self).spec_sender().sent() == old(self).spec_sender().sent()
                    + #[trigger] match_plan(
                    m.trigger@,
                    old(self).spec_sender().text_events(m.replace@),
                ).take(k) && final(self).spec_sender().pauses() == old(self).spec_sender().pauses()
                    + pauses_of(k as nat, old(self).spec_options().delay),
            final(self).spec_options() == old(self).spec_options(),
            forall|t: Seq<char>| #[trigger] final(self).spec_sender().text_events(t) == old(
                self,
            ).spec_sender().text_events(t),
            forall|t: Seq<char>| #[trigger] final(self).spec_sender().unsupported(t) == old(
                self,
            ).spec_sender().unsupported(t),
            final(self).spec_sender().can_fail() == old(self).spec_sender().can_fail(),
            match r {
                Ok(()) => old(self).spec_sender().unsupported(m.replace@).len() == 0,
                Err(InjectError::UnsupportedSymbols(v)) => v@ == old(self).spec_sender().unsupported(
                    m.replace@,
                ) && v@.len() > 0,
                Err(InjectError::Dispatch) => true,
                Err(_) => false,
            },
    {
        let n = m.trigger.as_str().unicode_len();
        let mut keys: Vec<Key> = Vec::new();
        let mut i: usize = 0;
        while i < n
            invariant
                i <= n,
                keys@ == backspaces(i as nat),
            decreases n - i,
        {
            keys.push(Key::Backspace);
            assert(keys@ =~= backspaces((i + 1) as nat));
            i += 1;
        }
        let options = self.options;
        let ghost s0 = self.spec_sender();
        let ghost d = self.spec_options().delay;
        assert(options.delay == d);
        let ghost del = keys_plan(keys@);
        let ghost ins = s0.text_events(m.replace@);
        let ghost all = match_plan(m.trigger@, ins);
        assert(all == del + ins);
        if let Err(e) = self.sender.send_keys(keys.as_slice(), options) {
            proof {
                let k = choose|k: int|
                    0 <= k <= del.len() && self.sender.sent() == s0.sent() + #[trigger] del.take(k)
                        && self.sender.pauses() == s0.pauses() + pauses_of(k as nat, options.delay);
                assert(all.take(k) =~= del.take(k));
                assert(0 <= k <= all.len() && self.spec_sender().sent() == s0.sent() + all.take(k)
                    && self.spec_sender().pauses() == s0.pauses() + pauses_of(k as nat, d));
            }
            return Err(e);
        }
        let ghost s1 = self.sender;
        assert(s1.text_events(m.replace@) == ins);
        let r = self.sender.send_string(m.replace.as_str(), options);
        proof {
            if failed_dispatch(r) {
                let j = choose|j: int|
                    0 <= j <= ins.len() && self.sender.sent() == s1.sent() + #[trigger] ins.take(j)
                        && self.sender.pauses() == s1.pauses() + pauses_of(j as nat, options.delay);
                let k = del.len() + j;
                assert(all.take(k) =~= del + ins.take(j));
                assert(self.sender.sent() =~= s0.sent() + all.take(k));
                assert(pauses_of(del.len(), options.delay) + pauses_of(j as nat, options.delay)
                    =~= pauses_of(k as nat, options.delay));
                assert(self.sender.pauses() =~= s0.pauses() + pauses_of(k as nat, options.delay));
                assert(0 <= k <= all.len() && self.spec_sender().sent() == s0.sent() + all.take(k)
                    && self.spec_sender().pauses() == s0.pauses() + pauses_of(k as nat, d));
            } else {
                assert(self.sender.sent() =~= s0.sent() + del + ins);
            }
        }
        r
    }
}

/// Deleting `n` characters taps Backspace `n` times, before anything that
/// follows: the first `2 * n` events are those taps, the rest come after.
pub proof fn lemma_deletions_first(n: nat, insertion: Seq<InputEvent>)
    ensures
        ({
            let all = keys_plan(backspaces(n)) + insertion;
            &&& all.len() == 2 * n + insertion.len()
            &&& forall|i: int|
                0 <= i < n ==> #[trigger] all[2 * i] == InputEvent::Press(Key::Backspace) && all[2 * i
                    + 1] == InputEvent::Release(Key::Backspace)
            &&& all.skip((2 * n) as int) == insertion
        }),
{
    lemma_backspace_taps(n);
    let all = keys_plan(backspaces(n)) + insertion;
    assert(all.skip((2 * n) as int) =~= insertion);
    assert forall|i: int| 0 <= i < n implies #[trigger] all[2 * i] == InputEvent::Press(Key::Backspace)
        && all[2 * i + 1] == InputEvent::Release(Key::Backspace) by {
        assert(all[2 * i] == keys_plan(backspaces(n))[2 * i]);
        assert(all[2 * i + 1] == keys_plan(backspaces(n))[2 * i + 1]);
    }
}

proof fn lemma_backspace_taps(n: nat)
    ensures
        keys_plan(backspaces(n)).len() == 2 * n,
        forall|i: int|
            0 <= i < 2 * n ==> #[trigger] keys_plan(backspaces(n))[i] == if i % 2 == 0 {
                InputEvent::Press(Key::Backspace)
            } else {
                InputEvent::Release(Key::Backspace)
            },
    decreases n,
{
    if n > 0 {
        lemma_backspace_taps((n - 1) as nat);
        assert(backspaces(n).drop_last() =~= backspaces((n - 1) as nat));
        let a = keys_plan(backspaces((n - 1) as nat));
        assert forall|i: int| 0 <= i < 2 * n implies #[trigger] keys_plan(backspaces(n))[i] == if i
            % 2 == 0 {
            InputEvent::Press(Key::Backspace)
        } else {
            InputEvent::Release(Key::Backspace)
        } by {
            if i < 2 * n - 2 {
                assert(keys_plan(backspaces(n))[i] == a[i]);
            }
        }
    }
}

} // verus!
