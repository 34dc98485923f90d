use vstd::prelude::*;

verus! {

/// How many more times a new class must be predicted in a row, after it was
/// first seen, before its action replaces the active one.
pub const DEBOUNCE_THRESHOLD: u32 = 2;

/// What a predicted class triggers.
#[derive(Clone, Copy, Debug, PartialEq, Eq, Structural)]
pub enum Action {
    /// A key, held while the class stays active (or tapped once, see `tap`).
    Key(char),
    /// A tone of the given frequency in hertz.
    Sound(u32),
    Nothing,
}

/// A side effect that the dispatcher asks its environment to perform.
#[derive(Clone, Copy, Debug, PartialEq, Eq, Structural)]
pub enum Effect {
    Press(char),
    Release(char),
    /// Press and release at once.
    Click(char),
    /// Play a short tone of the given frequency in hertz.
    Tone(u32),
}

/// An action could not be assigned.
#[derive(Clone, Copy, Debug, PartialEq, Eq, Structural)]
pub enum ConfigError {
    /// There is no class with that index.
    IndexOutOfRange,
}

/// The state of the debounce filter.
pub struct Debounce {
    pub active: u8,
    pub last: u8,
    pub count: u32,
}

/// Feeds one prediction to the debounce filter. A prediction equal to the
/// active class changes nothing but the last prediction. A repeat of the last
/// prediction brings the count one closer to zero; any other prediction sets
/// it back to the threshold. When the count reaches zero the prediction
/// becomes the active class.
pub open spec fn debounce_step(d: Debounce, p: u8) -> Debounce {
    if p == d.active {
        Debounce { last: p, ..d }
    } else {
        let count: u32 = if p == d.last {
            if d.count > 0 {
                (d.count - 1) as u32
            } else {
                0
            }
        } else {
            DEBOUNCE_THRESHOLD
        };
        Debounce { active: if count == 0 { p } else { d.active }, last: p, count }
    }
}

/// Whether feeding `p` makes it the active class in place of another.
pub open spec fn switches(d: Debounce, p: u8) -> bool {
    p != d.active && debounce_step(d, p).active == p
}

/// The filter after feeding the predictions `ps` in order.
pub open spec fn run_debounce(d: Debounce, ps: Seq<u8>) -> Debounce
    decreases ps.len(),
{
    if ps.len() == 0 {
        d
    } else {
        debounce_step(run_debounce(d, ps.drop_last()), ps.last())
    }
}

/// How many times the active class changes while feeding `ps` in order.
pub open spec fn switch_count(d: Debounce, ps: Seq<u8>) -> nat
    decreases ps.len(),
{
    if ps.len() == 0 {
        0
    } else {
        switch_count(d, ps.drop_last()) + if switches(run_debounce(d, ps.drop_last()), ps.last()) {
            1nat
        } else {
            0nat
        }
    }
}

/// Whether class `index` is set to tap its key rather than hold it.
pub open spec fn tap_of(tap: Seq<bool>, index: int) -> bool {
    0 <= index < tap.len() && tap[index]
}

/// What invoking the action of class `index` does.
pub open spec fn press_effect(actions: Seq<Action>, tap: Seq<bool>, index: int) -> Option<Effect> {
    if 0 <= index < actions.len() {
        match actions[index] {
            Action::Key(k) => Some(
                if tap_of(tap, index) {
                    Effect::Click(k)
                } else {
                    Effect::Press(k)
                },
            ),
            Action::Sound(f) => Some(Effect::Tone(f)),
            Action::Nothing => None,
        }
    } else {
        None
    }
}

/// What releasing the action of class `index` does: only a held key is released.
pub open spec fn release_effect(actions: Seq<Action>, tap: Seq<bool>, index: int) -> Option<Effect> {
    if 0 <= index < actions.len() {
        match actions[index] {
            Action::Key(k) => if tap_of(tap, index) {
                None
            } else {
                Some(Effect::Release(k))
            },
            _ => None,
        }
    } else {
        None
    }
}

pub open spec fn effects_of(e: Option<Effect>) -> Seq<Effect> {
    match e {
        Some(x) => seq![x],
        None => Seq::empty(),
    }
}

/// The text that describes an action.
pub open spec fn action_text(a: Action) -> Seq<char> {
    match a {
        Action::Key(k) => "Key \""@ + seq![k] + "\""@,
        Action::Sound(_) => "Sound"@,
        Action::Nothing => "(no action)"@,
    }
}

/// Relies on `char`'s `ToString`: the text of a char is that char alone.
#[verifier::external_body]
fn char_text(c: char) -> (r: String)
    ensures
        r@ == seq![c],
{
    c.to_string()
}

impl Action {
    /// A short description for display.
    pub fn to_string(&self) -> (r: String)
        ensures
            r@ == action_text(*self),
    {
        match self {
            Action::Key(key) => {
                let mut s = String::from_str("Key \"");
                let k = char_text(*key);
                s.append(k.as_str());
                s.append("\"");
                s
            },
            Action::Sound(_) => String::from_str("Sound"),
            Action::Nothing => String::from_str("(no action)"),
        }
    }
}

/// The debounced dispatcher: it turns a stream of predicted classes into
/// press and release effects of the actions assigned to the classes.
pub struct InputState {
    pub enabled: bool,
    pub debounce_count: u32,
    pub active_prediction: u8,
    pub last_prediction: u8,
    pub actions: Vec<Action>,
    pub tap: Vec<bool>,
    pub verbose: bool,
}

/// Once a class is active, predicting it again, any number of times, leaves
/// the filter's active class and count as they are and never switches, so it
/// never releases or invokes an action again.
pub proof fn lemma_active_prediction_is_stable(d: Debounce, ps: Seq<u8>)
    requires
        forall|i: int| 0 <= i < ps.len() ==> ps[i] == d.active,
    ensures
        run_debounce(d, ps).active == d.active,
        run_debounce(d, ps).count == d.count,
        switch_count(d, ps) == 0,
    decreases ps.len(),
{
    if ps.len() > 0 {
        lemma_active_prediction_is_stable(d, ps.drop_last());
    }
}

/// A class that is neither the active one nor the last prediction becomes
/// active exactly at its `DEBOUNCE_THRESHOLD + 1`-th prediction in a row: the
/// active class switches once then, and never before.
pub proof fn lemma_switch_after_threshold(d: Debounce, p: u8, k: nat)
    requires
        p != d.active,
        p != d.last,
    ensures
        switch_count(d, Seq::new(k, |i: int| p)) == if k > DEBOUNCE_THRESHOLD {
            1nat
        } else {
            0nat
        },
        run_debounce(d, Seq::new(k, |i: int| p)).active == if k > DEBOUNCE_THRESHOLD {
            p
        } else {
            d.active
        },
        k >= 1 ==> run_debounce(d, Seq::new(k, |i: int| p)).last == p,
        1 <= k <= DEBOUNCE_THRESHOLD ==> run_debounce(d, Seq::new(k, |i: int| p)).count
            == DEBOUNCE_THRESHOLD + 1 - k,
        k > DEBOUNCE_THRESHOLD ==> run_debounce(d, Seq::new(k, |i: int| p)).count == 0,
    decreases k,
{
    let ps = Seq::new(k, |i: int| p);
    if k > 0 {
        let prev = Seq::new((k - 1) as nat, |i: int| p);
        assert(ps.drop_last() =~= prev);
        lemma_switch_after_threshold(d, p, (k - 1) as nat);
    }
}

/// Predictions that each differ from the one before them (the first from the
/// filter's last prediction) never make a new class active: two classes
/// flapping back and forth cannot meet the threshold.
pub proof fn lemma_changing_predictions_never_switch(d: Debounce, ps: Seq<u8>)
    requires
        ps.len() > 0 ==> ps[0] != d.last,
        forall|i: int| 1 <= i < ps.len() ==> #[trigger] ps[i] != ps[i - 1],
    ensures
        switch_count(d, ps) == 0,
        run_debounce(d, ps).active == d.active,
        ps.len() > 0 ==> run_debounce(d, ps).last == ps.last(),
    decreases ps.len(),
{
    if ps.len() > 0 {
        let prefix = ps.drop_last();
        assert forall|i: int| 1 <= i < prefix.len() implies #[trigger] prefix[i] != prefix[i - 1] by {
            assert(prefix[i] == ps[i] && prefix[i - 1] == ps[i - 1]);
        }
        lemma_changing_predictions_never_switch(d, prefix);
        if prefix.len() > 0 {
            assert(ps[ps.len() - 1] != ps[ps.len() - 2]);
        }
    }
}

impl InputState {
    pub open spec fn debounce(&self) -> Debounce {
        Debounce {
            active: self.active_prediction,
            last: self.last_prediction,
            count: self.debounce_count,
        }
    }

    /// A disabled dispatcher with rest mapped to no action and the four
    /// gesture classes mapped to the keys w, a, d and s, held while active.
    pub fn new(verbose: bool) -> (r: Self)
        ensures
            !r.enabled,
            r.verbose == verbose,
            r.debounce() == (Debounce { active: 0, last: 0, count: 0 }),
            r.actions@ == seq![
                Action::Nothing,
                Action::Key('w'),
                Action::Key('a'),
                Action::Key('d'),
                Action::Key('s'),
            ],
            r.tap@ == seq![false, false, false, false, false],
    {
        let actions = vec![
            Action::Nothing,
            Action::Key('w'),
            Action::Key('a'),
            Action::Key('d'),
            Action::Key('s'),
        ];
        let tap = vec![false, false, false, false, false];
        let r = InputState {
            enabled: false,
            debounce_count: 0,
            active_prediction: 0,
            last_prediction: 0,
            actions,
            tap,
            verbose,
        };
        assert(r.actions@ =~= seq![
            Action::Nothing,
            Action::Key('w'),
            Action::Key('a'),
            Action::Key('d'),
            Action::Key('s'),
        ]);
        assert(r.tap@ =~= seq![false, false, false, false, false]);
        r
    }

    /// Releases the active action, clears the predictions and disables the
    /// dispatcher. Returns the release effect, if the active action has one.
    pub fn reset(&mut self) -> (r: Vec<Effect>)
        ensures
            r@ == effects_of(
                release_effect(old(self).actions@, old(self).tap@, old(self).active_prediction as int),
            ),
            !final(self).enabled,
            final(self).active_prediction == 0,
            final(self).last_prediction == 0,
            final(self).debounce_count == old(self).debounce_count,
            final(self).actions == old(self).actions,
            final(self).tap == old(self).tap,
            final(self).verbose == old(self).verbose,
    {
        let mut effects: Vec<Effect> = Vec::new();
        if let Some(e) = self.release(self.active_prediction as usize) {
            effects.push(e);
        }
        assert(effects@ =~= effects_of(
            release_effect(old(self).actions@, old(self).tap@, old(self).active_prediction as int),
        ));
        self.last_prediction = 0;
        self.active_prediction = 0;
        self.enabled = false;
        effects
    }

    /// Lets predictions through from now on.
    pub fn enable(&mut self)
        ensures
            final(self).enabled,
            final(self).debounce() == old(self).debounce(),
            final(self).actions == old(self).actions,
            final(self).tap == old(self).tap,
            final(self).verbose == old(self).verbose,
    {
        self.enabled = true;
    }

    /// Assigns `action` to class `index`; a class that does not exist is an
    /// error and leaves the table as it was.
    pub fn set_action(&mut self, index: usize, action: Action) -> (r: Result<(), ConfigError>)
        ensures
            index < old(self).actions@.len() ==> r is Ok && final(self).actions@ == old(
                self,
            ).actions@.update(index as int, action),
            index >= old(self).actions@.len() ==> r == Err::<(), ConfigError>(
                ConfigError::IndexOutOfRange,
            ) && final(self).actions@ == old(self).actions@,
            final(self).tap == old(self).tap,
            final(self).enabled == old(self).enabled,
            final(self).debounce() == old(self).debounce(),
            final(self).verbose == old(self).verbose,
    {
        if index < self.actions.len() {
            self.actions.set(index, action);
            Ok(())
        } else {
            Err(ConfigError::IndexOutOfRange)
        }
    }

    /// Sets whether class `index` taps its key rather than holds it; a class
    /// that does not exist is an error and leaves the flags as they were.
    pub fn set_tap(&mut self, index: usize, tap: bool) -> (r: Result<(), ConfigError>)
        ensures
            index < old(self).tap@.len() ==> r is Ok && final(self).tap@ == old(self).tap@.update(
                index as int,
                tap,
            ),
            index >= old(self).tap@.len() ==> r == Err::<(), ConfigError>(
                ConfigError::IndexOutOfRange,
            ) && final(self).tap@ == old(self).tap@,
            final(self).actions == old(self).actions,
            final(self).enabled == old(self).enabled,
            final(self).debounce() == old(self).debounce(),
            final(self).verbose == old(self).verbose,
    {
        if index < self.tap.len() {
            self.tap.set(index, tap);
            Ok(())
        } else {
            Err(ConfigError::IndexOutOfRange)
        }
    }

    /// Feeds one predicted class to the debounce filter. When it makes a new
    /// class active, returns the release of the old class's action followed by
    /// the invocation of the new one's; otherwise returns no effect. A
    /// disabled dispatcher ignores the prediction.
    pub fn set_predicted(&mut self, prediction: u8) -> (r: Vec<Effect>)
        ensures
            final(self).enabled == old(self).enabled,
            final(self).actions == old(self).actions,
            final(self).tap == old(self).tap,
            final(self).verbose == old(self).verbose,
            !old(self).enabled ==> final(self).debounce() == old(self).debounce() && r@.len() == 0,
            old(self).enabled ==> final(self).debounce() == debounce_step(
                old(self).debounce(),
                prediction,
            ),
            old(self).enabled ==> r@ == if switches(old(self).debounce(), prediction) {
                effects_of(
                    release_effect(
                        old(self).actions@,
                        old(self).tap@,
                        old(self).active_prediction as int,
                    ),
                ) + effects_of(press_effect(old(self).actions@, old(self).tap@, prediction as int))
            } else {
                Seq::empty()
            },
    {
        let mut effects: Vec<Effect> = Vec::new();
        if !self.enabled {
            return effects;
        }
        if self.active_prediction == prediction {
            self.last_prediction = prediction;
            return effects;
        }
        self.debounce_count = if self.last_prediction == prediction {
            self.debounce_count.saturating_sub(1)
        } else {
            DEBOUNCE_THRESHOLD
        };
        self.last_prediction = prediction;
        if self.debounce_count == 0 {
            if let Some(e) = self.release(self.active_prediction as usize) {
                effects.push(e);
            }
            if let Some(e) = self.press(prediction as usize) {
                effects.push(e);
            }
            self.active_prediction = prediction;
        }
        assert(effects@ =~= if switches(old(self).debounce(), prediction) {
            effects_of(
                release_effect(old(self).actions@, old(self).tap@, old(self).active_prediction as int),
            ) + effects_of(press_effect(old(self).actions@, old(self).tap@, prediction as int))
        } else {
            Seq::empty()
        });
        effects
    }

    fn tap_flag(&self, index: usize) -> (r: bool)
        ensures
            r == tap_of(self.tap@, index as int),
    {
        index < self.tap.len() && self.tap[index]
    }

    /// The effect of invoking the action of class `index`.
    fn press(&self, index: usize) -> (r: Option<Effect>)
        ensures
            r == press_effect(self.actions@, self.tap@, index as int),
    {
        if index >= self.actions.len() {
            return None;
        }
        match self.actions[index] {
            Action::Key(key) => if self.tap_flag(index) {
                Some(Effect::Click(key))
            } else {
                Some(Effect::Press(key))
            },
            Action::Sound(frequency) => Some(Effect::Tone(frequency)),
            Action::Nothing => None,
        }
    }

    /// The effect of releasing the action of class `index`.
    fn release(&self, index: usize) -> (r: Option<Effect>)
        ensures
            r == release_effect(self.actions@, self.tap@, index as int),
    {
        if index >= self.actions.len() {
            return None;
        }
        match self.actions[index] {
            Action::Key(key) => if self.tap_flag(index) {
                None
            } else {
                Some(Effect::Release(key))
            },
            _ => None,
        }
    }
}

} // verus!
