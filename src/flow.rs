use vstd::prelude::*;
use crate::text::{decimal, push_decimal};
use vstd::arithmetic::div_mod::{
    lemma_fundamental_div_mod, lemma_fundamental_div_mod_converse, lemma_mod_bound,
};

verus! {

/// Dwell time of the welcome screen, in milliseconds.
pub const WELCOME_DWELL_MS: u64 = 3000;

/// Dwell time of the prompts that announce the next phase, in milliseconds.
pub const PENDING_DWELL_MS: u64 = 2500;

/// Dwell time of a rest or gesture phase, in milliseconds.
pub const PHASE_DWELL_MS: u64 = 5000;

/// Largest number of gesture classes: labels are bytes and 0 stands for rest.
pub const MAX_ACTION_COUNT: usize = 255;

/// The phases of a guided calibration session.
#[derive(Clone, Copy, Debug, PartialEq, Eq, Structural)]
pub enum CalibrationFlowState {
    Init,
    Welcome,
    /// Announces a rest phase.
    NullActionWait,
    /// The user rests; samples are labeled 0.
    NullAction,
    /// Announces a gesture.
    GestureActionWait,
    /// The user performs a gesture; samples are labeled with its class.
    GestureAction,
    Done,
}

impl Default for CalibrationFlowState {
    fn default() -> (r: Self)
        ensures
            r == CalibrationFlowState::Init,
    {
        CalibrationFlowState::Init
    }
}

/// The part of a calibration flow that its transitions read and write.
pub struct FlowModel {
    pub state: CalibrationFlowState,
    pub action_count: nat,
    pub current_action: nat,
    pub remaining: Seq<u32>,
}

/// How long the flow stays in `state`, in milliseconds.
pub open spec fn dwell_ms(state: CalibrationFlowState) -> u64 {
    match state {
        CalibrationFlowState::Init => 0,
        CalibrationFlowState::Welcome => WELCOME_DWELL_MS,
        CalibrationFlowState::NullActionWait => PENDING_DWELL_MS,
        CalibrationFlowState::NullAction => PHASE_DWELL_MS,
        CalibrationFlowState::GestureActionWait => PENDING_DWELL_MS,
        CalibrationFlowState::GestureAction => PHASE_DWELL_MS,
        CalibrationFlowState::Done => 0,
    }
}

/// No class owes any more repetitions.
pub open spec fn all_done(remaining: Seq<u32>) -> bool {
    forall|i: int| 0 <= i < remaining.len() ==> remaining[i] == 0
}

/// The state that follows `state`.
pub open spec fn next_state(state: CalibrationFlowState, remaining: Seq<u32>) -> CalibrationFlowState {
    match state {
        CalibrationFlowState::Init => CalibrationFlowState::Welcome,
        CalibrationFlowState::Welcome => CalibrationFlowState::NullActionWait,
        CalibrationFlowState::NullActionWait => CalibrationFlowState::NullAction,
        CalibrationFlowState::NullAction => if all_done(remaining) {
            CalibrationFlowState::Done
        } else {
            CalibrationFlowState::GestureActionWait
        },
        CalibrationFlowState::GestureActionWait => CalibrationFlowState::GestureAction,
        CalibrationFlowState::GestureAction => CalibrationFlowState::NullActionWait,
        CalibrationFlowState::Done => CalibrationFlowState::Done,
    }
}

/// One transition. Entering a gesture takes one repetition off the current
/// class (never below zero) and moves on to the next class, round robin.
pub open spec fn step(m: FlowModel) -> FlowModel {
    let next = next_state(m.state, m.remaining);
    if m.state == CalibrationFlowState::GestureActionWait {
        let c = m.current_action as int;
        FlowModel {
            state: next,
            action_count: m.action_count,
            current_action: (m.current_action + 1) % m.action_count,
            remaining: m.remaining.update(
                c,
                if m.remaining[c] > 0 {
                    (m.remaining[c] - 1) as u32
                } else {
                    0
                },
            ),
        }
    } else {
        FlowModel { state: next, ..m }
    }
}

/// The model and the timer after `elapsed_ms` milliseconds: while time is
/// left only the timer runs down; once it has run out the flow makes one
/// transition and the timer starts over with the dwell time of the new state.
pub open spec fn after_tick(m: FlowModel, timer: u64, elapsed_ms: u64) -> (FlowModel, u64) {
    if timer > elapsed_ms {
        (m, (timer - elapsed_ms) as u64)
    } else {
        let next = step(m);
        (next, dwell_ms(next.state))
    }
}

/// The transitions of the flow model are closed over these models.
pub open spec fn model_wf(m: FlowModel) -> bool {
    &&& m.remaining.len() == m.action_count
    &&& m.action_count <= MAX_ACTION_COUNT
    &&& if m.action_count > 0 {
        m.current_action < m.action_count
    } else {
        m.current_action == 0
    }
    &&& (m.state == CalibrationFlowState::GestureActionWait || m.state
        == CalibrationFlowState::GestureAction) ==> m.action_count > 0
}

/// The label that samples get while the flow is in `m`.
pub open spec fn label_of(calibrating: bool, m: FlowModel) -> Option<u8> {
    if !calibrating {
        None
    } else {
        match m.state {
            CalibrationFlowState::GestureAction => Some((m.current_action + 1) as u8),
            CalibrationFlowState::NullAction => Some(0),
            _ => None,
        }
    }
}

/// The prompt shown to the user in `state`, where `movement` is the number
/// of the current gesture class counted from 1.
pub open spec fn message_text(state: CalibrationFlowState, movement: nat) -> Seq<char> {
    match state {
        CalibrationFlowState::Init => "Initializing..."@,
        CalibrationFlowState::Welcome => "Please follow the instructions."@,
        CalibrationFlowState::NullActionWait => "⚠️ Prepare to rest your arm."@,
        CalibrationFlowState::NullAction => "⛔ Rest your arm now."@,
        CalibrationFlowState::GestureActionWait => "⚠️ Prepare movement #"@ + decimal(movement),
        CalibrationFlowState::GestureAction => "✋ Do movement #"@ + decimal(movement)
            + " now."@,
        CalibrationFlowState::Done => "Data collected. Click 'Train AI'."@,
    }
}

/// The flow model right after `start(action_count, key_presses)`.
pub open spec fn started(action_count: nat, key_presses: u32) -> FlowModel {
    FlowModel {
        state: CalibrationFlowState::Init,
        action_count,
        current_action: 0,
        remaining: Seq::new(action_count, |i: int| key_presses),
    }
}

/// The model after `k` transitions from `m`.
pub open spec fn run_flow(m: FlowModel, k: nat) -> FlowModel
    decreases k,
{
    if k == 0 {
        m
    } else {
        step(run_flow(m, (k - 1) as nat))
    }
}

/// How many of the first `k` transitions from `m` enter a gesture.
pub open spec fn gesture_entries(m: FlowModel, k: nat) -> nat
    decreases k,
{
    if k == 0 {
        0
    } else {
        gesture_entries(m, (k - 1) as nat) + if run_flow(m, k).state
            == CalibrationFlowState::GestureAction {
            1nat
        } else {
            0nat
        }
    }
}

/// Number of transitions of a whole session over `action_count` classes with
/// `key_presses` repetitions each: a welcome, then four phases per gesture,
/// then a last rest.
pub open spec fn session_length(action_count: nat, key_presses: nat) -> nat {
    4 * (action_count * key_presses) + 4
}

/// The model when `g` gestures have been made and the next rest is announced.
spec fn after_gestures(n: nat, r: u32, g: nat) -> FlowModel {
    FlowModel {
        state: CalibrationFlowState::NullActionWait,
        action_count: n,
        current_action: if n == 0 {
            0
        } else {
            g % n
        },
        remaining: Seq::new(
            n,
            |i: int|
                (r - g / n - if i < g % n {
                    1int
                } else {
                    0int
                }) as u32,
        ),
    }
}

proof fn lemma_div_mod_succ(g: nat, n: nat)
    requires
        n > 0,
    ensures
        g % n < n,
        g % n + 1 < n ==> (g + 1) / n == g / n && (g + 1) % n == g % n + 1,
        g % n + 1 == n ==> (g + 1) / n == g / n + 1 && (g + 1) % n == 0,
        (g % n + 1) % n == (g + 1) % n,
{
    lemma_fundamental_div_mod(g as int, n as int);
    lemma_mod_bound(g as int, n as int);
    let q = g / n;
    let c = g % n;
    assert(n * q == q * n) by (nonlinear_arith);
    if c + 1 < n {
        lemma_fundamental_div_mod_converse((g + 1) as int, n as int, q as int, (c + 1) as int);
        lemma_fundamental_div_mod_converse((c + 1) as int, n as int, 0, (c + 1) as int);
    } else {
        lemma_fundamental_div_mod_converse((c + 1) as int, n as int, 1, 0);
        assert((q + 1) * n == q * n + n) by (nonlinear_arith);
        lemma_fundamental_div_mod_converse((g + 1) as int, n as int, (q + 1) as int, 0);
    }
}

proof fn lemma_owed_while_short(g: nat, n: nat, r: nat)
    requires
        n > 0,
        g < n * r,
    ensures
        g / n < r,
{
    lemma_fundamental_div_mod(g as int, n as int);
    lemma_mod_bound(g as int, n as int);
    let q = g / n;
    if q >= r {
        assert(n * q >= n * r) by (nonlinear_arith)
            requires
                q >= r,
        ;
    }
}

proof fn lemma_all_paid(n: nat, r: nat)
    requires
        n > 0,
    ensures
        (n * r) / n == r,
        (n * r) % n == 0,
{
    assert(n * r == r * n + 0) by (nonlinear_arith);
    lemma_fundamental_div_mod_converse((n * r) as int, n as int, r as int, 0);
}

/// One transition keeps the model well formed.
pub proof fn lemma_step_keeps_wf(m: FlowModel)
    requires
        model_wf(m),
    ensures
        model_wf(step(m)),
{
    if m.state == CalibrationFlowState::NullAction && !all_done(m.remaining) {
        let i = choose|i: int| 0 <= i < m.remaining.len() && m.remaining[i] != 0;
        assert(m.remaining.len() > 0);
    }
    if m.state == CalibrationFlowState::GestureActionWait {
        lemma_mod_bound((m.current_action + 1) as int, m.action_count as int);
    }
}

/// Any number of transitions keeps the model well formed.
pub proof fn lemma_run_keeps_wf(m: FlowModel, k: nat)
    requires
        model_wf(m),
    ensures
        model_wf(run_flow(m, k)),
    decreases k,
{
    if k > 0 {
        lemma_run_keeps_wf(m, (k - 1) as nat);
        lemma_step_keeps_wf(run_flow(m, (k - 1) as nat));
    }
}

proof fn lemma_rounds(n: nat, r: u32, g: nat)
    requires
        n <= MAX_ACTION_COUNT,
        g <= n * r,
    ensures
        run_flow(started(n, r), 2 + 4 * g) == after_gestures(n, r, g),
        forall|k: nat|
            k <= 2 + 4 * g ==> #[trigger] run_flow(started(n, r), k).state
                != CalibrationFlowState::Done,
        gesture_entries(started(n, r), 2 + 4 * g) == g,
    decreases g,
{
    let m0 = started(n, r);
    if g == 0 {
        assert(run_flow(m0, 0) == m0);
        assert(run_flow(m0, 1) == step(m0));
        assert(run_flow(m0, 2) == step(run_flow(m0, 1)));
        if n > 0 {
            assert(0nat / n == 0 && 0nat % n == 0);
        }
        assert(run_flow(m0, 2).remaining =~= after_gestures(n, r, 0).remaining);
        assert(gesture_entries(m0, 0) == 0);
        assert(gesture_entries(m0, 1) == 0);
        assert(gesture_entries(m0, 2) == 0);
        assert forall|k: nat| k <= 2 + 4 * g implies #[trigger] run_flow(m0, k).state
            != CalibrationFlowState::Done by {
            if k == 1 {
            } else if k == 2 {
            }
        }
    } else {
        let h = (g - 1) as nat;
        lemma_rounds(n, r, h);
        assert(n > 0) by {
            if n == 0 {
                assert(n * r == 0);
            }
        }
        let base: nat = 2 + 4 * h;
        let a = after_gestures(n, r, h);
        lemma_div_mod_succ(h, n);
        lemma_owed_while_short(h, n, r as nat);
        let c = h % n;
        let s1 = run_flow(m0, base + 1);
        let s2 = run_flow(m0, base + 2);
        let s3 = run_flow(m0, base + 3);
        let s4 = run_flow(m0, base + 4);
        assert(s1 == step(a));
        assert(s2 == step(s1));
        assert(s3 == step(s2));
        assert(s4 == step(s3));
        assert(a.remaining[c as int] == (r - h / n) as u32);
        assert(!all_done(a.remaining));
        assert(s1.state == CalibrationFlowState::NullAction);
        assert(s2.state == CalibrationFlowState::GestureActionWait);
        assert(s2.remaining == a.remaining && s2.current_action == c);
        assert(s3.state == CalibrationFlowState::GestureAction);
        assert(s4.state == CalibrationFlowState::NullActionWait);
        let b = after_gestures(n, r, g);
        assert(s4.current_action == b.current_action);
        assert(s4.remaining =~= b.remaining);
        assert(base + 4 == 2 + 4 * g);
        assert(gesture_entries(m0, base + 1) == h);
        assert(gesture_entries(m0, base + 2) == h);
        assert(gesture_entries(m0, base + 3) == h + 1);
        assert(gesture_entries(m0, base + 4) == g);
        assert forall|k: nat| k <= 2 + 4 * g implies #[trigger] run_flow(m0, k).state
            != CalibrationFlowState::Done by {
            if k > base {
                if k == base + 1 {
                } else if k == base + 2 {
                } else if k == base + 3 {
                } else {
                }
            }
        }
    }
}

/// A session started over `n` classes with `r` repetitions each enters a
/// gesture exactly `n * r` times before it is done: it reaches `Done` after
/// `session_length(n, r)` transitions and not earlier. Along the way every
/// model is well formed, so a gesture's label lies in `1..=n`.
pub proof fn lemma_session_walks_all_gestures(n: nat, r: u32)
    requires
        n <= MAX_ACTION_COUNT,
    ensures
        run_flow(started(n, r), session_length(n, r as nat)).state == CalibrationFlowState::Done,
        forall|k: nat|
            k < session_length(n, r as nat) ==> #[trigger] run_flow(started(n, r), k).state
                != CalibrationFlowState::Done,
        gesture_entries(started(n, r), session_length(n, r as nat)) == n * r,
        forall|k: nat| #[trigger] model_wf(run_flow(started(n, r), k)),
{
    let m0 = started(n, r);
    let g: nat = n * (r as nat);
    lemma_rounds(n, r, g);
    let base: nat = 2 + 4 * g;
    let a = after_gestures(n, r, g);
    if n > 0 {
        lemma_all_paid(n, r as nat);
    }
    assert(all_done(a.remaining));
    let s1 = run_flow(m0, base + 1);
    let s2 = run_flow(m0, base + 2);
    assert(s1 == step(a));
    assert(s2 == step(s1));
    assert(s1.state == CalibrationFlowState::NullAction);
    assert(s2.state == CalibrationFlowState::Done);
    assert(session_length(n, r as nat) == base + 2);
    assert(gesture_entries(m0, base + 1) == g);
    assert(gesture_entries(m0, base + 2) == g);
    assert forall|k: nat| k < session_length(n, r as nat) implies #[trigger] run_flow(
        m0,
        k,
    ).state != CalibrationFlowState::Done by {
        if k == base + 1 {
        }
    }
    assert(model_wf(m0));
    assert forall|k: nat| #[trigger] model_wf(run_flow(m0, k)) by {
        lemma_run_keeps_wf(m0, k);
    }
}

/// A guided calibration session: it walks through rest and gesture phases,
/// each for a fixed time, and tells which label the incoming samples get.
pub struct CalibrationFlow {
    pub currently_calibrating: bool,
    pub currently_inferring: bool,
    pub action_count: usize,
    pub current_action: usize,
    pub remaining_key_presses: Vec<u32>,
    /// Time left in the current state, in milliseconds.
    pub timer: u64,
    pub state: CalibrationFlowState,
}

impl Default for CalibrationFlow {
    fn default() -> (r: Self)
        ensures
            r.is_idle(),
    {
        CalibrationFlow {
            currently_calibrating: false,
            currently_inferring: false,
            action_count: 0,
            current_action: 0,
            remaining_key_presses: Vec::new(),
            timer: 0,
            state: CalibrationFlowState::Init,
        }
    }
}

impl CalibrationFlow {
    pub open spec fn model(&self) -> FlowModel {
        FlowModel {
            state: self.state,
            action_count: self.action_count as nat,
            current_action: self.current_action as nat,
            remaining: self.remaining_key_presses@,
        }
    }

    pub open spec fn wf(&self) -> bool {
        model_wf(self.model())
    }

    /// The default, inactive flow.
    pub open spec fn is_idle(&self) -> bool {
        &&& !self.currently_calibrating
        &&& !self.currently_inferring
        &&& self.action_count == 0
        &&& self.current_action == 0
        &&& self.remaining_key_presses@.len() == 0
        &&& self.timer == 0
        &&& self.state == CalibrationFlowState::Init
    }

    /// Starts a session over `action_count` gesture classes, each owing
    /// `key_presses` repetitions.
    pub fn start(&mut self, action_count: usize, key_presses: u32)
        requires
            action_count <= MAX_ACTION_COUNT,
        ensures
            final(self).wf(),
            final(self).model() == started(action_count as nat, key_presses),
            final(self).timer == 0,
            final(self).currently_calibrating,
            final(self).currently_inferring == old(self).currently_inferring,
    {
        let mut remaining: Vec<u32> = Vec::new();
        let mut i: usize = 0;
        while i < action_count
            invariant
                i <= action_count,
                remaining@ == Seq::new(i as nat, |j: int| key_presses),
            decreases action_count - i,
        {
            remaining.push(key_presses);
            i = i + 1;
            assert(remaining@ =~= Seq::new(i as nat, |j: int| key_presses));
        }
        self.action_count = action_count;
        self.current_action = 0;
        self.remaining_key_presses = remaining;
        self.timer = 0;
        self.state = CalibrationFlowState::Init;
        self.currently_calibrating = true;
    }

    /// Ends the session and discards its progress.
    pub fn stop(&mut self)
        ensures
            final(self).is_idle(),
            final(self).wf(),
    {
        *self = Self::default();
    }

    /// The label of the samples that arrive now: 0 while resting, the class
    /// number counted from 1 during a gesture, none otherwise or when no
    /// session runs.
    pub fn get_label(&self) -> (r: Option<u8>)
        requires
            self.wf(),
        ensures
            r == label_of(self.currently_calibrating, self.model()),
    {
        if !self.currently_calibrating {
            return None;
        }
        match self.state {
            CalibrationFlowState::GestureAction => Some((self.current_action + 1) as u8),
            CalibrationFlowState::NullAction => Some(0),
            _ => None,
        }
    }

    /// Lets `elapsed_ms` milliseconds pass. When the time of the current
    /// state has run out, makes one transition and starts the timer of the new
    /// state. Returns whether the state changed.
    pub fn tick(&mut self, elapsed_ms: u64) -> (r: bool)
        requires
            old(self).wf(),
        ensures
            final(self).wf(),
            final(self).currently_calibrating == old(self).currently_calibrating,
            final(self).currently_inferring == old(self).currently_inferring,
            (final(self).model(), final(self).timer) == after_tick(
                old(self).model(),
                old(self).timer,
                elapsed_ms,
            ),
            r == (final(self).state != old(self).state),
    {
        if self.timer > 0 {
            self.timer = self.timer.saturating_sub(elapsed_ms);
        }
        if self.timer > 0 {
            return false;
        }
        let ghost before = self.model();
        let new_state = match self.state {
            CalibrationFlowState::Init => CalibrationFlowState::Welcome,
            CalibrationFlowState::Welcome => CalibrationFlowState::NullActionWait,
            CalibrationFlowState::NullActionWait => CalibrationFlowState::NullAction,
            CalibrationFlowState::NullAction => {
                if self.all_repetitions_done() {
                    CalibrationFlowState::Done
                } else {
                    CalibrationFlowState::GestureActionWait
                }
            },
            CalibrationFlowState::GestureActionWait => {
                let c = self.current_action;
                let left = self.remaining_key_presses[c];
                self.remaining_key_presses.set(c, left.saturating_sub(1));
                self.current_action = (c + 1) % self.action_count;
                CalibrationFlowState::GestureAction
            },
            CalibrationFlowState::GestureAction => CalibrationFlowState::NullActionWait,
            CalibrationFlowState::Done => CalibrationFlowState::Done,
        };
        let delay: u64 = match new_state {
            CalibrationFlowState::Init | CalibrationFlowState::Done => 0,
            CalibrationFlowState::Welcome => WELCOME_DWELL_MS,
            CalibrationFlowState::NullActionWait => PENDING_DWELL_MS,
            CalibrationFlowState::NullAction => PHASE_DWELL_MS,
            CalibrationFlowState::GestureActionWait => PENDING_DWELL_MS,
            CalibrationFlowState::GestureAction => PHASE_DWELL_MS,
        };
        let changed = self.state != new_state;
        self.state = new_state;
        self.timer = delay;
        proof {
            assert(self.model().remaining =~= step(before).remaining);
        }
        changed
    }

    fn all_repetitions_done(&self) -> (r: bool)
        ensures
            r == all_done(self.remaining_key_presses@),
    {
        let mut i: usize = 0;
        while i < self.remaining_key_presses.len()
            invariant
                i <= self.remaining_key_presses@.len(),
                forall|j: int| 0 <= j < i ==> self.remaining_key_presses@[j] == 0,
            decreases self.remaining_key_presses@.len() - i,
        {
            if self.remaining_key_presses[i] != 0 {
                return false;
            }
            i = i + 1;
        }
        true
    }

    /// The prompt for the current state.
    pub fn generate_message(&self) -> (r: String)
        requires
            self.wf(),
        ensures
            r@ == message_text(self.state, self.current_action as nat + 1),
    {
        let movement: u64 = self.current_action as u64 + 1;
        match self.state {
            CalibrationFlowState::Init => String::from_str("Initializing..."),
            CalibrationFlowState::Welcome => String::from_str("Please follow the instructions."),
            CalibrationFlowState::NullActionWait => String::from_str("⚠️ Prepare to rest your arm."),
            CalibrationFlowState::NullAction => String::from_str("⛔ Rest your arm now."),
            CalibrationFlowState::GestureActionWait => {
                let mut s = String::from_str("⚠️ Prepare movement #");
                push_decimal(&mut s, movement);
                s
            },
            CalibrationFlowState::GestureAction => {
                let mut s = String::from_str("✋ Do movement #");
                push_decimal(&mut s, movement);
                s.append(" now.");
                s
            },
            CalibrationFlowState::Done => String::from_str("Data collected. Click 'Train AI'."),
        }
    }
}

} // verus!
