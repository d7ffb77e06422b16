use vstd::prelude::*;

verus! {

/// Who spoke a turn.
#[derive(Debug, Clone, Copy, PartialEq, Eq, Structural)]
pub enum Role {
    User,
    Assistant,
}

/// One turn of the dialogue.
#[derive(Debug, Clone)]
pub struct Turn {
    pub role: Role,
    pub text: String,
}

/// Where the dialogue stands.
#[derive(Debug, Clone, Copy, PartialEq, Eq, Structural)]
pub enum Phase {
    Idle,
    AwaitingInput,
    Retrieving,
    Completing,
    Terminated,
}

/// What the outside world reports back to the dialogue.
#[derive(Debug, Clone)]
pub enum Event {
    /// The session has started.
    Started,
    /// The user typed a line.
    Input(String),
    /// The context for the pending question was built.
    ContextReady(String),
    /// Building the context failed, with a diagnostic.
    RetrievalFailed(String),
    /// The completion provider answered.
    CompletionReady(String),
    /// The completion provider failed, with a diagnostic.
    CompletionFailed(String),
    /// The user interrupted the session.
    Cancelled,
}

/// What the dialogue asks the outside world to do next.
#[derive(Debug, Clone)]
pub enum Action {
    /// Read the next line from the user.
    ReadInput,
    /// Build the context for this question.
    Retrieve(String),
    /// Ask for a completion of `input`, grounded in `context` and the history so far.
    Complete { context: String, input: String },
    /// Show the assistant's answer.
    Show(String),
    /// Report a failure of the current turn.
    Report(String),
    /// End the session.
    Exit,
    /// The event does not apply in the current phase; nothing to do.
    Nothing,
}

/// The dialogue's state: its phase, the turns so far, and the question being answered.
pub struct Conversation {
    phase: Phase,
    history: Vec<Turn>,
    pending: String,
    exit_token: String,
    strict_grounding: bool,
}

/// The dialogue's state seen as plain values.
pub struct ConversationView {
    pub phase: Phase,
    pub history: Seq<(Role, Seq<char>)>,
    pub pending: Seq<char>,
    pub exit_token: Seq<char>,
    pub strict_grounding: bool,
}

/// Each turn as its role and the characters of its text.
pub open spec fn turns_view(ts: Seq<Turn>) -> Seq<(Role, Seq<char>)> {
    ts.map_values(|t: Turn| (t.role, t.text@))
}

impl View for Conversation {
    type V = ConversationView;

    closed spec fn view(&self) -> ConversationView {
        ConversationView {
            phase: self.phase,
            history: turns_view(self.history@),
            pending: self.pending@,
            exit_token: self.exit_token@,
            strict_grounding: self.strict_grounding,
        }
    }
}

/// The state is unchanged but for, possibly, its phase.
pub open spec fn same_but_phase(o: ConversationView, f: ConversationView) -> bool {
    &&& f.history == o.history
    &&& f.pending == o.pending
    &&& f.exit_token == o.exit_token
    &&& f.strict_grounding == o.strict_grounding
}

/// The step the dialogue takes from state `o` on event `e`, to state `f` with action `a`.
pub open spec fn transition(
    o: ConversationView,
    e: Event,
    f: ConversationView,
    a: Action,
) -> bool {
    if o.phase == Phase::Terminated {
        same_but_phase(o, f) && f.phase == Phase::Terminated && a is Nothing
    } else {
        match e {
            Event::Cancelled => same_but_phase(o, f) && f.phase == Phase::Terminated && a is Exit,
            Event::Started => if o.phase == Phase::Idle {
                same_but_phase(o, f) && f.phase == Phase::AwaitingInput && a is ReadInput
            } else {
                same_but_phase(o, f) && f.phase == o.phase && a is Nothing
            },
            Event::Input(t) => if o.phase != Phase::AwaitingInput {
                same_but_phase(o, f) && f.phase == o.phase && a is Nothing
            } else if t@ == o.exit_token {
                same_but_phase(o, f) && f.phase == Phase::Terminated && a is Exit
            } else {
                &&& f.history == o.history
                &&& f.exit_token == o.exit_token
                &&& f.strict_grounding == o.strict_grounding
                &&& f.pending == t@
                &&& f.phase == Phase::Retrieving
                &&& a matches Action::Retrieve(q) && q@ == t@
            },
            Event::ContextReady(c) => if o.phase != Phase::Retrieving {
                same_but_phase(o, f) && f.phase == o.phase && a is Nothing
            } else {
                &&& same_but_phase(o, f)
                &&& f.phase == Phase::Completing
                &&& a matches Action::Complete { context, input } && context@ == c@ && input@
                    == o.pending
            },
            Event::RetrievalFailed(m) => if o.phase != Phase::Retrieving {
                same_but_phase(o, f) && f.phase == o.phase && a is Nothing
            } else if o.strict_grounding {
                &&& same_but_phase(o, f)
                &&& f.phase == Phase::AwaitingInput
                &&& a matches Action::Report(r) && r@ == m@
            } else {
                &&& same_but_phase(o, f)
                &&& f.phase == Phase::Completing
                &&& a matches Action::Complete { context, input } && context@.len() == 0 && input@
                    == o.pending
            },
            Event::CompletionReady(reply) => if o.phase != Phase::Completing {
                same_but_phase(o, f) && f.phase == o.phase && a is Nothing
            } else {
                &&& f.history == o.history.push((Role::User, o.pending)).push(
                    (Role::Assistant, reply@),
                )
                &&& f.pending == o.pending
                &&& f.exit_token == o.exit_token
                &&& f.strict_grounding == o.strict_grounding
                &&& f.phase == Phase::AwaitingInput
                &&& a matches Action::Show(s) && s@ == reply@
            },
            Event::CompletionFailed(m) => if o.phase != Phase::Completing {
                same_but_phase(o, f) && f.phase == o.phase && a is Nothing
            } else {
                &&& same_but_phase(o, f)
                &&& f.phase == Phase::AwaitingInput
                &&& a matches Action::Report(r) && r@ == m@
            },
        }
    }
}

impl Conversation {
    /// A new dialogue in phase `Idle` with no turns. `exit_token` is the input that ends it;
    /// with `strict_grounding`, a failure to build the context fails the turn instead of
    /// going on without context.
    pub fn new(exit_token: String, strict_grounding: bool) -> (r: Self)
        ensures
            r@.phase == Phase::Idle,
            r@.history.len() == 0,
            r@.pending.len() == 0,
            r@.exit_token == exit_token@,
            r@.strict_grounding == strict_grounding,
    {
        Conversation {
            phase: Phase::Idle,
            history: Vec::new(),
            pending: String::new(),
            exit_token,
            strict_grounding,
        }
    }

    /// The current phase.
    pub fn phase(&self) -> (r: Phase)
        ensures
            r == self@.phase,
    {
        self.phase
    }

    /// The turns so far, oldest first.
    pub fn history(&self) -> (r: &Vec<Turn>)
        ensures
            turns_view(r@) == self@.history,
    {
        &self.history
    }

    /// Takes one step on `event`, and says what to do next.
    pub fn step(&mut self, event: Event) -> (a: Action)
        ensures
            transition(old(self)@, event, final(self)@, a),
    {
        if self.phase == Phase::Terminated {
            return Action::Nothing;
        }
        match event {
            Event::Cancelled => {
                self.phase = Phase::Terminated;
                Action::Exit
            },
            Event::Started => {
                if self.phase == Phase::Idle {
                    self.phase = Phase::AwaitingInput;
                    Action::ReadInput
                } else {
                    Action::Nothing
                }
            },
            Event::Input(t) => {
                if self.phase != Phase::AwaitingInput {
                    Action::Nothing
                } else if t == self.exit_token {
                    self.phase = Phase::Terminated;
                    Action::Exit
                } else {
                    self.pending = t.clone();
                    self.phase = Phase::Retrieving;
                    Action::Retrieve(t)
                }
            },
            Event::ContextReady(c) => {
                if self.phase != Phase::Retrieving {
                    Action::Nothing
                } else {
                    self.phase = Phase::Completing;
                    Action::Complete { context: c, input: self.pending.clone() }
                }
            },
            Event::RetrievalFailed(m) => {
                if self.phase != Phase::Retrieving {
                    Action::Nothing
                } else if self.strict_grounding {
                    self.phase = Phase::AwaitingInput;
                    Action::Report(m)
                } else {
                    self.phase = Phase::Completing;
                    Action::Complete { context: String::new(), input: self.pending.clone() }
                }
            },
            Event::CompletionReady(reply) => {
                if self.phase != Phase::Completing {
                    Action::Nothing
                } else {
                    let ghost before = self.history@;
                    self.history.push(Turn { role: Role::User, text: self.pending.clone() });
                    self.history.push(Turn { role: Role::Assistant, text: reply.clone() });
                    proof {
                        assert(turns_view(self.history@) =~= turns_view(before).push(
                            (Role::User, self.pending@),
                        ).push((Role::Assistant, reply@)));
                    }
                    self.phase = Phase::AwaitingInput;
                    Action::Show(reply)
                }
            },
            Event::CompletionFailed(m) => {
                if self.phase != Phase::Completing {
                    Action::Nothing
                } else {
                    self.phase = Phase::AwaitingInput;
                    Action::Report(m)
                }
            },
        }
    }
}

/// Each step keeps every earlier turn: the history only grows, and only by a completed
/// exchange.
pub proof fn lemma_history_grows(o: ConversationView, e: Event, f: ConversationView, a: Action)
    requires
        transition(o, e, f, a),
    ensures
        f.history.len() >= o.history.len(),
        f.history.subrange(0, o.history.len() as int) == o.history,
        f.history.len() != o.history.len() ==> o.phase == Phase::Completing && e is CompletionReady
            && f.history.len() == o.history.len() + 2,
{
    assert(f.history.subrange(0, o.history.len() as int) =~= o.history);
}

/// The delay before retry number `attempt + 1` of a call that failed transiently, doubling
/// from `base_ms` with each attempt and capped at the largest `u64`; `None` once
/// `max_attempts` attempts have been made, when the failure becomes fatal.
pub fn retry_delay(attempt: u32, max_attempts: u32, base_ms: u64) -> (r: Option<u64>)
    ensures
        attempt + 1 >= max_attempts ==> r is None,
        attempt + 1 < max_attempts ==> r == Some(
            if base_ms * pow2(attempt as nat) <= u64::MAX {
                (base_ms * pow2(attempt as nat)) as u64
            } else {
                u64::MAX
            },
        ),
{
    if attempt as u64 + 1 >= max_attempts as u64 {
        return None;
    }
    let mut delay: u64 = base_ms;
    let mut i: u32 = 0;
    proof {
        assert(pow2(0) == 1);
        assert(base_ms * pow2(0) == base_ms);
    }
    while i < attempt
        invariant
            i <= attempt,
            delay == if base_ms * pow2(i as nat) <= u64::MAX {
                (base_ms * pow2(i as nat)) as u64
            } else {
                u64::MAX
            },
        decreases attempt - i,
    {
        proof {
            assert(pow2((i + 1) as nat) == 2 * pow2(i as nat));
            assert(base_ms * pow2((i + 1) as nat) == 2 * (base_ms * pow2(i as nat))) by (nonlinear_arith)
                requires
                    pow2((i + 1) as nat) == 2 * pow2(i as nat),
            ;
            assert(base_ms * pow2(i as nat) >= 0) by (nonlinear_arith);
        }
        if delay > u64::MAX / 2 {
            delay = u64::MAX;
        } else {
            delay = delay * 2;
        }
        i = i + 1;
    }
    Some(delay)
}

/// Two to the power `e`.
pub open spec fn pow2(e: nat) -> nat
    decreases e,
{
    if e == 0 {
        1
    } else {
        2 * pow2((e - 1) as nat)
    }
}

} // verus!
