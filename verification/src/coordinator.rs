//! The save-protocol coordinator.
//!
//! A backup cycle drives the server through hold, query, ready and resume:
//! the coordinator is the state machine of that cycle, given here as a pure
//! transition function from a protocol state and one event to the next
//! state and the actions the caller must perform.  Operator lines are
//! classified first: a `!` prefix introduces a control command, a line that
//! would reach the save mechanism directly is rejected, anything else is
//! forwarded verbatim.
use crate::chars::lit_chars;
use crate::chars::occurs;
use crate::chars::occurs_at;
use crate::chars::occurs_at_exec;
use crate::chars::occurs_exec;
use crate::chars::sub_chars;
use vstd::prelude::*;

verus! {

/// Protocol phases of one backup cycle.
#[derive(Clone, Copy, Debug, PartialEq, Eq, Structural)]
pub enum ProtocolState {
    Idle,
    HoldRequested,
    AwaitingReady,
    ListReceived,
}

/// One input the supervisor reacts to.
pub enum Event {
    /// A line typed by the operator.
    OperatorLine(Vec<char>),
    /// A line of server output.
    ServerLine(Vec<char>),
    /// The periodic backup timer fired.
    TimerTick,
}

/// One effect the caller must perform, in order.
pub enum Action {
    /// Write these characters to the server's input.
    SendServer(Vec<char>),
    /// Write these characters to the operator-visible output.
    NotifyOperator(Vec<char>),
    /// Wait the short debounce delay before polling again.
    Delay,
    /// Run the snapshot engine on this file-list line.
    RunSnapshot(Vec<char>),
}

/// Spec-level event.
pub enum EventV {
    OperatorLine(Seq<char>),
    ServerLine(Seq<char>),
    TimerTick,
}

/// Spec-level action.
pub enum ActionV {
    SendServer(Seq<char>),
    NotifyOperator(Seq<char>),
    Delay,
    RunSnapshot(Seq<char>),
}

pub open spec fn event_view(e: Event) -> EventV {
    match e {
        Event::OperatorLine(l) => EventV::OperatorLine(l@),
        Event::ServerLine(l) => EventV::ServerLine(l@),
        Event::TimerTick => EventV::TimerTick,
    }
}

pub open spec fn action_view(a: Action) -> ActionV {
    match a {
        Action::SendServer(l) => ActionV::SendServer(l@),
        Action::NotifyOperator(l) => ActionV::NotifyOperator(l@),
        Action::Delay => ActionV::Delay,
        Action::RunSnapshot(l) => ActionV::RunSnapshot(l@),
    }
}

pub open spec fn actions_view(s: Seq<Action>) -> Seq<ActionV> {
    s.map_values(|a: Action| action_view(a))
}

/// The write-pause directive, followed at once by a status query.
pub open spec fn hold_query_directive() -> Seq<char> {
    "save hold\nsave query\n"@
}

pub open spec fn query_directive() -> Seq<char> {
    "save query\n"@
}

pub open spec fn resume_directive() -> Seq<char> {
    "save resume\n"@
}

pub open spec fn backup_started_msg() -> Seq<char> {
    "Backup started\n"@
}

pub open spec fn backup_finished_msg() -> Seq<char> {
    "Backup finished\n"@
}

pub open spec fn unknown_command_msg() -> Seq<char> {
    "Unknown command\n"@
}

pub open spec fn save_warning_msg() -> Seq<char> {
    "Don't use \"save xxxx\" command\n"@
}

/// What an operator line asks for.
#[derive(Clone, Copy, Debug, PartialEq, Eq, Structural)]
pub enum LineClass {
    /// A `!` command that mentions the backup word: start a backup.
    StartBackup,
    /// A `!` command that does not: report it as unknown.
    UnknownCommand,
    /// A plain line that would reach the save mechanism: reject it.
    RejectSave,
    /// Any other plain line: forward it to the server.
    Forward,
}

/// Classification of one operator line.
pub open spec fn classify_spec(l: Seq<char>) -> LineClass {
    if l.len() >= 1 && l[0] == '!' {
        if occurs(l.subrange(1, l.len() as int), "backup"@) {
            LineClass::StartBackup
        } else {
            LineClass::UnknownCommand
        }
    } else if occurs(l, "save"@) {
        LineClass::RejectSave
    } else {
        LineClass::Forward
    }
}

/// Classifies one operator line.
pub fn classify(l: &Vec<char>) -> (c: LineClass)
    ensures
        c == classify_spec(l@),
{
    if l.len() >= 1 && l[0] == '!' {
        let rest = sub_chars(l, 1, l.len());
        let word = lit_chars("backup");
        if occurs_exec(&rest, &word) {
            LineClass::StartBackup
        } else {
            LineClass::UnknownCommand
        }
    } else {
        let word = lit_chars("save");
        if occurs_exec(l, &word) {
            LineClass::RejectSave
        } else {
            LineClass::Forward
        }
    }
}

/// The fixed text that follows the bracketed prefix of the ready marker,
/// with its two single-character wildcards.
pub open spec fn ready_tail_at(s: Seq<char>, b: int) -> bool {
    &&& b + 47 <= s.len()
    &&& occurs_at(s, b, "] Data saved"@)
    &&& s[b + 12] != '\n'
    &&& occurs_at(s, b + 13, " Files are now ready to be copied"@)
    &&& s[b + 46] != '\n'
}

/// The ready marker matches at `[`-position `a` and `]`-position `b`: at
/// least one character stands between them and none is a line break.
pub open spec fn ready_match_at(s: Seq<char>, a: int, b: int) -> bool {
    &&& 0 <= a && a + 2 <= b
    &&& s[a] == '['
    &&& (forall|q: int| a < q < b ==> s[q] != '\n')
    &&& ready_tail_at(s, b)
}

/// The line announces that data is saved and files are ready to be copied.
pub open spec fn ready_marker(s: Seq<char>) -> bool {
    exists|a: int, b: int| ready_match_at(s, a, b)
}

/// Searches leftward from `j` for a `[` with no line break before `b`.
fn scan_open(s: &Vec<char>, j: usize, b: usize) -> (r: Option<usize>)
    requires
        2 <= b <= s@.len(),
        j <= b - 1,
        forall|q: int| j < q < b ==> s@[q] != '\n',
        forall|q: int| j < q <= b - 2 ==> s@[q] != '[',
    ensures
        match r {
            Some(a) => a + 2 <= b && s@[a as int] == '[' && (forall|q: int|
                a < q < b ==> s@[q] != '\n'),
            None => forall|a: int| !ready_match_at(s@, a, b as int),
        },
    decreases j,
{
    if s[j] == '\n' {
        assert forall|a: int| !ready_match_at(s@, a, b as int) by {
            if 0 <= a && a + 2 <= b {
                if a < j {
                    assert(s@[j as int] == '\n');
                } else if a == j {
                    assert(s@[a] != '[');
                } else {
                    assert(s@[a] != '[');
                }
            }
        }
        return None;
    }
    if j <= b - 2 && s[j] == '[' {
        return Some(j);
    }
    if j == 0 {
        assert forall|a: int| !ready_match_at(s@, a, b as int) by {
            if 0 <= a && a + 2 <= b {
                assert(s@[a] != '[');
            }
        }
        return None;
    }
    scan_open(s, j - 1, b)
}

/// Whether `s` holds the ready marker.
pub fn ready_marker_exec(s: &Vec<char>) -> (r: bool)
    ensures
        r == ready_marker(s@),
{
    let n = s.len();
    let t1 = lit_chars("] Data saved");
    let t2 = lit_chars(" Files are now ready to be copied");
    proof {
        reveal_strlit("] Data saved");
        reveal_strlit(" Files are now ready to be copied");
    }
    if n < 49 {
        proof {
            assert forall|a: int, b: int| !ready_match_at(s@, a, b) by {
                if 0 <= a && a + 2 <= b {
                    assert(b + 47 > s@.len());
                }
            }
        }
        return false;
    }
    let mut b: usize = 2;
    while b <= n - 47
        invariant
            n == s@.len(),
            47 <= n,
            2 <= b <= n,
            t1@ == "] Data saved"@,
            t2@ == " Files are now ready to be copied"@,
            forall|bp: int, a: int| bp < b ==> !ready_match_at(s@, a, bp),
        decreases n - b,
    {
        let tail_here = occurs_at_exec(s, b, &t1) && s[b + 12] != '\n' && occurs_at_exec(
            s,
            b + 13,
            &t2,
        ) && s[b + 46] != '\n';
        if tail_here {
            assert(ready_tail_at(s@, b as int));
            match scan_open(s, b - 1, b) {
                Some(a) => {
                    proof {
                        assert(ready_match_at(s@, a as int, b as int));
                    }
                    return true;
                },
                None => {},
            }
        } else {
            proof {
                assert forall|a: int| !ready_match_at(s@, a, b as int) by {
                    assert(!ready_tail_at(s@, b as int));
                }
            }
        }
        b += 1;
    }
    proof {
        assert forall|a: int, bp: int| !ready_match_at(s@, a, bp) by {
            if 0 <= a && a + 2 <= bp {
                if bp >= b {
                    assert(bp + 47 > s@.len());
                }
            }
        }
    }
    false
}

/// The save-protocol coordinator: the state of the cycle in progress.
pub struct Coordinator {
    pub state: ProtocolState,
}

/// The actions that start a backup cycle: tell the operator, then pause
/// writes and query status.
pub open spec fn start_backup_actions() -> Seq<ActionV> {
    seq![
        ActionV::NotifyOperator(backup_started_msg()),
        ActionV::SendServer(hold_query_directive()),
    ]
}

/// The transition relation of the coordinator.  From idle, a timer tick or
/// a backup command starts the cycle; the first server line after the hold
/// is a discarded acknowledgement; further lines are forwarded and polled
/// until the ready marker; the next line is the file list, after which
/// writes resume.  A trigger that arrives while a cycle is in progress is
/// coalesced: the state is kept and nothing is sent.
pub open spec fn step_spec(st: ProtocolState, ev: EventV) -> (ProtocolState, Seq<ActionV>) {
    match (st, ev) {
        (ProtocolState::Idle, EventV::TimerTick) => (
            ProtocolState::HoldRequested,
            start_backup_actions(),
        ),
        (ProtocolState::Idle, EventV::OperatorLine(l)) => match classify_spec(l) {
            LineClass::StartBackup => (ProtocolState::HoldRequested, start_backup_actions()),
            LineClass::UnknownCommand => (
                ProtocolState::Idle,
                seq![ActionV::NotifyOperator(unknown_command_msg())],
            ),
            LineClass::RejectSave => (
                ProtocolState::Idle,
                seq![ActionV::NotifyOperator(save_warning_msg())],
            ),
            LineClass::Forward => (ProtocolState::Idle, seq![ActionV::SendServer(l + "\n"@)]),
        },
        (ProtocolState::Idle, EventV::ServerLine(l)) => (
            ProtocolState::Idle,
            seq![ActionV::NotifyOperator(l + "\n"@)],
        ),
        (ProtocolState::HoldRequested, EventV::ServerLine(_)) => (
            ProtocolState::AwaitingReady,
            Seq::empty(),
        ),
        (ProtocolState::AwaitingReady, EventV::ServerLine(l)) => if ready_marker(l) {
            (ProtocolState::ListReceived, Seq::empty())
        } else {
            (
                ProtocolState::AwaitingReady,
                seq![
                    ActionV::NotifyOperator(l + "\n"@),
                    ActionV::SendServer(query_directive()),
                    ActionV::Delay,
                ],
            )
        },
        (ProtocolState::ListReceived, EventV::ServerLine(l)) => (
            ProtocolState::Idle,
            seq![
                ActionV::RunSnapshot(l),
                ActionV::SendServer(resume_directive()),
                ActionV::NotifyOperator(backup_finished_msg()),
            ],
        ),
        (st2, _) => (st2, Seq::empty()),
    }
}

impl Coordinator {
    pub fn new() -> (c: Coordinator)
        ensures
            c.state == ProtocolState::Idle,
    {
        Coordinator { state: ProtocolState::Idle }
    }

    /// Performs one transition, returning the actions to carry out in order.
    pub fn step(&mut self, ev: Event) -> (acts: Vec<Action>)
        ensures
            final(self).state == step_spec(old(self).state, event_view(ev)).0,
            actions_view(acts@) == step_spec(old(self).state, event_view(ev)).1,
    {
        let ghost st0 = self.state;
        let ghost evv = event_view(ev);
        let mut acts: Vec<Action> = Vec::new();
        match ev {
            Event::TimerTick => {
                if matches!(self.state, ProtocolState::Idle) {
                    acts.push(Action::NotifyOperator(lit_chars("Backup started\n")));
                    acts.push(Action::SendServer(lit_chars("save hold\nsave query\n")));
                    self.state = ProtocolState::HoldRequested;
                }
            },
            Event::OperatorLine(l) => {
                if matches!(self.state, ProtocolState::Idle) {
                    match classify(&l) {
                        LineClass::StartBackup => {
                            acts.push(Action::NotifyOperator(lit_chars("Backup started\n")));
                            acts.push(Action::SendServer(lit_chars("save hold\nsave query\n")));
                            self.state = ProtocolState::HoldRequested;
                        },
                        LineClass::UnknownCommand => {
                            acts.push(Action::NotifyOperator(lit_chars("Unknown command\n")));
                        },
                        LineClass::RejectSave => {
                            acts.push(
                                Action::NotifyOperator(
                                    lit_chars("Don't use \"save xxxx\" command\n"),
                                ),
                            );
                        },
                        LineClass::Forward => {
                            let mut line = l;
                            line.push('\n');
                            proof {
                                reveal_strlit("\n");
                                assert(line@ =~= evv->OperatorLine_0 + "\n"@);
                            }
                            acts.push(Action::SendServer(line));
                        },
                    }
                }
            },
            Event::ServerLine(l) => {
                match self.state {
                    ProtocolState::Idle => {
                        let mut line = l;
                        line.push('\n');
                        proof {
                            reveal_strlit("\n");
                            assert(line@ =~= evv->ServerLine_0 + "\n"@);
                        }
                        acts.push(Action::NotifyOperator(line));
                    },
                    ProtocolState::HoldRequested => {
                        self.state = ProtocolState::AwaitingReady;
                    },
                    ProtocolState::AwaitingReady => {
                        if ready_marker_exec(&l) {
                            self.state = ProtocolState::ListReceived;
                        } else {
                            let mut line = l;
                            line.push('\n');
                            proof {
                                reveal_strlit("\n");
                                assert(line@ =~= evv->ServerLine_0 + "\n"@);
                            }
                            acts.push(Action::NotifyOperator(line));
                            acts.push(Action::SendServer(lit_chars("save query\n")));
                            acts.push(Action::Delay);
                        }
                    },
                    ProtocolState::ListReceived => {
                        acts.push(Action::RunSnapshot(l));
                        acts.push(Action::SendServer(lit_chars("save resume\n")));
                        acts.push(Action::NotifyOperator(lit_chars("Backup finished\n")));
                        self.state = ProtocolState::Idle;
                    },
                }
            },
        }
        proof {
            assert(actions_view(acts@) =~= step_spec(st0, evv).1);
        }
        acts
    }
}

/// While a backup cycle is in progress (the state is not idle), no event
/// makes the coordinator send the write-pause directive, so two
/// hold/query cycles never interleave.
pub proof fn lemma_no_interleaved_hold(st: ProtocolState, ev: EventV)
    requires
        st != ProtocolState::Idle,
    ensures
        forall|i: int|
            0 <= i < step_spec(st, ev).1.len() ==> step_spec(st, ev).1[i]
                != ActionV::SendServer(hold_query_directive()),
{
    reveal_strlit("save hold\nsave query\n");
    reveal_strlit("save query\n");
    reveal_strlit("save resume\n");
    let acts = step_spec(st, ev).1;
    assert forall|i: int| 0 <= i < acts.len() implies acts[i] != ActionV::SendServer(
        hold_query_directive(),
    ) by {
        assert(query_directive().len() == 11);
        assert(resume_directive().len() == 12);
        assert(hold_query_directive().len() == 21);
    }
}

} // verus!
