//! The interactive session: a state machine that takes the lines of the
//! user, the fragments of the running completion stream and the interrupts,
//! one event at a time, and says what is to be done for each.

use crate::api::{transcript, RequestMessageRole, RequestMessageView};
use crate::decoder::{StreamError, StreamErrorView};
use vstd::prelude::*;

verus! {

/// What the session is doing.
#[derive(Clone, Copy, Debug, PartialEq, Eq, Structural)]
pub enum Phase {
    /// Waiting for the user's next line.
    Idle,
    /// A completion stream is running.
    Streaming,
    /// The session has ended.
    Finished,
}

/// What can happen to a session.
#[derive(Debug)]
pub enum Event {
    /// The user submitted a line.
    Line(String),
    /// The user's input has come to its end.
    InputClosed,
    /// The running stream delivered a fragment.
    Fragment(String),
    /// The running stream ended.
    StreamEnded,
    /// The running stream was aborted.
    StreamFailed(StreamError),
    /// An interrupt arrived, from the platform or from the input line.
    Interrupt,
}

pub enum EventView {
    Line(Seq<char>),
    InputClosed,
    Fragment(Seq<char>),
    StreamEnded,
    StreamFailed(StreamErrorView),
    Interrupt,
}

impl View for Event {
    type V = EventView;

    open spec fn view(&self) -> EventView {
        match self {
            Event::Line(text) => EventView::Line(text@),
            Event::InputClosed => EventView::InputClosed,
            Event::Fragment(text) => EventView::Fragment(text@),
            Event::StreamEnded => EventView::StreamEnded,
            Event::StreamFailed(error) => EventView::StreamFailed(error@),
            Event::Interrupt => EventView::Interrupt,
        }
    }
}

/// What the session asks its surroundings to do.
#[derive(Debug, PartialEq, Eq)]
pub enum Effect {
    /// Start a completion stream for this conversation.
    StartStream(Vec<(RequestMessageRole, String)>),
    /// Abandon the running stream; nothing of it is to be delivered any more.
    CancelStream,
    /// Write this text to the terminal at once.
    Write(String),
    /// Tell the input line that the next line may be read.
    SignalReady,
    /// End the session as a success.
    Exit,
    /// End the session as a failure, reporting this error.
    Fail(StreamError),
}

pub enum EffectView {
    StartStream(Seq<RequestMessageView>),
    CancelStream,
    Write(Seq<char>),
    SignalReady,
    Exit,
    Fail(StreamErrorView),
}

impl View for Effect {
    type V = EffectView;

    open spec fn view(&self) -> EffectView {
        match self {
            Effect::StartStream(messages) => EffectView::StartStream(transcript(messages@)),
            Effect::CancelStream => EffectView::CancelStream,
            Effect::Write(text) => EffectView::Write(text@),
            Effect::SignalReady => EffectView::SignalReady,
            Effect::Exit => EffectView::Exit,
            Effect::Fail(error) => EffectView::Fail(error@),
        }
    }
}

/// The effects of a list, as the contracts see them.
pub open spec fn effects_view(effects: Seq<Effect>) -> Seq<EffectView> {
    effects.map_values(|effect: Effect| effect@)
}

/// The line break that sets a new turn apart, and that ends a line of
/// output which an interrupt cut short.
pub open spec fn line_break() -> Seq<char> {
    "\n"@
}

/// What is written when a stream has ended: the end of the answer's last
/// line and a blank line.
pub open spec fn turn_end() -> Seq<char> {
    "\n\n"@
}

/// What is written on a first interrupt: a blank line, the notice, and a
/// blank line.
pub open spec fn interrupt_notice() -> Seq<char> {
    "\nInterrupt again to exit.\n\n"@
}

/// The role that a message at position `index` of a conversation has: the
/// user and the assistant take turns, the user first.
pub open spec fn role_at(index: int) -> RequestMessageRole {
    if index % 2 == 0 {
        RequestMessageRole::User
    } else {
        RequestMessageRole::Assistant
    }
}

/// The state of a session.
pub struct SessionView {
    /// The conversation so far.
    pub conversation: Seq<RequestMessageView>,
    /// The answer of the running stream as far as it has arrived.
    pub response: Seq<char>,
    pub phase: Phase,
    /// The interrupts since the last line was accepted.
    pub interrupt_count: nat,
}

impl SessionView {
    /// The session before anything has happened.
    pub open spec fn fresh() -> SessionView {
        SessionView {
            conversation: Seq::empty(),
            response: Seq::empty(),
            phase: Phase::Idle,
            interrupt_count: 0,
        }
    }

    /// What holds of every session: user and assistant take turns; while a
    /// stream runs the last message is the user's and still unanswered, and
    /// no interrupt has been counted; otherwise every message of the user
    /// has its answer and no partial answer is kept; and the count of
    /// interrupts never exceeds one.
    pub open spec fn well_formed(self) -> bool {
        &&& forall|i: int|
            0 <= i < self.conversation.len() ==> (#[trigger] self.conversation[i]).role == role_at(
                i,
            )
        &&& self.phase == Phase::Streaming ==> self.conversation.len() % 2 == 1
            && self.interrupt_count == 0
        &&& self.phase != Phase::Streaming ==> self.conversation.len() % 2 == 0
            && self.response.len() == 0
        &&& self.interrupt_count <= 1
    }

    /// The session with its running turn undone and nothing of it left.
    pub open spec fn rolled_back(self, phase: Phase) -> SessionView {
        SessionView {
            conversation: self.conversation.drop_last(),
            response: Seq::empty(),
            phase,
            interrupt_count: self.interrupt_count,
        }
    }
}

/// The session after an event, and the effects it asks for, in order.
///
/// An event that has no place in the current phase is passed over: a line
/// while a stream runs, anything from a stream while none runs, and
/// everything once the session has ended.
pub open spec fn next(state: SessionView, event: EventView) -> (SessionView, Seq<EffectView>) {
    match (state.phase, event) {
        (Phase::Finished, _) => (state, Seq::empty()),
        (Phase::Idle, EventView::Line(text)) => {
            let conversation = state.conversation.push(
                RequestMessageView { role: RequestMessageRole::User, content: text },
            );
            (
                SessionView {
                    conversation,
                    response: Seq::empty(),
                    phase: Phase::Streaming,
                    interrupt_count: 0,
                },
                seq![EffectView::StartStream(conversation), EffectView::Write(line_break())],
            )
        },
        (Phase::Streaming, EventView::Line(_)) => (state, Seq::empty()),
        (Phase::Idle, EventView::InputClosed) => (
            SessionView { phase: Phase::Finished, ..state },
            seq![EffectView::Exit],
        ),
        (Phase::Streaming, EventView::InputClosed) => (
            state.rolled_back(Phase::Finished),
            seq![EffectView::CancelStream, EffectView::Exit],
        ),
        (Phase::Streaming, EventView::Fragment(text)) => (
            SessionView { response: state.response + text, ..state },
            seq![EffectView::Write(text)],
        ),
        (Phase::Streaming, EventView::StreamEnded) => (
            SessionView {
                conversation: state.conversation.push(
                    RequestMessageView {
                        role: RequestMessageRole::Assistant,
                        content: state.response,
                    },
                ),
                response: Seq::empty(),
                phase: Phase::Idle,
                interrupt_count: state.interrupt_count,
            },
            seq![EffectView::Write(turn_end()), EffectView::SignalReady],
        ),
        (Phase::Streaming, EventView::StreamFailed(error)) => (
            state.rolled_back(Phase::Finished),
            seq![EffectView::Fail(error)],
        ),
        (Phase::Idle, EventView::Fragment(_)) => (state, Seq::empty()),
        (Phase::Idle, EventView::StreamEnded) => (state, Seq::empty()),
        (Phase::Idle, EventView::StreamFailed(_)) => (state, Seq::empty()),
        (Phase::Idle, EventView::Interrupt) => if state.interrupt_count > 0 {
            (SessionView { phase: Phase::Finished, ..state }, seq![EffectView::Exit])
        } else {
            (
                SessionView { interrupt_count: 1, ..state },
                seq![EffectView::Write(interrupt_notice()), EffectView::SignalReady],
            )
        },
        (Phase::Streaming, EventView::Interrupt) => if state.interrupt_count > 0 {
            (
                state.rolled_back(Phase::Finished),
                seq![EffectView::CancelStream, EffectView::Exit],
            )
        } else {
            (
                SessionView { interrupt_count: 1, ..state.rolled_back(Phase::Idle) },
                if state.response.len() > 0 {
                    seq![
                        EffectView::CancelStream,
                        EffectView::Write(line_break()),
                        EffectView::Write(interrupt_notice()),
                        EffectView::SignalReady,
                    ]
                } else {
                    seq![
                        EffectView::CancelStream,
                        EffectView::Write(interrupt_notice()),
                        EffectView::SignalReady,
                    ]
                },
            )
        },
    }
}

/// The session before anything has happened is well formed.
pub proof fn lemma_fresh_well_formed()
    ensures
        SessionView::fresh().well_formed(),
{
}

/// No event leads a well-formed session to one that is not.
pub proof fn lemma_next_well_formed(state: SessionView, event: EventView)
    requires
        state.well_formed(),
    ensures
        next(state, event).0.well_formed(),
{
}

/// The session after a run of events, taken in order.
pub open spec fn replayed(state: SessionView, events: Seq<EventView>) -> SessionView
    decreases events.len(),
{
    if events.len() == 0 {
        state
    } else {
        next(replayed(state, events.drop_last()), events.last()).0
    }
}

/// The events of a stream that delivers these fragments.
pub open spec fn fragments(texts: Seq<Seq<char>>) -> Seq<EventView> {
    texts.map_values(|text: Seq<char>| EventView::Fragment(text))
}

/// After a line and the fragments that answer it, the conversation ends
/// with the line, the answer so far is the fragments joined in the order of
/// their arrival, and no interrupt is counted.
pub proof fn lemma_turn_in_progress(state: SessionView, line: Seq<char>, texts: Seq<Seq<char>>)
    requires
        state.well_formed(),
        state.phase == Phase::Idle,
    ensures
        replayed(state, seq![EventView::Line(line)] + fragments(texts)) == (SessionView {
            conversation: state.conversation.push(
                RequestMessageView { role: RequestMessageRole::User, content: line },
            ),
            response: texts.flatten(),
            phase: Phase::Streaming,
            interrupt_count: 0,
        }),
    decreases texts.len(),
{
    broadcast use Seq::lemma_flatten_push;

    let events = seq![EventView::Line(line)] + fragments(texts);
    if texts.len() == 0 {
        assert(events.drop_last() =~= Seq::<EventView>::empty());
        assert(replayed(state, events.drop_last()) == state);
        assert(events.last() == EventView::Line(line));
        assert(texts.flatten() =~= Seq::<char>::empty());
    } else {
        let earlier = texts.drop_last();
        assert(events.drop_last() =~= seq![EventView::Line(line)] + fragments(earlier));
        assert(events.last() == EventView::Fragment(texts.last()));
        assert(texts =~= earlier.push(texts.last()));
        assert(earlier.push(texts.last()).flatten() == earlier.flatten() + texts.last());
        lemma_turn_in_progress(state, line, earlier);
    }
}

/// A turn that runs to its end adds two messages to the conversation: the
/// user's line and the answer, which is the fragments joined in the order
/// of their arrival. The session is idle again.
pub proof fn lemma_turn_completed(state: SessionView, line: Seq<char>, texts: Seq<Seq<char>>)
    requires
        state.well_formed(),
        state.phase == Phase::Idle,
    ensures
        replayed(
            state,
            (seq![EventView::Line(line)] + fragments(texts)).push(EventView::StreamEnded),
        ) == (SessionView {
            conversation: state.conversation.push(
                RequestMessageView { role: RequestMessageRole::User, content: line },
            ).push(
                RequestMessageView {
                    role: RequestMessageRole::Assistant,
                    content: texts.flatten(),
                },
            ),
            response: Seq::empty(),
            phase: Phase::Idle,
            interrupt_count: 0,
        }),
{
    let running = seq![EventView::Line(line)] + fragments(texts);
    lemma_turn_in_progress(state, line, texts);
    assert(running.push(EventView::StreamEnded).drop_last() =~= running);
}

/// A turn that an interrupt cuts short leaves no trace: the conversation is
/// what it was before the line, nothing of the answer is kept, one
/// interrupt is counted, the session is idle, and the last thing it asks
/// for is that the next line be read.
pub proof fn lemma_turn_interrupted(state: SessionView, line: Seq<char>, texts: Seq<Seq<char>>)
    requires
        state.well_formed(),
        state.phase == Phase::Idle,
    ensures
        replayed(
            state,
            (seq![EventView::Line(line)] + fragments(texts)).push(EventView::Interrupt),
        ) == (SessionView {
            conversation: state.conversation,
            response: Seq::empty(),
            phase: Phase::Idle,
            interrupt_count: 1,
        }),
        next(
            replayed(state, seq![EventView::Line(line)] + fragments(texts)),
            EventView::Interrupt,
        ).1.first() == EffectView::CancelStream,
        next(
            replayed(state, seq![EventView::Line(line)] + fragments(texts)),
            EventView::Interrupt,
        ).1.last() == EffectView::SignalReady,
{
    let running = seq![EventView::Line(line)] + fragments(texts);
    lemma_turn_in_progress(state, line, texts);
    assert(running.push(EventView::Interrupt).drop_last() =~= running);
    let user = RequestMessageView { role: RequestMessageRole::User, content: line };
    assert(state.conversation.push(user).drop_last() =~= state.conversation);
}

/// Of two interrupts in a row, with no interrupt counted before them, the
/// first is answered with the notice and the second ends the session as a
/// success.
pub proof fn lemma_second_interrupt_exits(state: SessionView)
    requires
        state.well_formed(),
        state.phase != Phase::Finished,
        state.interrupt_count == 0,
    ensures
        next(state, EventView::Interrupt).0.phase == Phase::Idle,
        next(state, EventView::Interrupt).0.interrupt_count == 1,
        next(next(state, EventView::Interrupt).0, EventView::Interrupt) == (
            SessionView { phase: Phase::Finished, ..next(state, EventView::Interrupt).0 },
            seq![EffectView::Exit],
        ),
{
}

/// What a stream delivers while none is running changes nothing and asks
/// for nothing: after an interrupt, the end of a stream, or the end of the
/// session, no fragment is taken any more.
pub proof fn lemma_stale_stream_event_ignored(state: SessionView, event: EventView)
    requires
        state.phase != Phase::Streaming,
        event is Fragment || event is StreamEnded || event is StreamFailed,
    ensures
        next(state, event) == (state, Seq::<EffectView>::empty()),
{
}

/// An interrupt never leaves a stream running.
pub proof fn lemma_interrupt_stops_stream(state: SessionView)
    ensures
        next(state, EventView::Interrupt).0.phase != Phase::Streaming,
{
}

/// An error of the running stream ends the session as a failure that
/// reports this error, and the turn leaves no trace.
pub proof fn lemma_stream_failure_is_fatal(state: SessionView, error: StreamErrorView)
    requires
        state.phase == Phase::Streaming,
    ensures
        next(state, EventView::StreamFailed(error)) == (
            state.rolled_back(Phase::Finished),
            seq![EffectView::Fail(error)],
        ),
{
}

/// The session asks that the next line be read only as the last thing it
/// does for an event, and only when it is idle afterwards.
pub proof fn lemma_ready_only_when_idle(state: SessionView, event: EventView)
    requires
        next(state, event).1.contains(EffectView::SignalReady),
    ensures
        next(state, event).0.phase == Phase::Idle,
        next(state, event).1.last() == EffectView::SignalReady,
{
    let effects = next(state, event).1;
    let i = choose|i: int| 0 <= i < effects.len() && effects[i] == EffectView::SignalReady;
    assert(effects[i] == EffectView::SignalReady);
}

/// Whenever a stream stops running and the session goes on, the session
/// asks that the next line be read.
pub proof fn lemma_idle_after_stream_is_ready(state: SessionView, event: EventView)
    requires
        state.phase == Phase::Streaming,
        next(state, event).0.phase == Phase::Idle,
    ensures
        next(state, event).1.last() == EffectView::SignalReady,
{
}

/// A stream is started only for a line that is accepted, and then for the
/// conversation that ends with this line.
pub proof fn lemma_stream_started_for_line(state: SessionView, event: EventView)
    requires
        exists|messages: Seq<RequestMessageView>|
            next(state, event).1.contains(EffectView::StartStream(messages)),
    ensures
        state.phase == Phase::Idle,
        event is Line,
        next(state, event).0.phase == Phase::Streaming,
        next(state, event).1.first() == EffectView::StartStream(next(state, event).0.conversation),
{
    let effects = next(state, event).1;
    let messages = choose|messages: Seq<RequestMessageView>|
        effects.contains(EffectView::StartStream(messages));
    let i = choose|i: int| 0 <= i < effects.len() && effects[i] == EffectView::StartStream(messages);
    assert(effects[i] == EffectView::StartStream(messages));
}

/// An interactive chat session.
pub struct Session {
    conversation: Vec<(RequestMessageRole, String)>,
    response: String,
    phase: Phase,
    interrupt_count: usize,
}

impl View for Session {
    type V = SessionView;

    closed spec fn view(&self) -> SessionView {
        SessionView {
            conversation: transcript(self.conversation@),
            response: self.response@,
            phase: self.phase,
            interrupt_count: self.interrupt_count as nat,
        }
    }
}

/// A copy of a conversation.
fn copied(conversation: &Vec<(RequestMessageRole, String)>) -> (copy: Vec<
    (RequestMessageRole, String),
>)
    ensures
        copy@ == conversation@,
{
    let mut copy: Vec<(RequestMessageRole, String)> = Vec::new();
    let mut i: usize = 0;
    while i < conversation.len()
        invariant
            i <= conversation.len(),
            copy@ == conversation@.take(i as int),
        decreases conversation.len() - i,
    {
        let turn = &conversation[i];
        copy.push((turn.0, turn.1.clone()));
        assert(copy@ =~= conversation@.take(i + 1));
        i += 1;
    }
    assert(conversation@.take(i as int) =~= conversation@);
    copy
}

impl Session {
    #[verifier::type_invariant]
    spec fn sound(self) -> bool {
        self@.well_formed()
    }

    /// The session before anything has happened.
    pub fn new() -> (session: Session)
        ensures
            session@ == SessionView::fresh(),
    {
        let conversation: Vec<(RequestMessageRole, String)> = Vec::new();
        assert(transcript(conversation@) =~= Seq::<RequestMessageView>::empty());
        Session { conversation, response: String::new(), phase: Phase::Idle, interrupt_count: 0 }
    }

    /// The conversation so far.
    pub fn conversation(&self) -> (conversation: &Vec<(RequestMessageRole, String)>)
        ensures
            transcript(conversation@) == self@.conversation,
            self@.well_formed(),
    {
        proof {
            use_type_invariant(self);
        }
        &self.conversation
    }

    /// The answer of the running stream as far as it has arrived.
    pub fn response(&self) -> (response: &str)
        ensures
            response@ == self@.response,
    {
        self.response.as_str()
    }

    /// What the session is doing.
    pub fn phase(&self) -> (phase: Phase)
        ensures
            phase == self@.phase,
    {
        self.phase
    }

    /// The interrupts since the last line was accepted.
    pub fn interrupt_count(&self) -> (count: usize)
        ensures
            count == self@.interrupt_count,
    {
        self.interrupt_count
    }

    /// Takes the next event. Returns the session after it and the effects
    /// that it asks for, to be carried out in order.
    pub fn step(self, event: Event) -> (result: (Session, Vec<Effect>))
        ensures
            self@.well_formed(),
            result.0@.well_formed(),
            (result.0@, effects_view(result.1@)) == next(self@, event@),
    {
        proof {
            use_type_invariant(&self);
            lemma_next_well_formed(self@, event@);
        }
        let ghost start = self@;
        let Session { conversation, response, phase, interrupt_count } = self;
        let mut conversation = conversation;
        let mut response = response;
        let mut effects: Vec<Effect> = Vec::new();
        assert(effects_view(effects@) =~= Seq::<EffectView>::empty());
        match (phase, event) {
            (Phase::Idle, Event::Line(text)) => {
                let ghost turn = RequestMessageView {
                    role: RequestMessageRole::User,
                    content: text@,
                };
                conversation.push((RequestMessageRole::User, text));
                assert(transcript(conversation@) =~= start.conversation.push(turn));
                effects.push(Effect::StartStream(copied(&conversation)));
                effects.push(Effect::Write("\n".to_owned()));
                assert(effects_view(effects@) =~= seq![
                    EffectView::StartStream(start.conversation.push(turn)),
                    EffectView::Write(line_break()),
                ]);
                (
                    Session {
                        conversation,
                        response: String::new(),
                        phase: Phase::Streaming,
                        interrupt_count: 0,
                    },
                    effects,
                )
            },
            (Phase::Idle, Event::InputClosed) => {
                effects.push(Effect::Exit);
                assert(effects_view(effects@) =~= seq![EffectView::Exit]);
                (Session { conversation, response, phase: Phase::Finished, interrupt_count }, effects)
            },
            (Phase::Idle, Event::Interrupt) => {
                if interrupt_count > 0 {
                    effects.push(Effect::Exit);
                    assert(effects_view(effects@) =~= seq![EffectView::Exit]);
                    (
                        Session { conversation, response, phase: Phase::Finished, interrupt_count },
                        effects,
                    )
                } else {
                    effects.push(Effect::Write("\nInterrupt again to exit.\n\n".to_owned()));
                    effects.push(Effect::SignalReady);
                    assert(effects_view(effects@) =~= seq![
                        EffectView::Write(interrupt_notice()),
                        EffectView::SignalReady,
                    ]);
                    (Session { conversation, response, phase, interrupt_count: 1 }, effects)
                }
            },
            (Phase::Streaming, Event::InputClosed) => {
                conversation.pop();
                assert(transcript(conversation@) =~= start.conversation.drop_last());
                effects.push(Effect::CancelStream);
                effects.push(Effect::Exit);
                assert(effects_view(effects@) =~= seq![EffectView::CancelStream, EffectView::Exit]);
                (
                    Session {
                        conversation,
                        response: String::new(),
                        phase: Phase::Finished,
                        interrupt_count,
                    },
                    effects,
                )
            },
            (Phase::Streaming, Event::Fragment(text)) => {
                response.append(text.as_str());
                effects.push(Effect::Write(text));
                assert(effects_view(effects@) =~= seq![EffectView::Write(text@)]);
                (Session { conversation, response, phase, interrupt_count }, effects)
            },
            (Phase::Streaming, Event::StreamEnded) => {
                let ghost turn = RequestMessageView {
                    role: RequestMessageRole::Assistant,
                    content: response@,
                };
                conversation.push((RequestMessageRole::Assistant, response));
                assert(transcript(conversation@) =~= start.conversation.push(turn));
                effects.push(Effect::Write("\n\n".to_owned()));
                effects.push(Effect::SignalReady);
                assert(effects_view(effects@) =~= seq![
                    EffectView::Write(turn_end()),
                    EffectView::SignalReady,
                ]);
                (
                    Session {
                        conversation,
                        response: String::new(),
                        phase: Phase::Idle,
                        interrupt_count,
                    },
                    effects,
                )
            },
            (Phase::Streaming, Event::StreamFailed(error)) => {
                conversation.pop();
                assert(transcript(conversation@) =~= start.conversation.drop_last());
                assert(effects_view(effects@.push(Effect::Fail(error))) =~= seq![
                    EffectView::Fail(error@),
                ]);
                effects.push(Effect::Fail(error));
                (
                    Session {
                        conversation,
                        response: String::new(),
                        phase: Phase::Finished,
                        interrupt_count,
                    },
                    effects,
                )
            },
            (Phase::Streaming, Event::Interrupt) => {
                conversation.pop();
                assert(transcript(conversation@) =~= start.conversation.drop_last());
                effects.push(Effect::CancelStream);
                if !response.as_str().is_empty() {
                    effects.push(Effect::Write("\n".to_owned()));
                }
                effects.push(Effect::Write("\nInterrupt again to exit.\n\n".to_owned()));
                effects.push(Effect::SignalReady);
                assert(effects_view(effects@) =~= next(start, EventView::Interrupt).1);
                (
                    Session {
                        conversation,
                        response: String::new(),
                        phase: Phase::Idle,
                        interrupt_count: 1,
                    },
                    effects,
                )
            },
            (phase, _) => (Session { conversation, response, phase, interrupt_count }, effects),
        }
    }
}

} // verus!
