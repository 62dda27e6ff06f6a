//! Decoding of a server-sent event stream: framing of the lines, what each
//! parsed patch does to the stream, and the fragments that come out.

use crate::api::{Choice, ChoiceView, StreamPatch, StreamPatchView};
use crate::reassembly::{
    collapsed, lemma_collapsed_ends, lemma_merged_keeps_text, merge_newline_split_across_patches,
    merged, TRIGGER,
};
use crate::text::ends_with;
use crate::text::strip_prefix;
use vstd::prelude::*;

verus! {

/// Why a stream was aborted.
#[derive(Debug, PartialEq, Eq)]
pub enum StreamError {
    /// Reading from the transport failed; holds the transport's account.
    TransportError(String),
    /// A success patch did not carry exactly one choice; holds how many.
    ProtocolError { choices: usize },
    /// The service reported an error; holds its message.
    UpstreamError(String),
    /// A payload could not be parsed; holds the payload as received.
    MalformedDataError(String),
}

pub enum StreamErrorView {
    TransportError(Seq<char>),
    ProtocolError { choices: nat },
    UpstreamError(Seq<char>),
    MalformedDataError(Seq<char>),
}

impl View for StreamError {
    type V = StreamErrorView;

    open spec fn view(&self) -> StreamErrorView {
        match self {
            StreamError::TransportError(detail) => StreamErrorView::TransportError(detail@),
            StreamError::ProtocolError { choices } => StreamErrorView::ProtocolError {
                choices: *choices as nat,
            },
            StreamError::UpstreamError(message) => StreamErrorView::UpstreamError(message@),
            StreamError::MalformedDataError(payload) => StreamErrorView::MalformedDataError(
                payload@,
            ),
        }
    }
}

/// What a report of an error says: what went wrong, and for all but a
/// protocol error the text that the error holds.
pub open spec fn described(error: StreamErrorView) -> Seq<char> {
    match error {
        StreamErrorView::TransportError(detail) => "transport error: "@ + detail,
        StreamErrorView::ProtocolError { .. } => "wrong length of choices"@,
        StreamErrorView::UpstreamError(message) => "structured error: "@ + message,
        StreamErrorView::MalformedDataError(payload) => "malformed data: "@ + payload,
    }
}

impl StreamError {
    /// A report of the error for the user.
    pub fn message(&self) -> (report: String)
        ensures
            report@ == described(self@),
    {
        match self {
            StreamError::TransportError(detail) => "transport error: ".to_owned().concat(
                detail.as_str(),
            ),
            StreamError::ProtocolError { .. } => "wrong length of choices".to_owned(),
            StreamError::UpstreamError(message) => "structured error: ".to_owned().concat(
                message.as_str(),
            ),
            StreamError::MalformedDataError(payload) => "malformed data: ".to_owned().concat(
                payload.as_str(),
            ),
        }
    }
}

/// What a line of the stream is.
#[derive(Debug, PartialEq, Eq)]
pub enum Frame {
    /// A line without the data marker: a comment or a keepalive.
    Ignored,
    /// The sentinel that ends the stream.
    Done,
    /// A data line; holds what follows the marker.
    Payload(String),
}

pub enum FrameView {
    Ignored,
    Done,
    Payload(Seq<char>),
}

impl View for Frame {
    type V = FrameView;

    open spec fn view(&self) -> FrameView {
        match self {
            Frame::Ignored => FrameView::Ignored,
            Frame::Done => FrameView::Done,
            Frame::Payload(payload) => FrameView::Payload(payload@),
        }
    }
}

/// The marker in front of every line that carries event data.
pub open spec fn data_marker() -> Seq<char> {
    "data: "@
}

/// The payload that ends the stream.
pub open spec fn done_sentinel() -> Seq<char> {
    "[DONE]"@
}

/// A line is ignored unless it starts with the data marker; what follows the
/// marker is either the sentinel or a payload.
pub open spec fn framed(line: Seq<char>) -> FrameView {
    if !data_marker().is_prefix_of(line) {
        FrameView::Ignored
    } else if line.skip(data_marker().len() as int) == done_sentinel() {
        FrameView::Done
    } else {
        FrameView::Payload(line.skip(data_marker().len() as int))
    }
}

/// Frames one line of the stream.
pub fn frame_line(line: &str) -> (frame: Frame)
    ensures
        frame@ == framed(line@),
{
    match strip_prefix(line, "data: ") {
        None => Frame::Ignored,
        Some(rest) => {
            assert(data_marker().is_prefix_of(line@) && line@.skip(data_marker().len() as int)
                =~= rest@);
            let payload = rest.to_owned();
            let sentinel = "[DONE]".to_owned();
            if payload == sentinel {
                Frame::Done
            } else {
                Frame::Payload(payload)
            }
        },
    }
}

/// What arrives from the transport: a line, together with what its payload
/// parsed to, or a failure to read. `patch` is `None` where the payload is
/// no patch; it is looked at only for a data line other than the sentinel.
#[derive(Debug)]
pub enum Incoming {
    Line { text: String, patch: Option<StreamPatch> },
    ReadFailure { detail: String },
}

pub enum IncomingView {
    Line { text: Seq<char>, patch: Option<StreamPatchView> },
    ReadFailure { detail: Seq<char> },
}

impl View for Incoming {
    type V = IncomingView;

    open spec fn view(&self) -> IncomingView {
        match self {
            Incoming::Line { text, patch } => IncomingView::Line {
                text: text@,
                patch: match patch {
                    Some(patch) => Some(patch@),
                    None => None,
                },
            },
            Incoming::ReadFailure { detail } => IncomingView::ReadFailure { detail: detail@ },
        }
    }
}

/// What the decoder makes of one arrival.
#[derive(Debug, PartialEq, Eq)]
pub enum Step {
    /// No fragment for this arrival; the stream goes on.
    Nothing,
    /// The next fragment of the answer.
    Item(String),
    /// The stream is aborted with this error.
    Failed(StreamError),
    /// The stream has ended.
    Finished,
}

pub enum StepView {
    Nothing,
    Item(Seq<char>),
    Failed(StreamErrorView),
    Finished,
}

impl View for Step {
    type V = StepView;

    open spec fn view(&self) -> StepView {
        match self {
            Step::Nothing => StepView::Nothing,
            Step::Item(text) => StepView::Item(text@),
            Step::Failed(error) => StepView::Failed(error@),
            Step::Finished => StepView::Finished,
        }
    }
}

/// The state of one stream's decoder.
pub struct DecoderView {
    /// The text held back until its continuation arrives.
    pub buffer: Seq<char>,
    /// Whether the stream has ended, by the sentinel, an error or a
    /// cancellation.
    pub finished: bool,
}

impl DecoderView {
    /// The decoder of a stream of which nothing has arrived.
    pub open spec fn fresh() -> DecoderView {
        DecoderView { buffer: Seq::empty(), finished: false }
    }

    /// The decoder of a stream that has ended: nothing is held back.
    pub open spec fn closed() -> DecoderView {
        DecoderView { buffer: Seq::empty(), finished: true }
    }
}

/// What a payload does to a running stream that held back `buffer`.
///
/// A payload that is no patch aborts the stream as malformed data, an error
/// patch as an upstream error, a success patch without exactly one choice as
/// a protocol error. A choice without text changes nothing. The text of any
/// other choice goes through reassembly, and what that emits is the next
/// fragment, unless it is empty.
pub open spec fn applied(buffer: Seq<char>, payload: Seq<char>, patch: Option<StreamPatchView>) -> (
    DecoderView,
    StepView,
) {
    match patch {
        None => (
            DecoderView::closed(),
            StepView::Failed(StreamErrorView::MalformedDataError(payload)),
        ),
        Some(StreamPatchView::Error { error }) => (
            DecoderView::closed(),
            StepView::Failed(StreamErrorView::UpstreamError(error.message)),
        ),
        Some(StreamPatchView::Success { choices }) => if choices.len() != 1 {
            (
                DecoderView::closed(),
                StepView::Failed(StreamErrorView::ProtocolError { choices: choices.len() }),
            )
        } else {
            match choices[0].text() {
                None => (DecoderView { buffer, finished: false }, StepView::Nothing),
                Some(content) => (
                    DecoderView { buffer: merged(buffer, content).0, finished: false },
                    if merged(buffer, content).1.len() == 0 {
                        StepView::Nothing
                    } else {
                        StepView::Item(merged(buffer, content).1)
                    },
                ),
            }
        },
    }
}

/// The decoder after one arrival, and what it makes of it.
///
/// A stream that has ended stays ended and yields nothing more. On a
/// running stream a failure to read aborts it as a transport error, a line
/// without the data marker is passed over, the sentinel ends the stream,
/// and a payload acts as `applied` says.
pub open spec fn received(state: DecoderView, incoming: IncomingView) -> (DecoderView, StepView) {
    if state.finished {
        (state, StepView::Finished)
    } else {
        match incoming {
            IncomingView::ReadFailure { detail } => (
                DecoderView::closed(),
                StepView::Failed(StreamErrorView::TransportError(detail)),
            ),
            IncomingView::Line { text, patch } => match framed(text) {
                FrameView::Ignored => (state, StepView::Nothing),
                FrameView::Done => (DecoderView::closed(), StepView::Finished),
                FrameView::Payload(payload) => applied(state.buffer, payload, patch),
            },
        }
    }
}

/// The decoder of one completion stream. It turns what arrives from the
/// transport into the fragments of the answer, one arrival at a time.
pub struct Decoder {
    buffer: String,
    finished: bool,
}

impl View for Decoder {
    type V = DecoderView;

    closed spec fn view(&self) -> DecoderView {
        DecoderView { buffer: self.buffer@, finished: self.finished }
    }
}

impl Decoder {
    /// The decoder of a stream of which nothing has arrived.
    pub fn new() -> (decoder: Decoder)
        ensures
            decoder@ == DecoderView::fresh(),
    {
        Decoder { buffer: String::new(), finished: false }
    }

    /// Whether the stream has ended.
    pub fn is_finished(&self) -> (finished: bool)
        ensures
            finished == self@.finished,
    {
        self.finished
    }

    /// Ends the stream from outside and discards what was held back.
    pub fn cancel(&mut self)
        ensures
            final(self)@ == DecoderView::closed(),
    {
        self.buffer = String::new();
        self.finished = true;
    }

    /// Takes the next arrival and says what the stream yields for it.
    pub fn receive(&mut self, incoming: &Incoming) -> (step: Step)
        ensures
            (final(self)@, step@) == received(old(self)@, incoming@),
    {
        if self.finished {
            return Step::Finished;
        }
        match incoming {
            Incoming::ReadFailure { detail } => {
                self.cancel();
                Step::Failed(StreamError::TransportError(detail.clone()))
            },
            Incoming::Line { text, patch } => match frame_line(text.as_str()) {
                Frame::Ignored => Step::Nothing,
                Frame::Done => {
                    self.cancel();
                    Step::Finished
                },
                Frame::Payload(payload) => self.apply(payload, patch),
            },
        }
    }

    /// Applies a payload and what it parsed to.
    fn apply(&mut self, payload: String, patch: &Option<StreamPatch>) -> (step: Step)
        requires
            !old(self)@.finished,
        ensures
            (final(self)@, step@) == applied(
                old(self)@.buffer,
                payload@,
                match patch {
                    Some(patch) => Some(patch@),
                    None => None,
                },
            ),
    {
        match patch {
            None => {
                self.cancel();
                Step::Failed(StreamError::MalformedDataError(payload))
            },
            Some(StreamPatch::Error { error }) => {
                self.cancel();
                Step::Failed(StreamError::UpstreamError(error.message.clone()))
            },
            Some(StreamPatch::Success { choices }) => {
                if choices.len() != 1 {
                    self.cancel();
                    Step::Failed(StreamError::ProtocolError { choices: choices.len() })
                } else {
                    match choices[0].text() {
                        None => Step::Nothing,
                        Some(content) => {
                            let emitted = merge_newline_split_across_patches(
                                &mut self.buffer,
                                content,
                            );
                            if emitted.as_str().is_empty() {
                                Step::Nothing
                            } else {
                                Step::Item(emitted)
                            }
                        },
                    }
                }
            },
        }
    }
}

/// A stream as far as it has been decoded: the fragments in the order in
/// which they were emitted, the error that aborted it, if one did, and the
/// decoder's state.
pub struct StreamView {
    pub items: Seq<Seq<char>>,
    pub error: Option<StreamErrorView>,
    pub state: DecoderView,
}

/// The stream that a decoder in `state` makes of `arrivals`, taken in order.
pub open spec fn decoded_from(state: DecoderView, arrivals: Seq<IncomingView>) -> StreamView
    decreases arrivals.len(),
{
    if arrivals.len() == 0 {
        StreamView { items: Seq::empty(), error: None, state }
    } else {
        let before = decoded_from(state, arrivals.drop_last());
        let (next, step) = received(before.state, arrivals.last());
        StreamView {
            items: match step {
                StepView::Item(text) => before.items.push(text),
                _ => before.items,
            },
            error: match step {
                StepView::Failed(error) => Some(error),
                _ => before.error,
            },
            state: next,
        }
    }
}

/// The stream that a fresh decoder makes of `arrivals`.
pub open spec fn decoded(arrivals: Seq<IncomingView>) -> StreamView {
    decoded_from(DecoderView::fresh(), arrivals)
}

/// A recorded stream after decoding.
#[derive(Debug, PartialEq, Eq)]
pub struct Decoded {
    /// The fragments, in the order in which they were emitted.
    pub items: Vec<String>,
    /// The error that aborted the stream, if one did.
    pub error: Option<StreamError>,
}

/// The arrivals of a recording, as the contracts see them.
pub open spec fn arrivals_view(arrivals: Seq<Incoming>) -> Seq<IncomingView> {
    arrivals.map_values(|arrival: Incoming| arrival@)
}

/// The texts of a list of fragments.
pub open spec fn texts(items: Seq<String>) -> Seq<Seq<char>> {
    items.map_values(|item: String| item@)
}

/// Decodes a recorded stream from its first arrival to its last.
pub fn decode_all(arrivals: &Vec<Incoming>) -> (result: Decoded)
    ensures
        texts(result.items@) == decoded(arrivals_view(arrivals@)).items,
        match result.error {
            Some(error) => decoded(arrivals_view(arrivals@)).error == Some(error@),
            None => decoded(arrivals_view(arrivals@)).error is None,
        },
{
    let ghost all = arrivals_view(arrivals@);
    let mut decoder = Decoder::new();
    let mut items: Vec<String> = Vec::new();
    let mut error: Option<StreamError> = None;
    let mut i: usize = 0;
    assert(texts(items@) =~= Seq::<Seq<char>>::empty());
    while i < arrivals.len()
        invariant
            i <= arrivals.len(),
            all == arrivals_view(arrivals@),
            texts(items@) == decoded(all.take(i as int)).items,
            decoder@ == decoded(all.take(i as int)).state,
            match error {
                Some(error) => decoded(all.take(i as int)).error == Some(error@),
                None => decoded(all.take(i as int)).error is None,
            },
        decreases arrivals.len() - i,
    {
        let ghost before = items@;
        proof {
            assert(all.take(i + 1).drop_last() =~= all.take(i as int));
            assert(all.take(i + 1).last() == arrivals@[i as int]@);
        }
        match decoder.receive(&arrivals[i]) {
            Step::Item(text) => {
                items.push(text);
                assert(texts(items@) =~= texts(before).push(text@));
            },
            Step::Failed(cause) => {
                error = Some(cause);
            },
            _ => {},
        }
        i += 1;
    }
    proof {
        assert(all.take(i as int) =~= all);
    }
    Decoded { items, error }
}

/// A stream that has ended yields nothing more, whatever arrives.
pub proof fn lemma_finished_yields_nothing(state: DecoderView, arrivals: Seq<IncomingView>)
    requires
        state.finished,
    ensures
        decoded_from(state, arrivals) == (StreamView {
            items: Seq::empty(),
            error: None,
            state,
        }),
    decreases arrivals.len(),
{
    if arrivals.len() > 0 {
        lemma_finished_yields_nothing(state, arrivals.drop_last());
    }
}

/// Decoding two runs of arrivals one after the other is decoding the first
/// and then, from the state it left, the second.
pub proof fn lemma_decoded_concat(
    state: DecoderView,
    first: Seq<IncomingView>,
    second: Seq<IncomingView>,
)
    ensures
        decoded_from(state, first + second) == ({
            let head = decoded_from(state, first);
            let tail = decoded_from(head.state, second);
            StreamView {
                items: head.items + tail.items,
                error: if tail.error is Some {
                    tail.error
                } else {
                    head.error
                },
                state: tail.state,
            }
        }),
    decreases second.len(),
{
    let head = decoded_from(state, first);
    if second.len() == 0 {
        assert(first + second =~= first);
        assert(head.items + Seq::<Seq<char>>::empty() =~= head.items);
    } else {
        assert((first + second).drop_last() =~= first + second.drop_last());
        assert((first + second).last() == second.last());
        lemma_decoded_concat(state, first, second.drop_last());
        let tail = decoded_from(head.state, second.drop_last());
        let (next, step) = received(tail.state, second.last());
        match step {
            StepView::Item(text) => {
                assert((head.items + tail.items).push(text) =~= head.items + tail.items.push(
                    text,
                ));
            },
            _ => {},
        }
    }
}

/// A data line whose patch is a success without exactly one choice.
pub open spec fn miscounted(arrival: IncomingView) -> bool {
    &&& arrival matches IncomingView::Line { text, patch }
    &&& framed(text) is Payload
    &&& patch matches Some(StreamPatchView::Success { choices })
    &&& choices.len() != 1
}

/// The number of choices that a success patch carries.
pub open spec fn choice_count(arrival: IncomingView) -> nat {
    match arrival {
        IncomingView::Line { patch: Some(StreamPatchView::Success { choices }), .. } => choices.len(),
        _ => 0,
    }
}

/// A success patch with no choice or with several aborts a running stream
/// with a protocol error: the stream keeps the fragments it had emitted,
/// carries that error, and emits nothing for whatever arrives later.
pub proof fn lemma_miscounted_choices_abort(
    earlier: Seq<IncomingView>,
    arrival: IncomingView,
    later: Seq<IncomingView>,
)
    requires
        !decoded(earlier).state.finished,
        miscounted(arrival),
    ensures
        decoded(earlier.push(arrival) + later) == (StreamView {
            items: decoded(earlier).items,
            error: Some(StreamErrorView::ProtocolError { choices: choice_count(arrival) }),
            state: DecoderView::closed(),
        }),
{
    let upto = earlier.push(arrival);
    assert(upto.drop_last() =~= earlier);
    assert(upto.last() == arrival);
    lemma_decoded_concat(DecoderView::fresh(), upto, later);
    lemma_finished_yields_nothing(DecoderView::closed(), later);
    assert(decoded(earlier).items + Seq::<Seq<char>>::empty() =~= decoded(earlier).items);
}

/// An arrival of a stream that goes well: a line that is passed over, or a
/// data line whose patch is a success with exactly one choice.
pub open spec fn well_formed(arrival: IncomingView) -> bool {
    match arrival {
        IncomingView::Line { text, patch } => match framed(text) {
            FrameView::Ignored => true,
            FrameView::Done => false,
            FrameView::Payload(_) => patch matches Some(StreamPatchView::Success { choices })
                && choices.len() == 1,
        },
        IncomingView::ReadFailure { .. } => false,
    }
}

/// The text that a well-formed arrival adds to the answer; empty where it
/// adds none.
pub open spec fn delta_text(arrival: IncomingView) -> Seq<char> {
    match arrival {
        IncomingView::Line { text, patch: Some(StreamPatchView::Success { choices }) } => {
            if framed(text) is Payload && choices.len() == 1 {
                match choices[0].text() {
                    Some(content) => content,
                    None => Seq::empty(),
                }
            } else {
                Seq::empty()
            }
        },
        _ => Seq::empty(),
    }
}

/// The texts of all deltas, joined in the order of arrival.
pub open spec fn delta_texts(arrivals: Seq<IncomingView>) -> Seq<char>
    decreases arrivals.len(),
{
    if arrivals.len() == 0 {
        Seq::empty()
    } else {
        delta_texts(arrivals.drop_last()) + delta_text(arrivals.last())
    }
}

/// How many arrivals carry a delta with text that is not empty.
pub open spec fn nonempty_deltas(arrivals: Seq<IncomingView>) -> nat
    decreases arrivals.len(),
{
    if arrivals.len() == 0 {
        0
    } else if delta_text(arrivals.last()).len() > 0 {
        nonempty_deltas(arrivals.drop_last()) + 1
    } else {
        nonempty_deltas(arrivals.drop_last())
    }
}

/// One if text is held back, zero if not.
pub open spec fn held(buffer: Seq<char>) -> nat {
    if buffer.len() > 0 {
        1
    } else {
        0
    }
}

/// A stream in which every arrival is well formed runs on without error.
/// Up to collapsing escapes, the fragments emitted so far, followed by what
/// is held back, are the text of all deltas. No fragment is empty, and there
/// are at most as many fragments as deltas with text; a fragment still held
/// back counts as one.
pub proof fn lemma_well_formed_stream(arrivals: Seq<IncomingView>)
    requires
        forall|i: int| 0 <= i < arrivals.len() ==> well_formed(#[trigger] arrivals[i]),
    ensures
        decoded(arrivals).error is None,
        !decoded(arrivals).state.finished,
        collapsed(decoded(arrivals).items.flatten() + decoded(arrivals).state.buffer) == collapsed(
            delta_texts(arrivals),
        ),
        forall|i: int|
            0 <= i < decoded(arrivals).items.len() ==> (#[trigger] decoded(arrivals).items[i]).len()
                > 0,
        decoded(arrivals).items.len() + held(decoded(arrivals).state.buffer) <= nonempty_deltas(
            arrivals,
        ),
    decreases arrivals.len(),
{
    broadcast use Seq::lemma_flatten_push;

    if arrivals.len() == 0 {
        assert(Seq::<Seq<char>>::empty().flatten() + Seq::<char>::empty() =~= Seq::<char>::empty());
    } else {
        let earlier = arrivals.drop_last();
        let last = arrivals.last();
        lemma_well_formed_stream(earlier);
        let before = decoded(earlier);
        let emitted = before.items.flatten();
        assert(well_formed(last));
        assert(delta_texts(earlier) + Seq::<char>::empty() =~= delta_texts(earlier));
        if let IncomingView::Line { text, patch } = last {
            if let FrameView::Payload(payload) = framed(text) {
                if let Some(StreamPatchView::Success { choices }) = patch {
                    if let Some(content) = choices[0].text() {
                        let (kept, out) = merged(before.state.buffer, content);
                        lemma_merged_keeps_text(
                            emitted,
                            before.state.buffer,
                            delta_texts(earlier),
                            content,
                        );
                        lemma_collapsed_ends(before.state.buffer + content);
                        if out.len() == 0 {
                            assert(emitted + out =~= emitted);
                        }
                    }
                }
            }
        }
    }
}

/// A stream in which every arrival is well formed and no delta ends with
/// the trigger is emitted as it is: nothing is held back, and the fragments
/// joined are the deltas joined.
pub proof fn lemma_plain_stream_is_verbatim(arrivals: Seq<IncomingView>)
    requires
        forall|i: int| 0 <= i < arrivals.len() ==> well_formed(#[trigger] arrivals[i]),
        forall|i: int|
            0 <= i < arrivals.len() ==> !ends_with(delta_text(#[trigger] arrivals[i]), TRIGGER),
    ensures
        decoded(arrivals).state == DecoderView::fresh(),
        decoded(arrivals).items.flatten() == delta_texts(arrivals),
    decreases arrivals.len(),
{
    broadcast use Seq::lemma_flatten_push;

    if arrivals.len() == 0 {
        assert(Seq::<Seq<char>>::empty().flatten() =~= Seq::<char>::empty());
    } else {
        let earlier = arrivals.drop_last();
        lemma_plain_stream_is_verbatim(earlier);
        assert(well_formed(arrivals.last()));
        assert(!ends_with(delta_text(arrivals.last()), TRIGGER));
        assert(delta_texts(earlier) + Seq::<char>::empty() =~= delta_texts(earlier));
    }
}

/// The sentinel after a stream in which every arrival is well formed ends
/// it without error: the fragments are those emitted before it, and what
/// was still held back is dropped.
pub proof fn lemma_sentinel_ends_stream(arrivals: Seq<IncomingView>, sentinel: IncomingView)
    requires
        forall|i: int| 0 <= i < arrivals.len() ==> well_formed(#[trigger] arrivals[i]),
        sentinel matches IncomingView::Line { text, .. } && framed(text) is Done,
    ensures
        decoded(arrivals.push(sentinel)) == (StreamView {
            items: decoded(arrivals).items,
            error: None,
            state: DecoderView::closed(),
        }),
{
    lemma_well_formed_stream(arrivals);
    assert(arrivals.push(sentinel).drop_last() =~= arrivals);
    assert(arrivals.push(sentinel).last() == sentinel);
}

} // verus!
