use chat_stream::api::{Choice, Error, Message, StreamPatch};
use chat_stream::decoder::{
    decode_all, frame_line, Decoded, Decoder, Frame, Incoming, Step, StreamError,
};

fn delta(text: &str) -> StreamPatch {
    StreamPatch::Success {
        choices: vec![Choice { delta: Some(Message { content: Some(text.to_string()) }) }],
    }
}

fn success(count: usize) -> StreamPatch {
    let mut choices = Vec::new();
    for _ in 0..count {
        choices.push(Choice { delta: Some(Message { content: Some("x".to_string()) }) });
    }
    StreamPatch::Success { choices }
}

fn data(payload: &str, patch: Option<StreamPatch>) -> Incoming {
    Incoming::Line { text: format!("data: {payload}"), patch }
}

fn line(text: &str) -> Incoming {
    Incoming::Line { text: text.to_string(), patch: None }
}

fn done() -> Incoming {
    line("data: [DONE]")
}

#[test]
fn line_without_marker_is_ignored() {
    assert_eq!(frame_line(""), Frame::Ignored);
    assert_eq!(frame_line(": keepalive"), Frame::Ignored);
    assert_eq!(frame_line("event: message"), Frame::Ignored);
    assert_eq!(frame_line("data:[DONE]"), Frame::Ignored);
    assert_eq!(frame_line("data:"), Frame::Ignored);
    assert_eq!(frame_line(" data: {}"), Frame::Ignored);
    assert_eq!(frame_line("[DONE]"), Frame::Ignored);
}

#[test]
fn sentinel_is_recognised() {
    assert_eq!(frame_line("data: [DONE]"), Frame::Done);
}

#[test]
fn near_sentinels_are_payloads() {
    assert_eq!(frame_line("data: [DONE] "), Frame::Payload("[DONE] ".to_string()));
    assert_eq!(frame_line("data:  [DONE]"), Frame::Payload(" [DONE]".to_string()));
    assert_eq!(frame_line("data: [done]"), Frame::Payload("[done]".to_string()));
}

#[test]
fn marker_is_stripped_from_payload() {
    assert_eq!(frame_line("data: {\"a\":1}"), Frame::Payload("{\"a\":1}".to_string()));
    assert_eq!(frame_line("data: "), Frame::Payload(String::new()));
    assert_eq!(frame_line("data: data: x"), Frame::Payload("data: x".to_string()));
}

#[test]
fn fresh_decoder_is_running() {
    assert!(!Decoder::new().is_finished());
}

#[test]
fn delta_with_text_is_emitted() {
    let mut decoder = Decoder::new();
    assert_eq!(decoder.receive(&data("{}", Some(delta("Hello")))), Step::Item("Hello".to_string()));
    assert!(!decoder.is_finished());
}

#[test]
fn delta_without_content_is_skipped() {
    let mut decoder = Decoder::new();
    let role_only =
        StreamPatch::Success { choices: vec![Choice { delta: Some(Message { content: None }) }] };
    assert_eq!(decoder.receive(&data("{}", Some(role_only))), Step::Nothing);
    let no_delta = StreamPatch::Success { choices: vec![Choice { delta: None }] };
    assert_eq!(decoder.receive(&data("{}", Some(no_delta))), Step::Nothing);
    assert!(!decoder.is_finished());
}

#[test]
fn empty_delta_is_skipped() {
    let mut decoder = Decoder::new();
    assert_eq!(decoder.receive(&data("{}", Some(delta("")))), Step::Nothing);
    assert!(!decoder.is_finished());
}

#[test]
fn ignored_line_yields_nothing() {
    let mut decoder = Decoder::new();
    assert_eq!(decoder.receive(&line(": ping")), Step::Nothing);
    assert_eq!(
        decoder.receive(&Incoming::Line { text: String::new(), patch: Some(delta("x")) }),
        Step::Nothing
    );
    assert!(!decoder.is_finished());
}

#[test]
fn deferred_fragment_is_emitted_with_its_continuation() {
    let mut decoder = Decoder::new();
    assert_eq!(decoder.receive(&data("{}", Some(delta("abc'")))), Step::Nothing);
    assert_eq!(decoder.receive(&data("{}", Some(delta("def")))), Step::Item("abc'def".to_string()));
}

#[test]
fn deferred_fragment_survives_bookkeeping_lines() {
    let mut decoder = Decoder::new();
    assert_eq!(decoder.receive(&data("{}", Some(delta("a\\n'")))), Step::Nothing);
    assert_eq!(decoder.receive(&line(": ping")), Step::Nothing);
    let no_delta = StreamPatch::Success { choices: vec![Choice { delta: None }] };
    assert_eq!(decoder.receive(&data("{}", Some(no_delta))), Step::Nothing);
    assert_eq!(decoder.receive(&data("{}", Some(delta("b")))), Step::Item("a\n'b".to_string()));
}

#[test]
fn sentinel_ends_the_stream() {
    let mut decoder = Decoder::new();
    assert_eq!(decoder.receive(&done()), Step::Finished);
    assert!(decoder.is_finished());
    assert_eq!(decoder.receive(&data("{}", Some(delta("late")))), Step::Finished);
}

#[test]
fn no_choice_is_a_protocol_error() {
    let mut decoder = Decoder::new();
    assert_eq!(
        decoder.receive(&data("{\"choices\":[]}", Some(success(0)))),
        Step::Failed(StreamError::ProtocolError { choices: 0 })
    );
    assert!(decoder.is_finished());
}

#[test]
fn several_choices_are_a_protocol_error() {
    let mut decoder = Decoder::new();
    assert_eq!(
        decoder.receive(&data("{}", Some(success(2)))),
        Step::Failed(StreamError::ProtocolError { choices: 2 })
    );
    let mut decoder = Decoder::new();
    assert_eq!(
        decoder.receive(&data("{}", Some(success(5)))),
        Step::Failed(StreamError::ProtocolError { choices: 5 })
    );
}

#[test]
fn nothing_follows_a_protocol_error() {
    let mut decoder = Decoder::new();
    assert_eq!(decoder.receive(&data("{}", Some(delta("a")))), Step::Item("a".to_string()));
    assert_eq!(
        decoder.receive(&data("{}", Some(success(0)))),
        Step::Failed(StreamError::ProtocolError { choices: 0 })
    );
    assert_eq!(decoder.receive(&data("{}", Some(delta("b")))), Step::Finished);
    assert_eq!(decoder.receive(&data("{}", Some(success(3)))), Step::Finished);
    assert_eq!(decoder.receive(&done()), Step::Finished);

    let decoded = decode_all(&vec![
        data("{}", Some(delta("a"))),
        data("{}", Some(success(2))),
        data("{}", Some(delta("b"))),
        data("{}", None),
        done(),
    ]);
    assert_eq!(
        decoded,
        Decoded {
            items: vec!["a".to_string()],
            error: Some(StreamError::ProtocolError { choices: 2 }),
        }
    );
}

#[test]
fn error_patch_is_an_upstream_error() {
    let mut decoder = Decoder::new();
    let patch = StreamPatch::Error { error: Error { message: "rate limited".to_string() } };
    assert_eq!(
        decoder.receive(&data("{\"error\":{\"message\":\"rate limited\"}}", Some(patch))),
        Step::Failed(StreamError::UpstreamError("rate limited".to_string()))
    );
    assert!(decoder.is_finished());
    assert_eq!(decoder.receive(&data("{}", Some(delta("late")))), Step::Finished);
}

#[test]
fn unparsed_payload_is_malformed_data() {
    let mut decoder = Decoder::new();
    assert_eq!(
        decoder.receive(&data("{not json", None)),
        Step::Failed(StreamError::MalformedDataError("{not json".to_string()))
    );
    assert!(decoder.is_finished());
}

#[test]
fn read_failure_is_a_transport_error() {
    let mut decoder = Decoder::new();
    assert_eq!(
        decoder.receive(&Incoming::ReadFailure { detail: "connection reset".to_string() }),
        Step::Failed(StreamError::TransportError("connection reset".to_string()))
    );
    assert!(decoder.is_finished());
}

#[test]
fn cancelled_decoder_yields_nothing() {
    let mut decoder = Decoder::new();
    assert_eq!(decoder.receive(&data("{}", Some(delta("held'")))), Step::Nothing);
    decoder.cancel();
    assert!(decoder.is_finished());
    assert_eq!(decoder.receive(&data("{}", Some(delta("more")))), Step::Finished);
    assert_eq!(
        decoder.receive(&Incoming::ReadFailure { detail: "late".to_string() }),
        Step::Finished
    );
}

#[test]
fn well_formed_stream_is_decoded_in_order() {
    let decoded = decode_all(&vec![
        line(": hello"),
        data(
            "{}",
            Some(StreamPatch::Success {
                choices: vec![Choice { delta: Some(Message { content: None }) }],
            }),
        ),
        data("{}", Some(delta("He"))),
        data("{}", Some(delta("llo"))),
        line(""),
        data("{}", Some(delta(", it'"))),
        data("{}", Some(delta("s\\nme"))),
        data("{}", Some(delta(""))),
        done(),
    ]);
    assert_eq!(decoded.error, None);
    assert_eq!(decoded.items, vec!["He", "llo", ", it's\nme"]);
    assert_eq!(decoded.items.concat(), "Hello, it's\nme");
}

#[test]
fn stream_may_end_without_sentinel() {
    let decoded = decode_all(&vec![data("{}", Some(delta("only")))]);
    assert_eq!(decoded, Decoded { items: vec!["only".to_string()], error: None });
    assert_eq!(decode_all(&Vec::new()), Decoded { items: Vec::new(), error: None });
}

#[test]
fn text_held_back_at_the_end_is_dropped() {
    let decoded = decode_all(&vec![data("{}", Some(delta("a"))), data("{}", Some(delta("b'"))), done()]);
    assert_eq!(decoded, Decoded { items: vec!["a".to_string()], error: None });
}

#[test]
fn recorded_stream_stops_at_the_first_error() {
    let decoded = decode_all(&vec![
        data("{}", Some(delta("a"))),
        Incoming::ReadFailure { detail: "timeout".to_string() },
        data("{}", Some(delta("b"))),
        data("oops", None),
    ]);
    assert_eq!(
        decoded,
        Decoded {
            items: vec!["a".to_string()],
            error: Some(StreamError::TransportError("timeout".to_string())),
        }
    );
}

#[test]
fn errors_are_reported_in_words() {
    assert_eq!(
        StreamError::TransportError("reset".to_string()).message(),
        "transport error: reset"
    );
    assert_eq!(StreamError::ProtocolError { choices: 2 }.message(), "wrong length of choices");
    assert_eq!(
        StreamError::UpstreamError("rate limited".to_string()).message(),
        "structured error: rate limited"
    );
    assert_eq!(
        StreamError::MalformedDataError("{".to_string()).message(),
        "malformed data: {"
    );
}
