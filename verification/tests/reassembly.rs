use chat_stream::reassembly::{collapse_escapes, merge_newline_split_across_patches, TRIGGER};

fn reassemble(fragments: &[&str]) -> (String, Vec<String>) {
    let mut buffer = String::new();
    let mut emitted = Vec::new();
    for fragment in fragments {
        emitted.push(merge_newline_split_across_patches(&mut buffer, fragment));
    }
    (buffer, emitted)
}

#[test]
fn trigger_is_the_single_quote() {
    assert_eq!(TRIGGER, '\'');
}

#[test]
fn collapse_replaces_each_escape_by_a_newline() {
    assert_eq!(collapse_escapes("a\\nb"), "a\nb");
    assert_eq!(collapse_escapes("\\n\\n"), "\n\n");
    assert_eq!(collapse_escapes("one\\ntwo\\nthree"), "one\ntwo\nthree");
}

#[test]
fn collapse_leaves_other_text_alone() {
    assert_eq!(collapse_escapes(""), "");
    assert_eq!(collapse_escapes("n"), "n");
    assert_eq!(collapse_escapes("\\"), "\\");
    assert_eq!(collapse_escapes("plain text"), "plain text");
    assert_eq!(collapse_escapes("a\\tb"), "a\\tb");
    assert_eq!(collapse_escapes("real\nnewline"), "real\nnewline");
    assert_eq!(collapse_escapes("caf\u{e9} \\ na\u{ef}ve"), "caf\u{e9} \\ na\u{ef}ve");
}

#[test]
fn collapse_handles_runs_of_backslashes() {
    assert_eq!(collapse_escapes("\\\\n"), "\\\n");
    assert_eq!(collapse_escapes("\\\\\\n"), "\\\\\n");
    assert_eq!(collapse_escapes("\\\\"), "\\\\");
    assert_eq!(collapse_escapes("x\\"), "x\\");
    assert_eq!(collapse_escapes("\\nn"), "\nn");
}

#[test]
fn collapse_agrees_with_replace() {
    let samples = [
        "",
        "\\",
        "n",
        "\\n",
        "a\\nb\\nc",
        "\\\\n\\n\\",
        "it's \\n here",
        "\u{1f600}\\n\u{1f600}",
        "\\n\\\\nn\\",
    ];
    for sample in samples {
        assert_eq!(collapse_escapes(sample), sample.replace("\\n", "\n"));
    }
}

#[test]
fn collapse_is_idempotent() {
    let once = collapse_escapes("a\\\\n\\nb\\");
    assert_eq!(collapse_escapes(&once), once);
}

#[test]
fn plain_fragment_passes_through() {
    let mut buffer = String::new();
    assert_eq!(merge_newline_split_across_patches(&mut buffer, "Hello"), "Hello");
    assert_eq!(buffer, "");
}

#[test]
fn plain_fragment_keeps_its_escapes() {
    let mut buffer = String::new();
    assert_eq!(merge_newline_split_across_patches(&mut buffer, "a\\nb"), "a\\nb");
    assert_eq!(buffer, "");
}

#[test]
fn empty_fragment_passes_through() {
    let mut buffer = String::new();
    assert_eq!(merge_newline_split_across_patches(&mut buffer, ""), "");
    assert_eq!(buffer, "");
}

#[test]
fn fragment_ending_with_trigger_is_held_back() {
    let mut buffer = String::new();
    assert_eq!(merge_newline_split_across_patches(&mut buffer, "abc'"), "");
    assert_eq!(buffer, "abc'");
}

#[test]
fn held_back_fragment_and_continuation_are_joined_verbatim() {
    let mut buffer = String::new();
    assert_eq!(merge_newline_split_across_patches(&mut buffer, "abc'"), "");
    assert_eq!(merge_newline_split_across_patches(&mut buffer, "def"), "abc'def");
    assert_eq!(buffer, "");
}

#[test]
fn escape_in_joined_text_becomes_a_newline() {
    let mut buffer = String::new();
    assert_eq!(merge_newline_split_across_patches(&mut buffer, "print('"), "");
    assert_eq!(
        merge_newline_split_across_patches(&mut buffer, "one\\ntwo') # done"),
        "print('one\ntwo') # done"
    );
    assert_eq!(buffer, "");
}

#[test]
fn escape_in_held_back_part_becomes_a_newline() {
    let mut buffer = String::new();
    assert_eq!(merge_newline_split_across_patches(&mut buffer, "a\\nb'"), "");
    assert_eq!(merge_newline_split_across_patches(&mut buffer, "c"), "a\nb'c");
}

#[test]
fn several_fragments_in_a_row_are_held_back() {
    let (buffer, emitted) = reassemble(&["a'", "b'", "c\\n"]);
    assert_eq!(emitted, vec!["", "", "a'b'c\n"]);
    assert_eq!(buffer, "");
}

#[test]
fn empty_continuation_releases_what_is_held_back() {
    let (buffer, emitted) = reassemble(&["it'", ""]);
    assert_eq!(emitted, vec!["", "it'"]);
    assert_eq!(buffer, "");
}

#[test]
fn lone_trigger_is_held_back() {
    let (buffer, emitted) = reassemble(&["'"]);
    assert_eq!(emitted, vec![""]);
    assert_eq!(buffer, "'");
}

#[test]
fn fragments_without_trigger_are_concatenated_unchanged() {
    let fragments = ["He", "llo", ", ", "wor\\nld", "", "!", "don't stop"];
    let (buffer, emitted) = reassemble(&fragments);
    assert_eq!(emitted, fragments);
    assert_eq!(emitted.concat(), fragments.concat());
    assert_eq!(buffer, "");
}

#[test]
fn reassembly_keeps_the_text_up_to_collapsing() {
    let fragments = ["x\\", "n'", "y\\nz", "tail'", "\\", "n"];
    let (buffer, emitted) = reassemble(&fragments);
    let seen = format!("{}{}", emitted.concat(), buffer);
    assert_eq!(collapse_escapes(&seen), collapse_escapes(&fragments.concat()));
}

#[test]
fn buffer_is_reused_after_release() {
    let (buffer, emitted) = reassemble(&["a'", "b", "c'", "d"]);
    assert_eq!(emitted, vec!["", "a'b", "", "c'd"]);
    assert_eq!(buffer, "");
}
