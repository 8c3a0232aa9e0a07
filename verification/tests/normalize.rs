use gsc_doc_sync::doc_sort::sort_content;

#[test]
fn sections_reordered_alphabetically() {
    let input = "Title\n\nzeta\n----\nbody z\nalpha\n-----\nbody a\n";
    let expected = "Title\n\nalpha\n-----\nbody a\nzeta\n----\nbody z\n";
    assert_eq!(sort_content(input), expected);
}

#[test]
fn normalize_is_idempotent() {
    let input = "Title\n\nzeta\n----\nbody z\nalpha\n-----\nbody a\n";
    let once = sort_content(input);
    let twice = sort_content(&once);
    assert_eq!(twice, once);
}

#[test]
fn underline_corrected_to_header_length() {
    let input = "p\n\nabc\n----------\nbody\n";
    assert_eq!(sort_content(input), "p\n\nabc\n---\nbody\n");
}

#[test]
fn duplicate_headers_last_write_wins() {
    let input = "t\n\nfoo\n---\nfirst\nfoo\n---\nsecond\n";
    assert_eq!(sort_content(input), "t\n\nfoo\n---\nsecond\n");
}

#[test]
fn file_without_sections_unchanged() {
    let input = "just some text\nwith lines\n";
    assert_eq!(sort_content(input), input);
    assert_eq!(sort_content(""), "");
}

#[test]
fn short_underline_is_plain_content() {
    // two dashes do not form an underline: the would-be header stays
    // in the preceding body
    let input = "t\n\nfoo\n--\ntext\n";
    assert_eq!(sort_content(input), input);
}

#[test]
fn header_needs_trailing_newline_on_underline() {
    // an underline not closed by a newline at end of file is no underline
    let input = "t\nfoo\n---";
    assert_eq!(sort_content(input), input);
}

#[test]
fn preamble_kept_before_sorted_sections() {
    let input = "one\ntwo\n\nbb\n---\nB\naa\n---\nA\n";
    assert_eq!(sort_content(input), "one\ntwo\n\naa\n--\nA\nbb\n--\nB\n");
}

#[test]
fn idempotent_when_correction_shrinks_underline_below_three() {
    // headers of fewer than three characters get underlines shorter
    // than an underline's minimum; a second pass sees plain content
    // and leaves the bytes unchanged
    let input = "bb\n-----\nx\n";
    let once = sort_content(input);
    assert_eq!(once, "bb\n--\nx\n");
    assert_eq!(sort_content(&once), once);
}
