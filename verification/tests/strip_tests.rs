use dictpipe::strip::strip_html;

#[test]
fn strips_bold_markup() {
    assert_eq!(strip_html("<b>scharf</b>"), "scharf");
}

#[test]
fn identity_on_tag_free_input() {
    assert_eq!(strip_html("no tags here"), "no tags here");
}

#[test]
fn unterminated_tag_discards_remainder() {
    assert_eq!(strip_html("a<b"), "a");
}

#[test]
fn empty_input_stays_empty() {
    assert_eq!(strip_html(""), "");
}

#[test]
fn balanced_tags_leave_exactly_the_plain_runs() {
    assert_eq!(strip_html("1. <b>scharf</b> (<i>schneidend</i>)"), "1. scharf (schneidend)");
}

#[test]
fn stray_closer_is_dropped() {
    assert_eq!(strip_html("a>b"), "ab");
}

#[test]
fn unterminated_tag_after_tags() {
    assert_eq!(strip_html("a<b>c<d"), "ac");
}

#[test]
fn stripping_is_idempotent() {
    let inputs = ["<b>scharf</b>", "a<b", "x>y<z", "plain", "", "<<>>", "a<b>c</b>d"];
    for s in inputs {
        let once = strip_html(s);
        let twice = strip_html(&once);
        assert_eq!(twice, once);
    }
}

#[test]
fn non_ascii_text_is_kept() {
    assert_eq!(strip_html("<b>злой</b>"), "злой");
}
