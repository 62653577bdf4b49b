use refmark::annotate::{annotate_line, annotate_lines, annotate_text, merge_tags, strip_marker};

fn tagv(tags: &[&str]) -> Vec<String> {
    tags.iter().map(|t| t.to_string()).collect()
}

#[test]
fn strip_removes_marker_span() {
    assert_eq!(
        strip_marker("- a <!--SR:!2024-01-01,3,250--> b"),
        "- a  b"
    );
}

#[test]
fn strip_without_marker_is_identity() {
    assert_eq!(strip_marker("- a plain line ;;"), "- a plain line ;;");
}

#[test]
fn strip_ignores_span_with_inner_close() {
    // the first '>' after the opener is not preceded by "--", so no marker
    assert_eq!(strip_marker("- <!--SR:!a>b-->"), "- <!--SR:!a>b-->");
}

#[test]
fn strip_removes_only_first_marker() {
    assert_eq!(
        strip_marker("x <!--SR:!1--> y <!--SR:!2--> z"),
        "x  y <!--SR:!2--> z"
    );
}

#[test]
fn merge_appends_missing_tags_only() {
    assert_eq!(merge_tags("note #a", &tagv(&["#a", "#b"])), "note #a #b");
}

#[test]
fn tag_already_present_leaves_line_unchanged() {
    let line = "- foo - [site](url) ;; #c";
    let out = annotate_line(line, None, &tagv(&["#c"]));
    assert_eq!(out, line);
}

#[test]
fn marker_stripped_and_terminator_appended() {
    let next = String::from("an ordinary following line");
    let out = annotate_line(
        "- foo - [site](url) <!--SR:!2024-01-01-->",
        Some(&next),
        &tagv(&[]),
    );
    assert_eq!(out, "- foo - [site](url)  ;; ");
}

#[test]
fn missing_tags_go_before_the_terminator() {
    let next = String::from("an ordinary following line");
    let out = annotate_line(
        "- foo - [site](url) <!--SR:!2024-01-01-->",
        Some(&next),
        &tagv(&["#x"]),
    );
    assert_eq!(out, "- foo - [site](url)  #x ;; ");
}

#[test]
fn question_in_next_line_suppresses_terminator() {
    let next = String::from("is this a question?");
    let out = annotate_line("a prompt line", Some(&next), &tagv(&[]));
    assert_eq!(out, "a prompt line");
}

#[test]
fn annotating_twice_equals_annotating_once() {
    let next = String::from("an ordinary following line");
    let tags = tagv(&["#c", "#[[deep]]"]);
    let once = annotate_line(
        "- foo - [site](url) <!--SR:!2024-01-01-->",
        Some(&next),
        &tags,
    );
    let twice = annotate_line(once.as_str(), Some(&next), &tags);
    assert_eq!(twice, once);
}

#[test]
fn stripped_marker_never_reappears() {
    let next = String::from("an ordinary following line");
    let out = annotate_line(
        "- foo - [site](url) <!--SR:!2024-01-01-->",
        Some(&next),
        &tagv(&["#c"]),
    );
    assert_eq!(strip_marker(out.as_str()), out);
}

#[test]
fn all_matching_lines_are_rewritten() {
    let lines = vec![
        String::from("- t"),
        String::from("other"),
        String::from("- t"),
    ];
    let out = annotate_lines(&lines, &String::from("- t"), &tagv(&["#c"]));
    assert_eq!(out.len(), 3);
    assert_eq!(out[0], "- t #c ;; ");
    assert_eq!(out[1], "other");
    assert_eq!(out[2], "- t #c ;; ");
}

#[test]
fn absent_target_leaves_lines_unchanged() {
    let lines = vec![String::from("alpha"), String::from("beta")];
    let out = annotate_lines(&lines, &String::from("gamma"), &tagv(&["#c"]));
    assert_eq!(out, lines);
}

#[test]
fn absent_target_leaves_text_byte_identical() {
    let content = "alpha\nbeta\n";
    let out = annotate_text(content, &String::from("gamma"), &tagv(&["#c"]));
    assert_eq!(out, content);

    let crlf = "alpha\r\nbeta\r\n";
    assert_eq!(annotate_text(crlf, &String::from("gamma"), &tagv(&["#c"])), crlf);

    let unterminated = "alpha\nbeta";
    assert_eq!(
        annotate_text(unterminated, &String::from("gamma"), &tagv(&["#c"])),
        unterminated
    );
}

#[test]
fn matched_text_line_is_rewritten_in_place() {
    let content = "a\n- t\nb\n";
    let out = annotate_text(content, &String::from("- t"), &tagv(&["#c"]));
    assert_eq!(out, "a\n- t #c ;; \nb\n");
}

#[test]
fn crlf_endings_are_preserved() {
    let content = "a\r\n- t\r\n";
    let out = annotate_text(content, &String::from("- t"), &tagv(&[]));
    assert_eq!(out, "a\r\n- t ;; \r\n");
}

#[test]
fn unterminated_final_line_is_preserved() {
    let content = "a\nb";
    let out = annotate_text(content, &String::from("absent"), &tagv(&[]));
    assert_eq!(out, "a\nb");
}

#[test]
fn matched_unterminated_line_stays_unterminated() {
    let content = "a\n- t";
    let out = annotate_text(content, &String::from("- t"), &tagv(&[]));
    assert_eq!(out, "a\n- t ;; ");
}

#[test]
fn untouched_lines_keep_their_endings_around_a_match() {
    let content = "keep\r\n- t\nalso keep\r\n";
    let out = annotate_text(content, &String::from("- t"), &tagv(&["#c"]));
    assert_eq!(out, "keep\r\n- t #c ;; \nalso keep\r\n");
}
