use refmark::normalize::{normalize, strip_query, strip_volatile_query};
use refmark::tags::{bracket_tag, derive_tags, format_tag};
use refmark::text::{
    concat_str, contains_sub, find_char, find_sub, kv_values, replace_all, second_field,
    split_char, starts_with, str_eq, strip_trailing, to_ascii_lower, trim,
};

#[test]
fn zhihu_answer_loses_its_query() {
    assert_eq!(
        normalize("https://www.zhihu.com/question/123/answer/456?utm_source=x"),
        "https://www.zhihu.com/question/123/answer/456"
    );
}

#[test]
fn zhihu_profile_loses_its_query() {
    assert_eq!(
        normalize("https://www.zhihu.com/people/someone?share=1"),
        "https://www.zhihu.com/people/someone"
    );
}

#[test]
fn zhihu_question_without_answer_keeps_its_query() {
    assert_eq!(
        normalize("https://www.zhihu.com/question/123?sort=new"),
        "https://www.zhihu.com/question/123?sort=new"
    );
}

#[test]
fn twitter_profile_becomes_reply_timeline() {
    assert_eq!(
        normalize("https://twitter.com/SomeUser?ref=1"),
        "https://x.com/someuser/with_replies"
    );
}

#[test]
fn profile_with_trailing_slash_is_folded_too() {
    assert_eq!(
        normalize("https://x.com/User/"),
        "https://x.com/user/with_replies"
    );
}

#[test]
fn status_address_is_not_a_profile() {
    assert_eq!(
        normalize("https://twitter.com/user/status/123?s=20"),
        "https://x.com/user/status/123"
    );
}

#[test]
fn mobile_video_host_is_folded() {
    assert_eq!(
        normalize("https://m.youtube.com/watch?v=abc"),
        "https://youtube.com/watch?v=abc"
    );
}

#[test]
fn unknown_sites_pass_through() {
    assert_eq!(
        normalize("https://example.org/a?b=c"),
        "https://example.org/a?b=c"
    );
}

#[test]
fn volatile_query_needs_following_characters() {
    assert_eq!(strip_volatile_query("https://a.example/p?x=1"), "https://a.example/p");
    assert_eq!(strip_volatile_query("https://a.example/p?"), "https://a.example/p?");
    assert_eq!(strip_volatile_query("https://a.example/p?x 1"), "https://a.example/p?x 1");
}

#[test]
fn plain_query_strip_truncates_at_first_mark() {
    assert_eq!(strip_query("https://a.example/p?x=1?y=2"), "https://a.example/p");
    assert_eq!(strip_query("https://a.example/p"), "https://a.example/p");
}

#[test]
fn tags_are_trimmed_and_bracketed() {
    assert_eq!(format_tag("  cooking "), "#[[cooking]]");
    assert_eq!(format_tag("#kept"), "#kept");
    assert_eq!(format_tag(" #kept "), "#kept");
    assert_eq!(format_tag(""), "#[[]]");
}

#[test]
fn list_file_tags_are_bracketed_or_dropped() {
    assert_eq!(bracket_tag(" cooking "), Some(String::from("#[[cooking]]")));
    assert_eq!(bracket_tag("#[[kept]]"), Some(String::from("#[[kept]]")));
    assert_eq!(bracket_tag("#plain"), Some(String::from("#[[#plain]]")));
    assert_eq!(bracket_tag("   "), None);
}

#[test]
fn video_sites_gain_the_video_queue_tag() {
    let out = derive_tags("https://youtube.com/watch?v=1", &vec![]);
    assert_eq!(out, vec![String::from("#[[vquest]]")]);
}

#[test]
fn empty_tag_sets_get_the_default_tag() {
    let out = derive_tags("https://example.org/a", &vec![]);
    assert_eq!(out, vec![String::from("#[[c]]")]);
}

#[test]
fn raw_tags_are_canonicalized() {
    let raw = vec![String::from("reading "), String::from("#[[kept]]")];
    let out = derive_tags("https://example.org/a", &raw);
    assert_eq!(out, vec![String::from("#[[reading]]"), String::from("#[[kept]]")]);
}

#[test]
fn replace_all_rewrites_every_occurrence() {
    assert_eq!(
        replace_all("twitter.com and twitter.com", "twitter.com", "x.com"),
        "x.com and x.com"
    );
    assert_eq!(replace_all("untouched", "zz", "yy"), "untouched");
}

#[test]
fn search_primitives_behave() {
    assert!(starts_with("abcdef", "abc"));
    assert!(!starts_with("ab", "abc"));
    assert!(contains_sub("abcdef", "cde"));
    assert!(!contains_sub("abcdef", "xyz"));
    assert_eq!(find_sub("abcabc", "bc"), Some(1));
    assert_eq!(find_sub("abc", "zz"), None);
    assert_eq!(find_char("a:b:c", ':'), Some(1));
    assert_eq!(find_char("abc", ':'), None);
    assert!(str_eq("same", "same"));
    assert!(!str_eq("same", "Same"));
}

#[test]
fn string_builders_behave() {
    assert_eq!(concat_str("ab", "cd"), "abcd");
    assert_eq!(to_ascii_lower("MiXed_09/Z"), "mixed_09/z");
    assert_eq!(strip_trailing("path///", '/'), "path");
    assert_eq!(trim("  \t spaced \r\n"), "spaced");
}

#[test]
fn split_keeps_empty_pieces() {
    let parts = split_char("a::b:", ':');
    assert_eq!(parts, vec!["a", "", "b", ""]);
}

#[test]
fn token_fields_come_from_second_positions() {
    assert_eq!(second_field("code=abc123", '='), Some(String::from("abc123")));
    assert_eq!(second_field("nofield", '='), None);
    assert_eq!(
        kv_values("access_token=tok&username=me", '&', '='),
        Some(vec![String::from("tok"), String::from("me")])
    );
    assert_eq!(kv_values("access_token=tok&broken", '&', '='), None);
}
