use refmark::normalize::{expand_alternatives, AlternativeSet, UrlTransformation};

fn has(set: &AlternativeSet, form: &str) -> bool {
    set.contains_form(&String::from(form))
}

#[test]
fn weibo_mobile_alternatives() {
    let set = expand_alternatives("https://m.weibo.cn/u/12345");
    assert!(has(&set, "https://m.weibo.cn/u/12345"));
    assert!(has(&set, "https://weibo.cn/u/12345"));
    assert!(has(&set, "https://weibo.com/u/12345"));
    assert!(has(&set, "https://m.weibo.cn/u/12345/"));
    assert!(has(&set, "https://weibo.cn/u/12345/"));
    assert!(has(&set, "https://weibo.com/u/12345/"));
    assert_eq!(set.len(), 6);
}

#[test]
fn www_host_expansion() {
    let set = expand_alternatives("https://www.weibo.com/u/7");
    assert!(has(&set, "https://www.weibo.com/u/7"));
    assert!(has(&set, "https://weibo.com/u/7"));
    assert!(has(&set, "https://weibo.cn/u/7"));
    assert!(has(&set, "https://m.weibo.cn/u/7"));
    assert!(has(&set, "https://www.weibo.com/u/7/"));
    assert_eq!(set.len(), 8);
}

#[test]
fn original_reference_comes_first() {
    let set = expand_alternatives("https://example.org/article");
    assert_eq!(set.get(0).as_str(), "https://example.org/article");
    assert!(has(&set, "https://example.org/article"));
}

#[test]
fn plain_reference_gets_slash_variants_only() {
    let set = expand_alternatives("https://example.org/article");
    assert!(has(&set, "https://example.org/article"));
    assert!(has(&set, "https://example.org/article/"));
    assert_eq!(set.len(), 2);
}

#[test]
fn slash_toggle_closure() {
    let set = expand_alternatives("https://m.weibo.cn/u/12345/");
    let mut i = 0;
    while i < set.len() {
        let form = set.get(i).clone();
        if form.ends_with('/') {
            let stripped = form.trim_end_matches('/').to_string();
            assert!(set.contains_form(&stripped));
        } else {
            let appended = format!("{}/", form);
            assert!(set.contains_form(&appended));
        }
        i += 1;
    }
}

#[test]
fn expansion_is_idempotent_on_members() {
    let set = expand_alternatives("https://m.weibo.cn/u/12345");
    let mut i = 0;
    while i < set.len() {
        let member = set.get(i).clone();
        let again = expand_alternatives(member.as_str());
        let mut j = 0;
        while j < again.len() {
            assert!(set.contains_form(again.get(j)));
            j += 1;
        }
        i += 1;
    }
}

#[test]
fn transformation_applies_only_on_prefix_match() {
    let t = UrlTransformation::new("https://m.weibo.cn/", &["https://weibo.cn/"]);
    let mut set = AlternativeSet::new();
    t.apply("https://m.weibo.cn/u/9", &mut set);
    assert_eq!(set.len(), 1);
    assert!(has(&set, "https://weibo.cn/u/9"));

    let mut other = AlternativeSet::new();
    t.apply("https://weibo.com/u/9", &mut other);
    assert_eq!(other.len(), 0);
}

#[test]
fn inserting_twice_keeps_one_copy() {
    let mut set = AlternativeSet::new();
    set.insert(String::from("https://a.example/x"));
    set.insert(String::from("https://a.example/x"));
    assert_eq!(set.len(), 1);
}
