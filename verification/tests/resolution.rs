use refmark::annotate::annotate_lines;
use refmark::normalize::{expand_alternatives, AlternativeSet};
use refmark::resolve::{
    check, parse_hits, query_fragment, wants_annotation, Hit, Mode, OracleOutcome, ResolveStep,
    Resolver,
};

fn outcome_of(hits: Vec<(&str, &str)>) -> OracleOutcome {
    OracleOutcome::Hits(
        hits.iter()
            .map(|(f, l)| Hit {
                file_path: f.to_string(),
                line_content: l.to_string(),
            })
            .collect(),
    )
}

#[test]
fn parse_hits_splits_on_first_colon() {
    let hits = parse_hits("notes/a.md:- line one\nb.md:x:y");
    assert_eq!(hits.len(), 2);
    assert_eq!(hits[0].file_path, "notes/a.md");
    assert_eq!(hits[0].line_content, "- line one");
    assert_eq!(hits[1].file_path, "b.md");
    assert_eq!(hits[1].line_content, "x:y");
}

#[test]
fn parse_hits_skips_lines_without_colon() {
    let hits = parse_hits("no colon here\nf.md:kept");
    assert_eq!(hits.len(), 1);
    assert_eq!(hits[0].file_path, "f.md");
    assert_eq!(hits[0].line_content, "kept");
}

#[test]
fn parse_hits_of_empty_output_is_empty() {
    assert_eq!(parse_hits("").len(), 0);
}

#[test]
fn query_wraps_form_in_link_parentheses() {
    assert_eq!(query_fragment("https://a.example/x"), "(https://a.example/x)");
}

#[test]
fn resolver_stops_at_first_alternative_with_hits() {
    let mut alts = AlternativeSet::new();
    alts.insert(String::from("https://a.example/1"));
    alts.insert(String::from("https://a.example/2"));
    let mut r = Resolver::new(alts);

    assert_eq!(r.next_query(), Some(String::from("(https://a.example/1)")));
    let step = r.record(outcome_of(vec![("f.md", "- hit line")]));
    match step {
        ResolveStep::Found(hits) => {
            assert_eq!(hits.len(), 1);
            assert_eq!(hits[0].line_content, "- hit line");
        }
        _ => panic!("expected the resolution to complete on the first hit"),
    }
}

#[test]
fn resolver_tries_alternatives_in_order_then_misses() {
    let mut alts = AlternativeSet::new();
    alts.insert(String::from("https://a.example/1"));
    alts.insert(String::from("https://a.example/2"));
    let mut r = Resolver::new(alts);

    assert_eq!(r.next_query(), Some(String::from("(https://a.example/1)")));
    assert!(matches!(r.record(outcome_of(vec![])), ResolveStep::Continue));
    assert_eq!(r.next_query(), Some(String::from("(https://a.example/2)")));
    assert!(matches!(
        r.record(OracleOutcome::OracleError),
        ResolveStep::Miss
    ));
    assert_eq!(r.next_query(), None);
}

#[test]
fn oracle_error_counts_as_a_miss() {
    let mut alts = AlternativeSet::new();
    alts.insert(String::from("https://a.example/only"));
    let mut r = Resolver::new(alts);
    assert!(matches!(
        r.record(OracleOutcome::OracleError),
        ResolveStep::Miss
    ));
}

#[test]
fn check_requires_at_least_one_hit() {
    assert!(check(&outcome_of(vec![("f.md", "line")])));
    assert!(!check(&outcome_of(vec![])));
    assert!(!check(&OracleOutcome::OracleError));
}

#[test]
fn only_annotate_mode_mutates() {
    let found = ResolveStep::Found(vec![Hit {
        file_path: String::from("f.md"),
        line_content: String::from("- t"),
    }]);
    assert!(wants_annotation(&Mode::AnnotateAndReset, &found));
    assert!(!wants_annotation(&Mode::Archive, &found));
    assert!(!wants_annotation(&Mode::AnnotateAndReset, &ResolveStep::Miss));
}

#[test]
fn hits_in_two_files_are_each_processed() {
    let tags = vec![String::from("#c")];
    let hits = parse_hits("one.md:- t\ntwo.md:- t");
    assert_eq!(hits.len(), 2);

    let file_one = vec![String::from("- t"), String::from("rest one")];
    let file_two = vec![String::from("intro"), String::from("- t")];

    let out_one = annotate_lines(&file_one, &hits[0].line_content, &tags);
    assert_eq!(out_one[0], "- t #c ;; ");
    assert_eq!(out_one[1], "rest one");

    // the first file's rewrite stands on its own, whatever happens to the second
    let out_two = annotate_lines(&file_two, &hits[1].line_content, &tags);
    assert_eq!(out_two[0], "intro");
    assert_eq!(out_two[1], "- t #c ;; ");
}

#[test]
fn expansion_feeds_the_resolver_end_to_end() {
    let corpus = "notes.md:- saved - [site](https://weibo.com/u/1) ;; #c";
    let alts = expand_alternatives("https://m.weibo.cn/u/1");
    let mut r = Resolver::new(alts);
    let mut found = None;
    while let Some(q) = r.next_query() {
        // the oracle is a substring filter over the corpus lines
        let outcome = if corpus.contains(q.as_str()) {
            outcome_of(vec![("notes.md", "- saved - [site](https://weibo.com/u/1) ;; #c")])
        } else {
            outcome_of(vec![])
        };
        match r.record(outcome) {
            ResolveStep::Found(hits) => {
                found = Some(hits);
                break;
            }
            ResolveStep::Continue => {}
            ResolveStep::Miss => break,
        }
    }
    let hits = found.expect("one alternative form occurs in the corpus");
    assert_eq!(hits[0].file_path, "notes.md");
}
