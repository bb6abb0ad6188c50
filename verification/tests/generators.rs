use rsonpath_rewrite::generators::{PrefixToDescendantGenerator, QuerySegment};
use rsonpath_syntax::{JsonPathQuery, Segment};

fn to_segments(query: &JsonPathQuery) -> Vec<QuerySegment> {
    query
        .segments()
        .iter()
        .map(|segment| QuerySegment {
            descendant: segment.is_descendant(),
            selectors: segment.selectors().clone(),
        })
        .collect()
}

fn to_query(segments: Vec<QuerySegment>) -> JsonPathQuery {
    JsonPathQuery::from_iter(segments.into_iter().map(|s| {
        if s.descendant {
            Segment::Descendant(s.selectors)
        } else {
            Segment::Child(s.selectors)
        }
    }))
}

fn generate(query: &str) -> Vec<String> {
    let query = rsonpath_syntax::parse(query).unwrap();
    let generator = PrefixToDescendantGenerator;
    generator
        .generate_segments(&to_segments(&query))
        .into_iter()
        .map(|candidate| to_query(candidate).to_string())
        .collect()
}

#[test]
fn prefix_generator_emits_suffixes_with_descendant_prefix() {
    assert_eq!(generate("$.a.b.c"), vec!["$..['b']['c']", "$..['c']"]);
}

#[test]
fn prefix_generator_on_content_title() {
    assert_eq!(generate("$.content[*].title"), vec!["$..[*]['title']", "$..['title']"]);
}

#[test]
fn prefix_generator_gives_nothing_for_one_segment() {
    assert!(generate("$.a").is_empty());
    assert!(generate("$").is_empty());
}
