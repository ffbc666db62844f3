use cutesy_core::attrsort::{sort_attrs, pattern_match};
use cutesy_core::config::{Config, Pattern, TagNameCase};
use cutesy_core::position::position_of;
use cutesy_core::text::{classify_text, collapse_text, normalize_text_run};
use cutesy_core::tokens::{Attribute, Quote, TextClass, Token};

fn raw(s: &str) -> Vec<u8> {
    s.as_bytes().to_vec()
}

fn attr(name: &str, value: &str) -> Attribute {
    Attribute {
        name: raw(name),
        value: Some(raw(value)),
        quote: Quote::Double,
        name_offset: 0,
        value_offset: 0,
    }
}

fn names(attrs: &[Attribute]) -> Vec<Vec<u8>> {
    attrs.iter().map(|a| a.name.clone()).collect()
}

fn order_config(priorities: &[&str]) -> Config {
    Config {
        attribute_order: priorities
            .iter()
            .map(|p| {
                if let Some(stem) = p.strip_suffix('*') {
                    Pattern { text: raw(stem), prefix: true }
                } else {
                    Pattern { text: raw(p), prefix: false }
                }
            })
            .collect(),
        raw_text_elements: Vec::new(),
        preserve_whitespace_elements: Vec::new(),
        tag_name_case: TagNameCase::Lower,
    }
}

#[test]
fn sorting_is_idempotent_on_a_sample() {
    let cfg = order_config(&["id", "class", "data-*"]);
    let attrs = vec![
        attr("style", "s"),
        attr("data-x", "1"),
        attr("class", "c"),
        attr("alt", "a"),
        attr("id", "i"),
        attr("data-a", "2"),
    ];
    let once = sort_attrs(&cfg, &attrs);
    let twice = sort_attrs(&cfg, &once);
    assert_eq!(format!("{:?}", once), format!("{:?}", twice));
    assert_eq!(
        names(&once),
        vec![raw("id"), raw("class"), raw("data-x"), raw("data-a"), raw("alt"), raw("style")]
    );
}

#[test]
fn sorting_preserves_the_multiset_with_duplicates() {
    let cfg = order_config(&["id"]);
    let attrs = vec![attr("b", "1"), attr("a", "x"), attr("a", "y"), attr("b", "2")];
    let sorted = sort_attrs(&cfg, &attrs);
    assert_eq!(sorted.len(), 4);
    // duplicates sort by the same key and keep original relative order
    assert_eq!(names(&sorted), vec![raw("a"), raw("a"), raw("b"), raw("b")]);
    assert_eq!(sorted[0].value.as_ref().unwrap(), &raw("x"));
    assert_eq!(sorted[1].value.as_ref().unwrap(), &raw("y"));
    assert_eq!(sorted[2].value.as_ref().unwrap(), &raw("1"));
    assert_eq!(sorted[3].value.as_ref().unwrap(), &raw("2"));
}

#[test]
fn tied_priority_attributes_keep_source_order() {
    // both names match the same prefix pattern, so they are tied and must
    // keep their original relative order
    let cfg = order_config(&["data-*", "id"]);
    let attrs = vec![attr("id", "i"), attr("data-z", "1"), attr("data-a", "2")];
    let sorted = sort_attrs(&cfg, &attrs);
    assert_eq!(names(&sorted), vec![raw("data-z"), raw("data-a"), raw("id")]);
}

#[test]
fn fallback_order_is_case_insensitive_lexicographic() {
    let cfg = order_config(&[]);
    let attrs = vec![attr("Beta", "1"), attr("alpha", "2"), attr("ALPHA", "3")];
    let sorted = sort_attrs(&cfg, &attrs);
    assert_eq!(names(&sorted), vec![raw("alpha"), raw("ALPHA"), raw("Beta")]);
}

#[test]
fn prefix_pattern_matching() {
    let star = Pattern { text: raw("data-"), prefix: true };
    assert!(pattern_match(&star, &raw("data-x")));
    assert!(pattern_match(&star, &raw("data-")));
    assert!(!pattern_match(&star, &raw("dat")));
    let exact = Pattern { text: raw("id"), prefix: false };
    assert!(pattern_match(&exact, &raw("id")));
    assert!(!pattern_match(&exact, &raw("idx")));
}

#[test]
fn preserve_whitespace_element_is_raw_preserve_and_never_collapsed() {
    let cfg = Config {
        attribute_order: Vec::new(),
        raw_text_elements: Vec::new(),
        preserve_whitespace_elements: vec![raw("pre")],
        tag_name_case: TagNameCase::Lower,
    };
    let buf = raw("<pre>  a   b  </pre>");
    let (tokens, _) = cutesy_core::scanner::tokenize(&buf, cfg.clone());
    match &tokens[1] {
        Token::Text(run) => {
            assert_eq!(run.class, TextClass::RawPreserve);
            // normalization requested globally, still left untouched
            let out = normalize_text_run(&buf, run.span.start, run.span.end, run.class, true);
            assert!(out.is_none());
        },
        _ => panic!("expected a text run"),
    }
}

#[test]
fn normal_text_collapses_when_normalization_is_requested() {
    let cfg = Config {
        attribute_order: Vec::new(),
        raw_text_elements: Vec::new(),
        preserve_whitespace_elements: Vec::new(),
        tag_name_case: TagNameCase::Lower,
    };
    let buf = raw("<p>  a   b  </p>");
    let (tokens, _) = cutesy_core::scanner::tokenize(&buf, cfg);
    match &tokens[1] {
        Token::Text(run) => {
            assert_eq!(run.class, TextClass::Normal);
            let out = normalize_text_run(&buf, run.span.start, run.span.end, run.class, true)
                .unwrap();
            assert_eq!(out, raw("a b"));
            let untouched = normalize_text_run(&buf, run.span.start, run.span.end, run.class, false);
            assert!(untouched.is_none());
        },
        _ => panic!("expected a text run"),
    }
}

#[test]
fn collapse_trims_and_squeezes() {
    let buf = raw("  a \t\n b  c  ");
    assert_eq!(collapse_text(&buf, 0, buf.len()), raw("a b c"));
    let empty = raw("   ");
    assert_eq!(collapse_text(&empty, 0, empty.len()), raw(""));
    let plain = raw("abc");
    assert_eq!(collapse_text(&plain, 0, plain.len()), raw("abc"));
}

#[test]
fn classification_of_plain_runs() {
    let cfg = Config {
        attribute_order: Vec::new(),
        raw_text_elements: Vec::new(),
        preserve_whitespace_elements: Vec::new(),
        tag_name_case: TagNameCase::Lower,
    };
    let ws = raw("  \t ");
    assert_eq!(classify_text(&ws, 0, ws.len(), None, &cfg), TextClass::WhitespaceOnly);
    let norm = raw("hello");
    assert_eq!(classify_text(&norm, 0, norm.len(), None, &cfg), TextClass::Normal);
    let ent = raw("a &lt; b");
    assert_eq!(classify_text(&ent, 0, ent.len(), None, &cfg), TextClass::ContainsEntity);
}

#[test]
fn diagnostics_locate_to_line_and_column() {
    let cfg = Config {
        attribute_order: Vec::new(),
        raw_text_elements: Vec::new(),
        preserve_whitespace_elements: Vec::new(),
        tag_name_case: TagNameCase::Lower,
    };
    let buf = raw("ok\n<div");
    let (_, diags) = cutesy_core::scanner::tokenize(&buf, cfg);
    assert_eq!(diags.len(), 1);
    let pos = cutesy_core::position::locate_diagnostic(&buf, &diags[0]);
    assert_eq!((pos.line, pos.column), (2, 1));
    assert_eq!(diags[0].message(), "malformed tag");
}

#[test]
fn position_tracker_lines_and_columns() {
    let buf = raw("ab\ncd\n\nx");
    let p0 = position_of(&buf, 0);
    assert_eq!((p0.line, p0.column), (1, 1));
    let p2 = position_of(&buf, 2);
    assert_eq!((p2.line, p2.column), (1, 3));
    let p3 = position_of(&buf, 3);
    assert_eq!((p3.line, p3.column), (2, 1));
    let p7 = position_of(&buf, 7);
    assert_eq!((p7.line, p7.column), (4, 1));
}
