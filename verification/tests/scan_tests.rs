use cutesy_core::config::{Config, Pattern, TagNameCase};
use cutesy_core::scanner::{tokenize, ScanState};
use cutesy_core::tokens::{DiagKind, Quote, TextClass, Token};

fn bytes_of(s: &str) -> Vec<u8> {
    s.as_bytes().to_vec()
}

fn plain_config() -> Config {
    Config {
        attribute_order: Vec::new(),
        raw_text_elements: Vec::new(),
        preserve_whitespace_elements: Vec::new(),
        tag_name_case: TagNameCase::Lower,
    }
}

fn script_config() -> Config {
    Config {
        attribute_order: Vec::new(),
        raw_text_elements: vec![bytes_of("script")],
        preserve_whitespace_elements: Vec::new(),
        tag_name_case: TagNameCase::Lower,
    }
}

#[test]
fn self_closing_tag_with_quoted_attribute() {
    let buf = bytes_of("<img src=\"x\"/>");
    let (tokens, diags) = tokenize(&buf, plain_config());
    assert_eq!(tokens.len(), 1);
    assert_eq!(diags.len(), 0);
    match &tokens[0] {
        Token::StartTag(tag) => {
            assert_eq!(tag.name, bytes_of("img"));
            assert!(tag.self_closing);
            assert_eq!(tag.attrs.len(), 1);
            assert_eq!(tag.attrs[0].name, bytes_of("src"));
            assert_eq!(tag.attrs[0].value.as_ref().unwrap(), &bytes_of("x"));
            assert_eq!(tag.attrs[0].quote, Quote::Double);
        },
        _ => panic!("expected a start tag"),
    }
}

#[test]
fn text_with_named_entity_is_recorded_not_rewritten() {
    let buf = bytes_of("foo &amp; bar");
    let (tokens, diags) = tokenize(&buf, plain_config());
    assert_eq!(diags.len(), 0);
    assert_eq!(tokens.len(), 1);
    match &tokens[0] {
        Token::Text(run) => {
            assert_eq!(run.span.start, 0);
            assert_eq!(run.span.end, buf.len());
            assert_eq!(run.class, TextClass::ContainsEntity);
            assert_eq!(run.entities.len(), 1);
            assert_eq!(run.entities[0].offset, 4);
            assert_eq!(run.entities[0].code, 38);
        },
        _ => panic!("expected a text run"),
    }
    // the emitted token carries only the span: the bytes stay as written
    assert_eq!(buf, bytes_of("foo &amp; bar"));
}

#[test]
fn raw_text_ignores_embedded_angle_bracket() {
    let buf = bytes_of("<script>a<b</script>");
    let (tokens, diags) = tokenize(&buf, script_config());
    assert_eq!(diags.len(), 0);
    assert_eq!(tokens.len(), 3);
    match &tokens[0] {
        Token::StartTag(tag) => {
            assert_eq!(tag.name, bytes_of("script"));
            assert!(tag.raw_text);
        },
        _ => panic!("expected a start tag"),
    }
    match &tokens[1] {
        Token::Text(run) => {
            assert_eq!(run.span.start, 8);
            assert_eq!(run.span.end, 11);
            assert_eq!(run.class, TextClass::RawPreserve);
        },
        _ => panic!("expected an opaque text run"),
    }
    match &tokens[2] {
        Token::EndTag(end) => assert_eq!(end.name, bytes_of("script")),
        _ => panic!("expected an end tag"),
    }
}

#[test]
fn unterminated_tag_yields_best_effort_token_and_diagnostic() {
    let buf = bytes_of("<div class=\"x\"");
    let (tokens, diags) = tokenize(&buf, plain_config());
    assert_eq!(tokens.len(), 1);
    match &tokens[0] {
        Token::StartTag(tag) => {
            assert_eq!(tag.name, bytes_of("div"));
            assert_eq!(tag.attrs.len(), 1);
            assert_eq!(tag.attrs[0].name, bytes_of("class"));
            assert_eq!(tag.attrs[0].value.as_ref().unwrap(), &bytes_of("x"));
        },
        _ => panic!("expected a best-effort start tag"),
    }
    assert!(diags.iter().any(|d| d.kind == DiagKind::MalformedTag));
}

#[test]
fn chunked_scan_matches_one_shot_scan_at_every_boundary() {
    let input = "x<div a=\"1\" b>t &lt; u<script>if (a<b) {}</script><!--c--><?p?>&#65;";
    let buf = bytes_of(input);
    let (whole_tokens, whole_diags) = tokenize(&buf, script_config());
    let expected_tokens = format!("{:?}", whole_tokens);
    let expected_diags = format!("{:?}", whole_diags);
    for cut in 0..=buf.len() {
        let mut st = ScanState::new(script_config());
        let first = buf[..cut].to_vec();
        let second = buf[cut..].to_vec();
        st.feed(&first);
        st.feed(&second);
        let (tokens, diags) = st.finish();
        assert_eq!(format!("{:?}", tokens), expected_tokens, "split at {}", cut);
        assert_eq!(format!("{:?}", diags), expected_diags, "split at {}", cut);
    }
}

#[test]
fn chunked_scan_byte_by_byte() {
    let buf = bytes_of("<pre>  a  </pre><!doctype html><![CDATA[x]]>");
    let (whole_tokens, whole_diags) = tokenize(&buf, plain_config());
    let mut st = ScanState::new(plain_config());
    for k in 0..buf.len() {
        let one = vec![buf[k]];
        st.feed(&one);
    }
    let (tokens, diags) = st.finish();
    assert_eq!(format!("{:?}", tokens), format!("{:?}", whole_tokens));
    assert_eq!(format!("{:?}", diags), format!("{:?}", whole_diags));
}

#[test]
fn suspended_partial_tag_waits_for_more_input() {
    let mut st = ScanState::new(plain_config());
    st.feed(&bytes_of("a<di"));
    // the text before the tag is complete; the partial tag is suspended
    assert_eq!(st.tokens.len(), 1);
    assert!(matches!(st.tokens[0], Token::Text(_)));
    st.feed(&bytes_of("v>b"));
    assert_eq!(st.tokens.len(), 2);
    assert!(matches!(st.tokens[1], Token::StartTag(_)));
    let (tokens, diags) = st.finish();
    assert_eq!(tokens.len(), 3);
    assert_eq!(diags.len(), 0);
    match &tokens[1] {
        Token::StartTag(tag) => assert_eq!(tag.name, bytes_of("div")),
        _ => panic!("expected the resumed start tag"),
    }
}

#[test]
fn comment_doctype_cdata_and_pi_tokens() {
    let buf = bytes_of("<!--c--><!DOCTYPE html><![CDATA[v]]><?pi?><!other>");
    let (tokens, diags) = tokenize(&buf, plain_config());
    assert_eq!(diags.len(), 0);
    assert_eq!(tokens.len(), 5);
    assert!(matches!(tokens[0], Token::Comment(_)));
    assert!(matches!(tokens[1], Token::Doctype(_)));
    assert!(matches!(tokens[2], Token::CData(_)));
    assert!(matches!(tokens[3], Token::ProcessingInstruction(_)));
    assert!(matches!(tokens[4], Token::Declaration(_)));
}

#[test]
fn unterminated_comment_is_reported_not_fatal() {
    let buf = bytes_of("<!--never closed");
    let (tokens, diags) = tokenize(&buf, plain_config());
    assert_eq!(tokens.len(), 1);
    assert!(matches!(tokens[0], Token::Comment(_)));
    assert_eq!(diags.len(), 1);
    assert_eq!(diags[0].kind, DiagKind::UnterminatedComment);
    assert_eq!(diags[0].message(), "unterminated comment");
    assert!(!diags[0].is_fatal());
}

#[test]
fn unterminated_raw_text_is_reported() {
    let buf = bytes_of("<script>a<b");
    let (tokens, diags) = tokenize(&buf, script_config());
    assert_eq!(tokens.len(), 2);
    match &tokens[1] {
        Token::Text(run) => assert_eq!(run.class, TextClass::RawPreserve),
        _ => panic!("expected the raw remainder as text"),
    }
    assert!(diags.iter().any(|d| d.kind == DiagKind::UnterminatedRawText));
}

#[test]
fn bare_angle_bracket_stays_literal_text_with_diagnostic() {
    let buf = bytes_of("a < b");
    let (tokens, diags) = tokenize(&buf, plain_config());
    assert_eq!(tokens.len(), 2);
    assert!(matches!(tokens[0], Token::Text(_)));
    match &tokens[1] {
        Token::Text(run) => {
            assert_eq!(run.span.start, 2);
            assert_eq!(run.span.end, 5);
        },
        _ => panic!("expected the bare bracket as text"),
    }
    assert_eq!(diags.len(), 1);
    assert_eq!(diags[0].kind, DiagKind::MalformedTag);
    assert_eq!(diags[0].offset, 2);
}

#[test]
fn quoted_gt_does_not_end_a_tag() {
    let buf = bytes_of("<a title=\"x > y\">");
    let (tokens, diags) = tokenize(&buf, plain_config());
    assert_eq!(diags.len(), 0);
    assert_eq!(tokens.len(), 1);
    match &tokens[0] {
        Token::StartTag(tag) => {
            assert_eq!(tag.attrs.len(), 1);
            assert_eq!(tag.attrs[0].value.as_ref().unwrap(), &bytes_of("x > y"));
        },
        _ => panic!("expected a start tag"),
    }
}

#[test]
fn duplicate_attributes_are_kept_and_flagged() {
    let buf = bytes_of("<a x=\"1\" x=\"2\">");
    let (tokens, diags) = tokenize(&buf, plain_config());
    match &tokens[0] {
        Token::StartTag(tag) => {
            assert_eq!(tag.attrs.len(), 2);
            assert_eq!(tag.attrs[0].value.as_ref().unwrap(), &bytes_of("1"));
            assert_eq!(tag.attrs[1].value.as_ref().unwrap(), &bytes_of("2"));
        },
        _ => panic!("expected a start tag"),
    }
    assert_eq!(diags.len(), 1);
    assert_eq!(diags[0].kind, DiagKind::DuplicateAttribute);
}

#[test]
fn tag_name_case_normalization_is_configurable() {
    let buf = bytes_of("<DIV></DIV>");
    let (tokens, _) = tokenize(&buf, plain_config());
    match &tokens[0] {
        Token::StartTag(tag) => assert_eq!(tag.name, bytes_of("div")),
        _ => panic!("expected a start tag"),
    }
    let preserve = Config {
        attribute_order: Vec::new(),
        raw_text_elements: Vec::new(),
        preserve_whitespace_elements: Vec::new(),
        tag_name_case: TagNameCase::Preserve,
    };
    let (tokens2, _) = tokenize(&buf, preserve);
    match &tokens2[0] {
        Token::StartTag(tag) => assert_eq!(tag.name, bytes_of("DIV")),
        _ => panic!("expected a start tag"),
    }
}

#[test]
fn valueless_and_unquoted_attributes() {
    let buf = bytes_of("<input disabled value=abc>");
    let (tokens, diags) = tokenize(&buf, plain_config());
    assert_eq!(diags.len(), 0);
    match &tokens[0] {
        Token::StartTag(tag) => {
            assert_eq!(tag.attrs.len(), 2);
            assert_eq!(tag.attrs[0].name, bytes_of("disabled"));
            assert!(tag.attrs[0].value.is_none());
            assert_eq!(tag.attrs[1].name, bytes_of("value"));
            assert_eq!(tag.attrs[1].value.as_ref().unwrap(), &bytes_of("abc"));
            assert_eq!(tag.attrs[1].quote, Quote::Unquoted);
        },
        _ => panic!("expected a start tag"),
    }
}

#[test]
fn equals_with_no_name_is_a_diagnostic_not_a_crash() {
    let buf = bytes_of("<a =\"v\" b>");
    let (tokens, diags) = tokenize(&buf, plain_config());
    match &tokens[0] {
        Token::StartTag(tag) => {
            assert_eq!(tag.attrs.len(), 1);
            assert_eq!(tag.attrs[0].name, bytes_of("b"));
        },
        _ => panic!("expected a start tag"),
    }
    assert_eq!(diags.len(), 1);
    assert_eq!(diags[0].kind, DiagKind::MalformedTag);
}

#[test]
fn numeric_entities_decimal_and_hex() {
    let buf = bytes_of("&#65; &#x41; &#0065;");
    let (tokens, _) = tokenize(&buf, plain_config());
    match &tokens[0] {
        Token::Text(run) => {
            assert_eq!(run.entities.len(), 3);
            assert_eq!(run.entities[0].offset, 0);
            assert_eq!(run.entities[0].code, 65);
            assert_eq!(run.entities[1].code, 65);
            assert_eq!(run.entities[2].code, 65);
        },
        _ => panic!("expected a text run"),
    }
}

#[test]
fn unrecognized_ampersand_is_left_alone() {
    let buf = bytes_of("a & b &bogus; &#999999999999;");
    let (tokens, diags) = tokenize(&buf, plain_config());
    assert_eq!(diags.len(), 0);
    match &tokens[0] {
        Token::Text(run) => assert_eq!(run.entities.len(), 0),
        _ => panic!("expected a text run"),
    }
}

#[test]
fn end_tag_offsets_and_spans() {
    let buf = bytes_of("<b>x</b>");
    let (tokens, _) = tokenize(&buf, plain_config());
    assert_eq!(tokens.len(), 3);
    match &tokens[2] {
        Token::EndTag(end) => {
            assert_eq!(end.name, bytes_of("b"));
            assert_eq!(end.span.start, 4);
            assert_eq!(end.span.end, 8);
        },
        _ => panic!("expected an end tag"),
    }
}

#[test]
fn priority_order_applies_after_scan() {
    let buf = bytes_of("<div class=\"b\" id=\"a\">");
    let cfg = Config {
        attribute_order: vec![
            Pattern { text: bytes_of("id"), prefix: false },
            Pattern { text: bytes_of("class"), prefix: false },
        ],
        raw_text_elements: Vec::new(),
        preserve_whitespace_elements: Vec::new(),
        tag_name_case: TagNameCase::Lower,
    };
    let (tokens, _) = tokenize(&buf, cfg.clone());
    match &tokens[0] {
        Token::StartTag(tag) => {
            let sorted = cutesy_core::attrsort::sort_tag_attrs(&cfg, tag);
            assert_eq!(sorted.attrs.len(), 2);
            assert_eq!(sorted.attrs[0].name, bytes_of("id"));
            assert_eq!(sorted.attrs[0].value.as_ref().unwrap(), &bytes_of("a"));
            assert_eq!(sorted.attrs[1].name, bytes_of("class"));
            assert_eq!(sorted.attrs[1].value.as_ref().unwrap(), &bytes_of("b"));
        },
        _ => panic!("expected a start tag"),
    }
}
