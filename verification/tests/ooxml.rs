use docray::lean::escape_text;
use docray::error::ExtractError;
use docray::relationships::{relationships, rels_path, resolve_target};
use docray::strmap::StrMap;
use docray::theme::{apply_word_tint_shade, parse_hex_byte, parse_hex_color, Theme};
use docray::xml::{
    decode_predefined_entities, decode_reference, local_name, parse, parse_with_limits,
    preprocess_alternate_content, Node,
};

fn parsed(xml: &str) -> Node {
    parse(xml.as_bytes(), "test.xml").unwrap()
}

fn failure_message(result: Result<Node, ExtractError>) -> String {
    match result {
        Err(ExtractError::ParseFailure(message)) => message,
        Err(_) => panic!("expected parse_failure"),
        Ok(_) => panic!("expected an error"),
    }
}

#[test]
fn node_count_over_limit_is_a_parse_failure_not_a_panic() {
    let mut xml = String::from("<root>");
    for _ in 0..50 {
        xml.push_str("<a/>");
    }
    xml.push_str("</root>");
    let message = failure_message(parse_with_limits(xml.as_bytes(), "test.xml", 8));
    assert!(message.contains("element count limit exceeded"), "{message}");
}

#[test]
fn node_count_at_limit_parses() {
    let node = parse_with_limits(b"<root><a/><a/><a/><a/></root>", "test.xml", 5).unwrap();
    assert_eq!(node.local_name(), "root");
    assert_eq!(node.children.len(), 4);
}

#[test]
fn namespace_lookups_resolve_in_scope_prefixes() {
    let root = parse(
        br#"<w:document xmlns:w="urn:word" xmlns:r="urn:rels"><w:body><w:p r:id="rId1"/><other:p r:id="wrong" xmlns:other="urn:other"/></w:body></w:document>"#,
        "test.xml",
    )
    .unwrap();
    let body = root.child_ns("urn:word", "body").unwrap();
    let paragraph = body.child_ns("urn:word", "p").unwrap();
    assert_eq!(paragraph.namespace_uri(), Some("urn:word"));
    assert_eq!(paragraph.attr_ns("urn:rels", "id"), Some("rId1"));
    assert!(body.child_ns("urn:missing", "p").is_none());
}

#[test]
fn parse_errors_name_the_part() {
    assert_eq!(
        failure_message(parse(b"<a><b></b>", "word/x.xml")),
        "word/x.xml: unclosed XML element"
    );
    assert_eq!(
        failure_message(parse(b"<a/><b/>", "p.xml")),
        "p.xml: XML document has multiple root elements"
    );
    assert_eq!(
        failure_message(parse(b"", "p.xml")),
        "p.xml: XML document has no root element"
    );
    assert!(failure_message(parse(b"<a></b>", "p.xml")).starts_with("p.xml: malformed XML: "));
    assert!(failure_message(parse(b"<a x=\"1\" x=\"2\"/>", "p.xml"))
        .starts_with("p.xml: invalid XML attribute: "));
}

#[test]
fn nesting_deeper_than_the_limit_fails() {
    let mut xml = String::new();
    for _ in 0..257 {
        xml.push_str("<a>");
    }
    for _ in 0..257 {
        xml.push_str("</a>");
    }
    assert_eq!(
        failure_message(parse(xml.as_bytes(), "deep.xml")),
        "deep.xml: XML nesting depth limit exceeded"
    );
    let mut ok = String::new();
    for _ in 0..256 {
        ok.push_str("<a>");
    }
    for _ in 0..256 {
        ok.push_str("</a>");
    }
    assert!(parse(ok.as_bytes(), "deep.xml").is_ok());
}

#[test]
fn text_references_and_cdata_are_decoded() {
    let root = parsed("<r>a &amp; b &#x41;&#66; &unknown; <![CDATA[<c>]]></r>");
    assert_eq!(root.text, "a & b AB &unknown; <c>");
}

#[test]
fn entity_helpers() {
    assert_eq!(decode_predefined_entities("&lt;x&gt; &quot;&apos; &amp;lt;"), "<x> \"' &lt;");
    assert_eq!(decode_reference("lt"), "<");
    assert_eq!(decode_reference("#x263A"), "\u{263A}");
    assert_eq!(decode_reference("#65"), "A");
    assert_eq!(decode_reference("#xD800"), "&#xD800;");
    assert_eq!(decode_reference("#99999999999"), "&#99999999999;");
    assert_eq!(decode_reference("nbsp"), "&nbsp;");
}

#[test]
fn local_names_drop_the_prefix() {
    assert_eq!(local_name("w:p"), "p");
    assert_eq!(local_name("a:b:c"), "c");
    assert_eq!(local_name("plain"), "plain");
}

#[test]
fn attributes_match_exactly_then_by_local_name_in_name_order() {
    let root = parsed(r#"<e xmlns:b="urn:b" xmlns:a="urn:a" b:val="2" a:val="1" other="3"/>"#);
    assert_eq!(root.attr("other"), Some("3"));
    assert_eq!(root.attr("val"), Some("1"));
    assert_eq!(root.attr("b:val"), Some("2"));
    assert_eq!(root.attr("missing"), None);
    assert_eq!(root.attr_ns("urn:b", "val"), Some("2"));
    assert_eq!(root.namespace_uri_for_prefix("a"), Some("urn:a"));
    assert_eq!(root.namespace_uri_for_prefix("xml"), Some("http://www.w3.org/XML/1998/namespace"));
}

#[test]
fn default_namespace_applies_to_elements_not_attributes() {
    let root = parsed(r#"<e xmlns="urn:d" x="1"><inner xmlns=""/></e>"#);
    assert_eq!(root.namespace_uri(), Some("urn:d"));
    assert_eq!(root.attr_ns("urn:d", "x"), None);
    assert_eq!(root.children[0].namespace_uri(), None);
}

#[test]
fn descendants_are_in_document_order() {
    let root = parsed("<r><a id=\"1\"><a id=\"2\"/></a><b><a id=\"3\"/></b></r>");
    let found: Vec<&str> = root.descendants("a").iter().map(|n| n.attr("id").unwrap()).collect();
    assert_eq!(found, vec!["1", "2", "3"]);
    assert_eq!(root.first_descendant("a").unwrap().attr("id"), Some("1"));
    assert!(root.first_descendant("zzz").is_none());
    assert_eq!(root.children_named("b").len(), 1);
    assert_eq!(root.child("b").unwrap().children.len(), 1);
}

const MC: &str = "http://schemas.openxmlformats.org/markup-compatibility/2006";

#[test]
fn alternate_content_keeps_exactly_one_branch() {
    let xml = format!(
        r#"<r xmlns:mc="{MC}" xmlns:x="urn:x"><mc:AlternateContent><mc:Choice Requires="x"><c/></mc:Choice><mc:Fallback><f/></mc:Fallback></mc:AlternateContent></r>"#
    );
    let root = parsed(&xml);
    let mut warnings = Vec::new();
    let chosen = preprocess_alternate_content(&root, &["urn:x"], 32, &mut warnings);
    assert_eq!(chosen.children.len(), 1);
    assert_eq!(chosen.children[0].local_name(), "c");
    let fallback = preprocess_alternate_content(&root, &["urn:other"], 32, &mut warnings);
    assert_eq!(fallback.children.len(), 1);
    assert_eq!(fallback.children[0].local_name(), "f");
    assert!(warnings.is_empty());
}

#[test]
fn alternate_content_without_branch_or_too_deep_is_skipped_with_warning() {
    let xml = format!(r#"<r xmlns:mc="{MC}"><mc:AlternateContent><mc:Choice Requires="q"/></mc:AlternateContent></r>"#);
    let root = parsed(&xml);
    let mut warnings = Vec::new();
    let result = preprocess_alternate_content(&root, &[], 32, &mut warnings);
    assert!(result.children.is_empty());
    assert_eq!(
        warnings,
        vec!["markup-compatibility AlternateContent has no supported Choice or Fallback; subtree skipped"]
    );
    let mut deep = Vec::new();
    let result = preprocess_alternate_content(&root, &[], 0, &mut deep);
    assert!(result.children.is_empty());
    assert_eq!(deep, vec!["markup-compatibility nesting depth limit 0 exceeded; subtree skipped"]);
}

#[test]
fn relationships_are_read_by_id() {
    let rels = br#"<Relationships xmlns="urn:rel"><Relationship Id="rId2" Type="http://x/image" Target="media/a.png"/><Relationship Id="rId1" Type="http://x/styles" Target="styles.xml"/><Relationship Id="rId3" Type="http://x/hyperlink" Target="http://example.com" TargetMode="External"/></Relationships>"#;
    let parsed = relationships(Some(&rels[..]), "word/document.xml").unwrap();
    assert_eq!(parsed.get("rId2").unwrap().target, "media/a.png");
    assert!(parsed.get("rId3").unwrap().external);
    assert!(parsed.get("rId9").is_none());
    assert_eq!(parsed.first_internal_type("styles").unwrap().target, "styles.xml");
    assert!(parsed.first_internal_type("hyperlink").is_none());
    let none = relationships(None, "word/document.xml").unwrap();
    assert!(none.get("rId1").is_none());
}

#[test]
fn rels_paths_sit_beside_their_part() {
    assert_eq!(rels_path("word/document.xml"), "word/_rels/document.xml.rels");
    assert_eq!(rels_path("document.xml"), "_rels/document.xml.rels");
}

#[test]
fn targets_resolve_relative_to_their_part() {
    assert_eq!(resolve_target("word/document.xml", "media/a.png").unwrap(), "word/media/a.png");
    assert_eq!(resolve_target("word/document.xml", "../media/a.png").unwrap(), "media/a.png");
    assert_eq!(resolve_target("word/document.xml", "/word/x.xml#frag").unwrap(), "word/x.xml");
    assert_eq!(resolve_target("word/document.xml", ".\\media\\b.png").unwrap(), "word/media/b.png");
    match resolve_target("word/document.xml", "../../x") {
        Err(ExtractError::ParseFailure(message)) => assert_eq!(
            message,
            "relationship target escapes the package root: \"../../x\""
        ),
        _ => panic!("expected parse_failure"),
    }
}

#[test]
fn hex_colors_and_bytes() {
    assert_eq!(parse_hex_color("FF8000"), Some([255, 128, 0]));
    assert_eq!(parse_hex_color("ff80"), None);
    assert_eq!(parse_hex_color("GG0000"), None);
    assert_eq!(parse_hex_byte("80"), Some(128));
    assert_eq!(parse_hex_byte("+f"), Some(15));
    assert_eq!(parse_hex_byte("800"), None);
    assert_eq!(apply_word_tint_shade([200, 100, 0], None, Some("80")), [100, 50, 0]);
    assert_eq!(apply_word_tint_shade([0, 0, 0], Some("FF"), None), [255, 255, 255]);
    assert_eq!(apply_word_tint_shade([10, 20, 30], None, None), [10, 20, 30]);
}

#[test]
fn themes_resolve_colors_and_fonts() {
    let theme_xml = r#"<a:theme xmlns:a="urn:a"><a:themeElements><a:clrScheme><a:accent1><a:srgbClr val="112233"/></a:accent1><a:dk1><a:sysClr val="windowText" lastClr="000000"/></a:dk1></a:clrScheme><a:fontScheme><a:majorFont><a:latin typeface="Major"/><a:ea typeface=""/></a:majorFont><a:minorFont><a:latin typeface="Minor"/></a:minorFont></a:fontScheme></a:themeElements></a:theme>"#;
    let theme = Theme::from_xml(&parsed(theme_xml));
    assert_eq!(theme.color("accent1"), Some([0x11, 0x22, 0x33]));
    assert_eq!(theme.color("dk1"), Some([0, 0, 0]));
    assert_eq!(theme.color("accent2"), None);
    assert_eq!(theme.font("+mj-lt"), "Major");
    assert_eq!(theme.font("+mj-ea"), "Major");
    assert_eq!(theme.font("+mn-cs"), "Minor");
    assert_eq!(theme.font("Courier"), "Courier");
    assert_eq!(theme.word_font("majorHAnsi"), Some("Major".to_string()));
    assert_eq!(theme.word_font("minorBidi"), Some("Minor".to_string()));
    assert_eq!(theme.word_font("other"), None);
    assert_eq!(theme.word_color(Some("auto"), None, None, None), None);
    assert_eq!(theme.word_color(Some("FF0000"), Some("accent1"), None, None), Some([0x11, 0x22, 0x33]));
    assert_eq!(theme.word_color(Some("FF0000"), None, None, Some("80")), Some([128, 0, 0]));
    let empty = Theme::from_xml(&parsed("<t/>"));
    assert_eq!(empty.font("+mj-lt"), "Arial");
}

#[test]
fn string_maps_keep_one_value_per_key() {
    let mut map: StrMap<u32> = StrMap::new();
    map.insert("b".to_string(), 2);
    map.insert("a".to_string(), 1);
    map.insert("b".to_string(), 3);
    assert_eq!(map.get("b"), Some(&3));
    assert_eq!(map.get("a"), Some(&1));
    assert_eq!(map.entries.len(), 2);
    assert_eq!(map.entries[0].0, "a");
    map.remove("a");
    assert!(!map.contains_key("a"));
    assert!(map.contains_key("b"));
}

#[test]
fn escaped_texts_stay_distinct() {
    let samples = ["a\nb", "a\\nb", "a\\\\nb", "\u{1}", "\\u{1}", "x\u{2028}", "x\\u{2028}", ""];
    for (i, a) in samples.iter().enumerate() {
        for (j, b) in samples.iter().enumerate() {
            assert_eq!(escape_text(a) == escape_text(b), i == j);
        }
    }
}

#[test]
fn resolved_targets_have_only_clean_segments() {
    let p = resolve_target("word/document.xml", "./media/../media//image1.png").unwrap();
    assert_eq!(p, "word/media/image1.png");
    for seg in p.split('/') {
        assert!(!seg.is_empty() && seg != "." && seg != "..");
    }
}

#[test]
fn attribute_lookup_takes_the_least_prefixed_name() {
    let n = parsed(r#"<a x:id="1" y:id="2" z="3"/>"#);
    assert_eq!(n.attr("id"), Some("1"));
    assert_eq!(n.attr("y:id"), Some("2"));
    assert_eq!(n.attr("z"), Some("3"));
    assert_eq!(n.attr("q"), None);
}

#[test]
fn first_internal_type_takes_the_least_id() {
    let rels_xml = br#"<Relationships xmlns="http://schemas.openxmlformats.org/package/2006/relationships"><Relationship Id="rId9" Type="http://x/header" Target="header2.xml"/><Relationship Id="rId10" Type="http://x/header" Target="header1.xml"/><Relationship Id="rId1" Type="http://x/header" Target="https://e.test/h.xml" TargetMode="External"/></Relationships>"#;
    let rels = relationships(Some(rels_xml), "word/document.xml").unwrap();
    assert_eq!(rels.first_internal_type("header").unwrap().target, "header1.xml");
    assert!(rels.first_internal_type("footer").is_none());
}

#[test]
fn documents_without_alternates_are_unchanged() {
    let root = parsed(r#"<w:document xmlns:w="http://schemas.openxmlformats.org/wordprocessingml/2006/main"><w:body><w:p><w:r><w:t>x</w:t></w:r></w:p></w:body></w:document>"#);
    let mut warnings = Vec::new();
    let out = preprocess_alternate_content(&root, &[], 32, &mut warnings);
    assert!(warnings.is_empty());
    assert_eq!(out.name, root.name);
    assert_eq!(out.children.len(), root.children.len());
    assert_eq!(out.children[0].children[0].children[0].children[0].text, "x");
}
