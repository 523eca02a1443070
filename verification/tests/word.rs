use docray::capabilities::{check_granularity, GeometryKind};
use docray::docx::{
    alternative_text, collect_inline_events, comments_from_root, content_hash, hex,
    metadata_from_root, placement_frame, serialize_refs, source_format, visible_descendant_text,
    DocxExtractor, FieldMachine, IdAllocator, InlineEvent, NoteKind,
};
use docray::granularity::Granularity;
use docray::model::{BreakKind, ListKind, PlacementFrame};
use docray::numbering::{format_number, letters, roman, Counters, Numbering};
use docray::relationships::relationships;
use docray::styles::{normalize_name, RunProps, Styles};
use docray::theme::Theme;
use docray::xml::{parse, Node};

fn parsed(xml: &str) -> Node {
    parse(xml.as_bytes(), "test.xml").unwrap()
}

#[test]
fn capabilities_are_element_only_flow() {
    let capabilities = DocxExtractor.capabilities();
    assert_eq!(capabilities.finest_granularity, Granularity::Element);
    assert_eq!(capabilities.geometry, GeometryKind::Flow);
    assert!(check_granularity(&capabilities, None).is_err());
    assert!(check_granularity(&capabilities, Some(Granularity::Word)).is_err());
    assert_eq!(check_granularity(&capabilities, Some(Granularity::Element)), Ok(()));
}

#[test]
fn content_hashes_are_sha256_hex() {
    assert_eq!(
        content_hash(b"abc"),
        "ba7816bf8f01cfea414140de5dae2223b00361a396177a9cb410ff61f20015ad"
    );
    assert_eq!(hex(&[0x00, 0x0f, 0xa0, 0xff]), "000fa0ff");
}

#[test]
fn block_ids_count_up_under_their_prefix() {
    let mut ids = IdAllocator::new("s0-b".to_string());
    assert_eq!(ids.peek(), "s0-b0");
    assert_eq!(ids.next(), "s0-b0");
    assert_eq!(ids.next(), "s0-b1");
    assert_ne!(ids.peek(), "s0-b0");
}

#[test]
fn fields_hide_instructions_and_show_results() {
    let mut fields = FieldMachine::new();
    let mut hidden = Vec::new();
    let mut warnings = Vec::new();
    assert!(fields.visible());
    fields.begin(&mut warnings);
    assert!(!fields.visible());
    fields.instruction(" PAGE ", "b0", &mut hidden, &mut warnings);
    fields.instruction("\\* MERGEFORMAT", "b0", &mut hidden, &mut warnings);
    assert_eq!(hidden.len(), 1);
    assert_eq!(hidden[0].content, "PAGE \\* MERGEFORMAT");
    fields.separate("b0", &mut hidden, &mut warnings);
    assert!(fields.visible());
    fields.end("b0", &mut hidden, &mut warnings);
    assert!(fields.visible());
    assert_eq!(hidden.len(), 1);
    assert!(warnings.is_empty());
}

#[test]
fn field_faults_warn() {
    let mut fields = FieldMachine::new();
    let mut hidden = Vec::new();
    let mut warnings = Vec::new();
    fields.end("b0", &mut hidden, &mut warnings);
    fields.separate("b0", &mut hidden, &mut warnings);
    fields.instruction("X", "b0", &mut hidden, &mut warnings);
    fields.begin(&mut warnings);
    fields.end("b1", &mut hidden, &mut warnings);
    fields.begin(&mut warnings);
    fields.finish(&mut warnings);
    assert_eq!(
        warnings,
        vec![
            "field end appeared without a matching begin",
            "field separator appeared without a matching begin",
            "field instruction appeared outside a field; instruction hidden",
            "field ended without a result separator; instruction hidden",
            "story ended with 1 unclosed field level(s); instructions hidden",
        ]
    );
    assert_eq!(hidden.len(), 1);
    assert!(fields.visible());
}

#[test]
fn fields_nested_past_the_limit_are_suppressed() {
    let mut fields = FieldMachine::new();
    let mut warnings = Vec::new();
    for _ in 0..17 {
        fields.begin(&mut warnings);
    }
    assert_eq!(fields.stack.len(), 16);
    assert_eq!(fields.overflow, 1);
    assert_eq!(warnings, vec!["field nesting depth limit 16 exceeded; nested field suppressed"]);
}

const W: &str = r#"xmlns:w="urn:w""#;

#[test]
fn inline_events_follow_document_order() {
    let p = parsed(&format!(
        r#"<w:p {W}><w:pPr/><w:r><w:rPr><w:b/></w:rPr><w:t>Hi</w:t><w:tab/><w:br w:type="page"/><w:br/></w:r><w:del><w:r><w:delText>gone</w:delText></w:r></w:del><w:ins><w:r><w:t>new</w:t></w:r></w:ins><w:r><w:fldChar w:fldCharType="begin"/><w:instrText>PAGE</w:instrText><w:fldChar w:fldCharType="odd"/><w:footnoteReference w:id="3"/></w:r><w:hyperlink w:anchor="top"><w:r><w:t>link</w:t></w:r></w:hyperlink></w:p>"#
    ));
    let rels = relationships(None, "word/document.xml").unwrap();
    let mut events = Vec::new();
    let mut warnings = Vec::new();
    for child in &p.children {
        if child.local_name() != "pPr" {
            collect_inline_events(child, &rels, None, &mut events, &mut warnings);
        }
    }
    let mut texts = Vec::new();
    let mut hidden = Vec::new();
    let mut kinds = Vec::new();
    for event in &events {
        match event {
            InlineEvent::Text { content, properties, href } => {
                texts.push((content.clone(), properties.is_some(), href.clone()))
            }
            InlineEvent::Hidden { kind, content } => hidden.push((kind.clone(), content.clone())),
            InlineEvent::Break(BreakKind::Page) => kinds.push("page"),
            InlineEvent::FieldBegin => kinds.push("begin"),
            InlineEvent::Instruction(i) => {
                assert_eq!(i, "PAGE");
                kinds.push("instr")
            }
            InlineEvent::Note(NoteKind::Footnote, id) => {
                assert_eq!(id, "3");
                kinds.push("note")
            }
            _ => kinds.push("other"),
        }
    }
    assert_eq!(
        texts,
        vec![
            ("Hi".to_string(), true, None),
            ("\t".to_string(), true, None),
            ("\n".to_string(), true, None),
            ("new".to_string(), false, None),
            ("link".to_string(), false, Some("#top".to_string())),
        ]
    );
    assert_eq!(
        hidden,
        vec![
            ("tracked-delete".to_string(), "gone".to_string()),
            ("tracked-insert".to_string(), "new".to_string()),
        ]
    );
    assert_eq!(kinds, vec!["page", "begin", "instr", "note"]);
    assert_eq!(warnings, vec!["field character has an unknown type"]);
}

#[test]
fn visible_text_skips_instructions() {
    let p = parsed(&format!(
        r#"<w:p {W}><w:r><w:t>a</w:t><w:instrText>HIDDEN</w:instrText><w:delText>b</w:delText></w:r></w:p>"#
    ));
    assert_eq!(visible_descendant_text(&p), "ab");
}

#[test]
fn section_references_serialize_one_per_line() {
    let sect = parsed(&format!(
        r#"<w:sectPr {W} xmlns:r="urn:r"><w:headerReference w:type="first" r:id="rId1"/><w:pgSz/><w:footerReference r:id="rId2"/><w:headerReference/></w:sectPr>"#
    ));
    assert_eq!(serialize_refs(&sect), "headerReference|first|rId1\nfooterReference|default|rId2");
}

#[test]
fn placement_frames_and_alternative_text() {
    assert_eq!(placement_frame("page"), PlacementFrame::Page);
    assert_eq!(placement_frame("leftMargin"), PlacementFrame::Margin);
    assert_eq!(placement_frame("column"), PlacementFrame::Column);
    assert_eq!(placement_frame("line"), PlacementFrame::Line);
    assert_eq!(placement_frame("character"), PlacementFrame::Paragraph);
    let drawing = parsed(r#"<d><inline><docPr descr="" title="A chart"/></inline></d>"#);
    assert_eq!(alternative_text(&drawing), Some("A chart".to_string()));
    let shape = parsed(r#"<pict><shape alt="Logo"/></pict>"#);
    assert_eq!(alternative_text(&shape), Some("Logo".to_string()));
    assert_eq!(alternative_text(&parsed("<x/>")), None);
}

#[test]
fn core_properties_give_title_and_author() {
    let core = parsed(r#"<cp xmlns:dc="urn:dc"><dc:title>Report</dc:title><dc:creator></dc:creator></cp>"#);
    let metadata = metadata_from_root(&core);
    assert_eq!(metadata.title, Some("Report".to_string()));
    assert_eq!(metadata.author, None);
}

#[test]
fn comments_join_their_paragraphs() {
    let root = parsed(&format!(
        r#"<w:comments {W}><w:comment w:id="0"><w:p><w:r><w:t>one</w:t></w:r></w:p><w:p/><w:p><w:r><w:t>two</w:t></w:r></w:p></w:comment></w:comments>"#
    ));
    let comments = comments_from_root(&root);
    assert_eq!(comments.get("0"), Some(&"one\ntwo".to_string()));
}

#[test]
fn macro_enabled_content_types_mean_docm() {
    assert_eq!(source_format(None).unwrap(), "docx");
    assert_eq!(
        source_format(Some(b"<Types><Override ContentType=\"application/vnd.ms-word.document.macroEnabled.main+xml\"/></Types>")).unwrap(),
        "docm"
    );
    assert_eq!(source_format(Some(b"<Types/>")).unwrap(), "docx");
    assert!(source_format(Some(&[0xff, 0xfe])).is_err());
}

#[test]
fn list_labels_in_every_format() {
    let mut warnings = Vec::new();
    assert_eq!(letters(1, false), "a");
    assert_eq!(letters(27, true), "AA");
    assert_eq!(letters(0, false), "0");
    assert_eq!(roman(1994), "MCMXCIV");
    assert_eq!(roman(4000), "4000");
    assert_eq!(format_number(4, "lowerRoman", &mut warnings), "iv");
    assert_eq!(format_number(3, "bullet", &mut warnings), "•");
    assert!(warnings.is_empty());
    assert_eq!(format_number(7, "chicago", &mut warnings), "7");
    assert_eq!(warnings, vec!["unsupported numbering format \"chicago\"; decimal fallback used"]);
}

const NUMBERING: &str = r#"<w:numbering xmlns:w="urn:w"><w:abstractNum w:abstractNumId="0"><w:lvl w:ilvl="0"><w:start w:val="1"/><w:numFmt w:val="decimal"/><w:lvlText w:val="%1."/></w:lvl><w:lvl w:ilvl="1"><w:start w:val="1"/><w:numFmt w:val="lowerLetter"/><w:lvlText w:val="%1.%2)"/></w:lvl></w:abstractNum><w:abstractNum w:abstractNumId="1"><w:lvl w:ilvl="0"><w:numFmt w:val="bullet"/><w:lvlText w:val="-"/></w:lvl></w:abstractNum><w:num w:numId="1"><w:abstractNumId w:val="0"/></w:num><w:num w:numId="2"><w:abstractNumId w:val="0"/><w:lvlOverride w:ilvl="0"><w:startOverride w:val="5"/></w:lvlOverride></w:num><w:num w:numId="3"><w:abstractNumId w:val="1"/></w:num></w:numbering>"#;

#[test]
fn list_counters_advance_and_restart() {
    let root = parsed(NUMBERING);
    let numbering = Numbering::from_xml(Some(&root));
    let mut counters = Counters::new();
    let mut warnings = Vec::new();
    let mut label = |num: &str, level: u32, counters: &mut Counters, warnings: &mut Vec<String>| {
        numbering.next(counters, num, level, warnings).unwrap().info.label
    };
    assert_eq!(label("1", 0, &mut counters, &mut warnings), "1.");
    assert_eq!(label("1", 1, &mut counters, &mut warnings), "1.a)");
    assert_eq!(label("1", 1, &mut counters, &mut warnings), "1.b)");
    assert_eq!(label("1", 0, &mut counters, &mut warnings), "2.");
    assert_eq!(label("1", 1, &mut counters, &mut warnings), "2.a)");
    assert_eq!(label("2", 0, &mut counters, &mut warnings), "5.");
    assert!(warnings.is_empty());
    let bullet = numbering.next(&mut counters, "3", 0, &mut warnings).unwrap();
    assert_eq!(bullet.info.kind, ListKind::Bullet);
    assert_eq!(bullet.info.list_id, "3");
    assert!(numbering.next(&mut counters, "9", 0, &mut warnings).is_none());
    assert_eq!(warnings, vec!["numbering instance \"9\" is missing"]);
}

#[test]
fn missing_levels_warn() {
    let root = parsed(NUMBERING);
    let numbering = Numbering::from_xml(Some(&root));
    let mut counters = Counters::new();
    let mut warnings = Vec::new();
    assert!(numbering.next(&mut counters, "3", 4, &mut warnings).is_none());
    assert_eq!(warnings, vec!["numbering level 4 is missing from abstract definition \"1\""]);
}

const STYLES: &str = r#"<w:styles xmlns:w="urn:w"><w:docDefaults><w:rPrDefault><w:rPr><w:rFonts w:ascii="Base"/></w:rPr></w:rPrDefault></w:docDefaults><w:style w:type="paragraph" w:styleId="Heading1"><w:name w:val="heading 1"/><w:basedOn w:val="Normal"/><w:pPr><w:outlineLvl w:val="0"/></w:pPr><w:rPr><w:b/></w:rPr></w:style><w:style w:type="paragraph" w:styleId="Normal"><w:name w:val="Normal"/></w:style><w:style w:type="paragraph" w:styleId="Quote"><w:name w:val="Intense Quote"/></w:style><w:style w:type="paragraph" w:styleId="A"><w:basedOn w:val="B"/></w:style><w:style w:type="paragraph" w:styleId="B"><w:basedOn w:val="A"/></w:style></w:styles>"#;

#[test]
fn paragraph_styles_resolve_roles_and_layers() {
    let styles = Styles::from_xml(Some(&parsed(STYLES)));
    let mut warnings = Vec::new();
    let ppr = parsed(r#"<w:pPr xmlns:w="urn:w"><w:pStyle w:val="Heading1"/></w:pPr>"#);
    let heading = styles.paragraph(Some(&ppr), &mut warnings);
    assert_eq!(heading.role, "h1");
    assert_eq!(heading.layers.len(), 3);
    let quote_ppr = parsed(r#"<w:pPr xmlns:w="urn:w"><w:pStyle w:val="Quote"/></w:pPr>"#);
    assert_eq!(styles.paragraph(Some(&quote_ppr), &mut warnings).role, "quote");
    assert_eq!(styles.paragraph(None, &mut warnings).role, "body");
    assert!(warnings.is_empty());
    let theme = Theme::from_xml(&parsed("<t/>"));
    let direct = parsed(r#"<w:rPr xmlns:w="urn:w"><w:b/></w:rPr>"#);
    let run = styles.resolve_run(&heading, None, Some(&direct), &theme, &mut warnings);
    assert_eq!(run.name, "Base");
    assert!(!run.bold, "style bold and direct bold toggle off");
    assert_eq!(run.fill, Some([0, 0, 0]));
    let plain = styles.resolve_run(&heading, Some(&RunProps::empty()), None, &theme, &mut warnings);
    assert!(plain.bold);
}

#[test]
fn style_cycles_and_missing_styles_warn() {
    let styles = Styles::from_xml(Some(&parsed(STYLES)));
    let mut warnings = Vec::new();
    let chain = styles.chain("A", Some("paragraph"), &mut warnings);
    assert_eq!(chain.len(), 2);
    assert_eq!(warnings, vec!["style basedOn cycle detected at \"A\""]);
    let mut missing = Vec::new();
    assert!(styles.chain("Nope", None, &mut missing).is_empty());
    assert_eq!(missing, vec!["referenced style \"Nope\" is missing"]);
    let mut typed = Vec::new();
    styles.chain("Normal", Some("character"), &mut typed);
    assert_eq!(typed, vec!["style \"Normal\" has type \"paragraph\", expected character"]);
}

#[test]
fn style_names_normalize() {
    assert_eq!(normalize_name("Intense Quote"), "intensequote");
    assert_eq!(normalize_name("Ti-tle 1"), "title1");
}
