use docray::docx::DocxExtractor;
use docray::error::ExtractError;
use docray::flow::{Block, FlowExtraction, Font, Length};
use docray::model::{BreakKind, ListKind};
use docray::story::{collect_numerals, NumberReading, Numbers};
use std::io::{Cursor, Write};
use zip::write::SimpleFileOptions;
use zip::ZipWriter;
use docray::strmap::StrMap;
use docray::xml::parse;

const W: &str = "http://schemas.openxmlformats.org/wordprocessingml/2006/main";
const R: &str = "http://schemas.openxmlformats.org/officeDocument/2006/relationships";
const MC: &str = "http://schemas.openxmlformats.org/markup-compatibility/2006";
const WPS: &str = "http://schemas.microsoft.com/office/word/2010/wordprocessingShape";

const STYLES: &str = r#"<w:styles xmlns:w="http://schemas.openxmlformats.org/wordprocessingml/2006/main"><w:docDefaults><w:rPrDefault><w:rPr><w:rFonts w:asciiTheme="minorHAnsi"/><w:sz w:val="22"/><w:color w:themeColor="accent1"/></w:rPr></w:rPrDefault></w:docDefaults><w:style w:type="paragraph" w:styleId="BoldBase"><w:name w:val="Bold Base"/><w:rPr><w:b/><w:rFonts w:asciiTheme="majorHAnsi"/></w:rPr></w:style><w:style w:type="paragraph" w:styleId="Child"><w:name w:val="Child"/><w:basedOn w:val="BoldBase"/><w:rPr><w:i/><w:sz w:val="28"/></w:rPr></w:style><w:style w:type="paragraph" w:styleId="Heading1"><w:name w:val="Heading 1"/><w:pPr><w:outlineLvl w:val="0"/></w:pPr></w:style><w:style w:type="paragraph" w:styleId="Heading2"><w:name w:val="Heading 2"/><w:pPr><w:outlineLvl w:val="1"/></w:pPr></w:style><w:style w:type="paragraph" w:styleId="Title"><w:name w:val="Title"/></w:style><w:style w:type="paragraph" w:styleId="Quote"><w:name w:val="Intense Quote"/></w:style><w:style w:type="paragraph" w:styleId="PageBreak"><w:name w:val="Page Break"/><w:pPr><w:pageBreakBefore/></w:pPr></w:style></w:styles>"#;

const NUMBERING: &str = r#"<w:numbering xmlns:w="http://schemas.openxmlformats.org/wordprocessingml/2006/main"><w:abstractNum w:abstractNumId="1"><w:lvl w:ilvl="0"><w:start w:val="1"/><w:numFmt w:val="decimal"/><w:lvlText w:val="%1."/><w:rPr><w:i/></w:rPr></w:lvl><w:lvl w:ilvl="1"><w:start w:val="1"/><w:numFmt w:val="lowerLetter"/><w:lvlText w:val="%1.%2)"/></w:lvl><w:lvl w:ilvl="2"><w:start w:val="1"/><w:numFmt w:val="upperRoman"/><w:lvlText w:val="%1.%2.%3."/><w:lvlRestart w:val="0"/></w:lvl></w:abstractNum><w:abstractNum w:abstractNumId="2"><w:lvl w:ilvl="0"><w:start w:val="1"/><w:numFmt w:val="bullet"/><w:lvlText w:val="x"/><w:lvlPicBulletId w:val="7"/></w:lvl></w:abstractNum><w:num w:numId="10"><w:abstractNumId w:val="1"/></w:num><w:num w:numId="11"><w:abstractNumId w:val="1"/><w:lvlOverride w:ilvl="0"><w:startOverride w:val="3"/></w:lvlOverride></w:num><w:num w:numId="12"><w:abstractNumId w:val="2"/></w:num></w:numbering>"#;

const THEME: &str = r#"<a:theme xmlns:a="http://schemas.openxmlformats.org/drawingml/2006/main"><a:themeElements><a:clrScheme name="Fixture"><a:dk1><a:srgbClr val="000000"/></a:dk1><a:accent1><a:srgbClr val="336699"/></a:accent1></a:clrScheme><a:fontScheme name="Fixture"><a:majorFont><a:latin typeface="Fixture Serif"/><a:cs typeface="Fixture Arabic"/></a:majorFont><a:minorFont><a:latin typeface="Fixture Sans"/><a:cs typeface="Fixture Arabic Sans"/></a:minorFont></a:fontScheme></a:themeElements></a:theme>"#;

const CORE: &str = r#"<cp:coreProperties xmlns:cp="http://schemas.openxmlformats.org/package/2006/metadata/core-properties" xmlns:dc="http://purl.org/dc/elements/1.1/"><dc:title>DOCX fixture</dc:title><dc:creator>Fixture Author</dc:creator></cp:coreProperties>"#;

fn document(body: &str) -> String {
    format!(
        r#"<?xml version="1.0"?><w:document xmlns:w="{W}" xmlns:r="{R}" xmlns:mc="{MC}" xmlns:wps="{WPS}" xmlns:v="urn:schemas-microsoft-com:vml"><w:body>{body}</w:body></w:document>"#
    )
}

fn p(text: &str) -> String {
    format!(r#"<w:p><w:r><w:t>{text}</w:t></w:r></w:p>"#)
}

fn sect(extra: &str) -> String {
    format!(
        r#"<w:sectPr>{extra}<w:pgSz w:w="12240" w:h="15840"/><w:pgMar w:top="1440" w:right="1440" w:bottom="1440" w:left="1440"/><w:cols w:num="1"/></w:sectPr>"#
    )
}

fn rels(extra: &str) -> String {
    format!(
        r#"<Relationships xmlns="http://schemas.openxmlformats.org/package/2006/relationships"><Relationship Id="rStyles" Type="{R}/styles" Target="styles.xml"/><Relationship Id="rNumbering" Type="{R}/numbering" Target="numbering.xml"/><Relationship Id="rTheme" Type="{R}/theme" Target="theme/theme1.xml"/>{extra}</Relationships>"#
    )
}

fn content_types(docm: bool) -> String {
    let main = if docm {
        "application/vnd.ms-word.document.macroEnabled.main+xml"
    } else {
        "application/vnd.openxmlformats-officedocument.wordprocessingml.document.main+xml"
    };
    format!(
        r#"<Types xmlns="http://schemas.openxmlformats.org/package/2006/content-types"><Default Extension="rels" ContentType="application/vnd.openxmlformats-package.relationships+xml"/><Default Extension="xml" ContentType="application/xml"/><Default Extension="png" ContentType="image/png"/><Override PartName="/word/document.xml" ContentType="{main}"/></Types>"#
    )
}

fn base_entries(body: &str, docm: bool, extra_rels: &str) -> Vec<(String, Vec<u8>)> {
    vec![
        ("[Content_Types].xml".to_string(), content_types(docm).into_bytes()),
        ("word/document.xml".to_string(), document(body).into_bytes()),
        ("word/_rels/document.xml.rels".to_string(), rels(extra_rels).into_bytes()),
        ("word/styles.xml".to_string(), STYLES.as_bytes().to_vec()),
        ("word/numbering.xml".to_string(), NUMBERING.as_bytes().to_vec()),
        ("word/theme/theme1.xml".to_string(), THEME.as_bytes().to_vec()),
        ("docProps/core.xml".to_string(), CORE.as_bytes().to_vec()),
    ]
}

fn entries(body: &str, docm: bool, extra_rels: &str, extras: Vec<(String, Vec<u8>)>) -> Vec<(String, Vec<u8>)> {
    let mut all = base_entries(body, docm, extra_rels);
    all.extend(extras);
    all
}

fn round3(v: f64) -> f64 {
    (v * 1000.0).round() / 1000.0
}

fn round1(value: f64) -> f64 {
    let rounded = (value * 10.0).round() / 10.0;
    if rounded == 0.0 {
        0.0
    } else {
        rounded
    }
}

fn lean_number(value: f64) -> String {
    let value = round1(value);
    let rendered = format!("{value:.1}");
    rendered.strip_suffix(".0").unwrap_or(&rendered).to_string()
}

/// What a number reader makes of the numerals of `parts`.
fn numbers(parts: &[(String, Vec<u8>)]) -> Numbers {
    let mut found = Vec::new();
    for (name, bytes) in parts {
        if name.ends_with(".xml") || name.ends_with(".rels") {
            if let Ok(root) = parse(bytes, name) {
                collect_numerals(&root, &mut found);
            }
        }
    }
    let mut readings = StrMap::new();
    for text in found {
        if let Ok(value) = text.parse::<f64>() {
            let finite = value.is_finite();
            let size_ok = finite && value >= 0.0;
            let size_key = if size_ok { Some((round3(value / 2.0) + 0.0).to_bits()) } else { None };
            let twips_lean = if finite { Some(lean_number(round1(round3(value / 20.0)))) } else { None };
            let emu_lean = if finite { Some(lean_number(round1(round3(value / 12700.0)))) } else { None };
            let size_lean = if size_ok { Some(lean_number(round3(value / 2.0))) } else { None };
            readings.insert(text, NumberReading { finite, size_key, twips_lean, emu_lean, size_lean });
        }
    }
    Numbers { readings, default_size_key: 11.0f64.to_bits() }
}

fn package_bytes(parts: &[(String, Vec<u8>)]) -> Vec<u8> {
    let mut writer = ZipWriter::new(Cursor::new(Vec::new()));
    for (name, bytes) in parts {
        writer.start_file(name.as_str(), SimpleFileOptions::default()).unwrap();
        writer.write_all(bytes).unwrap();
    }
    writer.finish().unwrap().into_inner()
}

fn extract_parts(parts: Vec<(String, Vec<u8>)>, max_pages: Option<u32>) -> Result<FlowExtraction, ExtractError> {
    let numbers = numbers(&parts);
    let bytes = package_bytes(&parts);
    DocxExtractor.extract(&bytes, numbers, max_pages)
}

fn fixture_entries(name: &str) -> Vec<(String, Vec<u8>)> {
    match name {
        "styles" => entries(
            &format!(
                r#"<w:p><w:pPr><w:pStyle w:val="Child"/></w:pPr><w:r><w:rPr><w:b/></w:rPr><w:t>Toggle off</w:t></w:r><w:r><w:t> inherited</w:t></w:r></w:p>{}"#,
                sect("")
            ),
            false,
            "",
            vec![],
        ),
        "numbering" => entries(
            &format!(
                r#"<w:p><w:pPr><w:numPr><w:ilvl w:val="0"/><w:numId w:val="10"/></w:numPr></w:pPr><w:r><w:t>one</w:t></w:r></w:p><w:p><w:pPr><w:numPr><w:ilvl w:val="1"/><w:numId w:val="10"/></w:numPr></w:pPr><w:r><w:t>letter</w:t></w:r></w:p><w:p><w:pPr><w:numPr><w:ilvl w:val="2"/><w:numId w:val="10"/></w:numPr></w:pPr><w:r><w:t>roman</w:t></w:r></w:p><w:p><w:pPr><w:numPr><w:ilvl w:val="0"/><w:numId w:val="11"/></w:numPr></w:pPr><w:r><w:t>restart three</w:t></w:r></w:p><w:p><w:pPr><w:numPr><w:ilvl w:val="0"/><w:numId w:val="12"/></w:numPr></w:pPr><w:r><w:t>picture bullet</w:t></w:r></w:p>{}"#,
                sect("")
            ),
            false,
            "",
            vec![],
        ),
        "roles" => entries(
            &format!(
                r#"<w:p><w:pPr><w:pStyle w:val="Heading1"/></w:pPr><w:r><w:t>H1</w:t></w:r></w:p><w:p><w:pPr><w:pStyle w:val="Heading2"/></w:pPr><w:r><w:t>H2</w:t></w:r></w:p><w:p><w:pPr><w:pStyle w:val="Title"/></w:pPr><w:r><w:t>Title</w:t></w:r></w:p><w:p><w:pPr><w:pStyle w:val="Quote"/></w:pPr><w:r><w:t>Quote</w:t></w:r></w:p>{}"#,
                sect("")
            ),
            false,
            "",
            vec![],
        ),
        "fields" => entries(
            &format!(
                r#"<w:p><w:fldSimple w:instr="PAGE"><w:r><w:t>3</w:t></w:r></w:fldSimple></w:p><w:p><w:r><w:fldChar w:fldCharType="begin"/></w:r><w:r><w:instrText> TOC \o &quot;1-3&quot; </w:instrText></w:r><w:r><w:fldChar w:fldCharType="separate"/></w:r><w:r><w:t>Cached heading</w:t></w:r><w:r><w:fldChar w:fldCharType="end"/></w:r></w:p>{}"#,
                sect("")
            ),
            false,
            "",
            vec![],
        ),
        "mc" => entries(
            &format!(
                r#"<w:p><w:r><mc:AlternateContent><mc:Choice Requires="wps"><w:drawing><wp:anchor xmlns:wp="http://schemas.openxmlformats.org/drawingml/2006/wordprocessingDrawing"><wp:positionH relativeFrom="margin"><wp:posOffset>127000</wp:posOffset></wp:positionH><wp:positionV relativeFrom="paragraph"><wp:posOffset>254000</wp:posOffset></wp:positionV><wp:extent cx="1270000" cy="635000"/><wps:txbx><w:txbxContent>{}</w:txbxContent></wps:txbx></wp:anchor></w:drawing></mc:Choice><mc:Fallback><w:pict><v:shape><v:textbox><w:txbxContent>{}</w:txbxContent></v:textbox></v:shape></w:pict></mc:Fallback></mc:AlternateContent></w:r></w:p><w:p><w:r><mc:AlternateContent><mc:Choice Requires="unsupported">{}</mc:Choice><mc:Fallback><w:pict><v:shape><v:textbox><w:txbxContent>{}</w:txbxContent></v:textbox></v:shape></w:pict></mc:Fallback></mc:AlternateContent></w:r></w:p>{}"#,
                p("Choice text"),
                p("Unselected fallback"),
                p("Unselected choice"),
                p("VML fallback selected"),
                sect("")
            ),
            false,
            "",
            vec![],
        ),
        "tables" => entries(
            &format!(
                r#"<w:tbl><w:tblPr><w:tblpPr w:horzAnchor="margin" w:tblpX="720" w:tblpY="360"/></w:tblPr><w:tblGrid><w:gridCol w:w="1440"/><w:gridCol w:w="2880"/></w:tblGrid><w:tr><w:tc><w:tcPr><w:gridSpan w:val="2"/><w:vMerge w:val="restart"/></w:tcPr>{}</w:tc></w:tr><w:tr><w:tc><w:tcPr><w:gridSpan w:val="2"/><w:vMerge/></w:tcPr>{}</w:tc></w:tr><w:tr><w:tc>{}<w:tbl><w:tblGrid><w:gridCol w:w="720"/></w:tblGrid><w:tr><w:tc>{}</w:tc></w:tr></w:tbl></w:tc><w:tc>{}</w:tc></w:tr></w:tbl>{}"#,
                p("merged"),
                p("skip"),
                p("outer"),
                p("nested"),
                p("right"),
                sect("")
            ),
            false,
            "",
            vec![],
        ),
        "images" => {
            let image_rels = format!(
                r#"<Relationship Id="rImg" Type="{R}/image" Target="media/image1.png"/><Relationship Id="rExternal" Type="{R}/image" Target="https://example.test/image.png" TargetMode="External"/>"#
            );
            entries(
                &format!(
                    r#"<w:p><w:r><w:drawing><wp:inline xmlns:wp="http://schemas.openxmlformats.org/drawingml/2006/wordprocessingDrawing"><wp:extent cx="1270000" cy="635000"/><wp:docPr id="1" name="Inline" descr="Inline alt"/><a:graphic xmlns:a="http://schemas.openxmlformats.org/drawingml/2006/main"><a:graphicData><a:blip r:embed="rImg"/></a:graphicData></a:graphic></wp:inline></w:drawing></w:r></w:p><w:p><w:r><w:drawing><wp:anchor xmlns:wp="http://schemas.openxmlformats.org/drawingml/2006/wordprocessingDrawing"><wp:positionH relativeFrom="page"><wp:posOffset>254000</wp:posOffset></wp:positionH><wp:positionV relativeFrom="margin"><wp:align>center</wp:align></wp:positionV><wp:extent cx="2540000" cy="1270000"/><wp:docPr id="2" name="Anchor" descr="Anchor alt"/><a:graphic xmlns:a="http://schemas.openxmlformats.org/drawingml/2006/main"><a:graphicData><a:blip r:embed="rImg"/></a:graphicData></a:graphic></wp:anchor></w:drawing></w:r></w:p><w:p><w:r><w:drawing><wp:inline xmlns:wp="http://schemas.openxmlformats.org/drawingml/2006/wordprocessingDrawing"><wp:extent cx="635000" cy="635000"/><wp:docPr id="3" name="Missing" descr="Missing alt"/><a:graphic xmlns:a="http://schemas.openxmlformats.org/drawingml/2006/main"><a:graphicData><a:blip r:embed="rMissing"/></a:graphicData></a:graphic></wp:inline></w:drawing></w:r></w:p><w:p><w:r><w:drawing><wp:inline xmlns:wp="http://schemas.openxmlformats.org/drawingml/2006/wordprocessingDrawing"><wp:extent cx="635000" cy="635000"/><wp:docPr id="4" name="External"/><a:graphic xmlns:a="http://schemas.openxmlformats.org/drawingml/2006/main"><a:graphicData><a:blip r:embed="rExternal"/></a:graphicData></a:graphic></wp:inline></w:drawing></w:r></w:p><w:p><w:r><w:t>Office art policy</w:t><w:pict><v:rect style="width:72pt;height:1pt"/></w:pict><w:drawing/></w:r></w:p>{}"#,
                    sect("")
                ),
                false,
                &image_rels,
                vec![("word/media/image1.png".to_string(), b"deterministic-image".to_vec())],
            )
        },
        "hyperlinks" => {
            let hyperlink_rels = format!(
                r#"<Relationship Id="rLink" Type="{R}/hyperlink" Target="https://example.test/literal?x=1&amp;y=2" TargetMode="External"/>"#
            );
            entries(
                &format!(
                    r#"<w:p><w:hyperlink r:id="rLink"><w:r><w:t>external</w:t></w:r></w:hyperlink><w:r><w:t> </w:t></w:r><w:hyperlink w:anchor="bookmark"><w:r><w:t>internal</w:t></w:r></w:hyperlink></w:p>{}"#,
                    sect("")
                ),
                false,
                &hyperlink_rels,
                vec![],
            )
        },
        "revisions-comments" => {
            let comments = format!(
                r#"<w:comments xmlns:w="{W}"><w:comment w:id="7" w:author="PRIVATE" w:date="2020-01-01T00:00:00Z">{}</w:comment></w:comments>"#,
                p("Review this")
            );
            entries(
                &format!(
                    r#"<w:p><w:commentRangeStart w:id="7"/><w:ins><w:r><w:t>inserted</w:t></w:r></w:ins><w:del><w:r><w:delText>deleted</w:delText></w:r></w:del><w:r><w:commentReference w:id="7"/></w:r></w:p>{}"#,
                    sect("")
                ),
                false,
                &format!(r#"<Relationship Id="rComments" Type="{R}/comments" Target="comments.xml"/>"#),
                vec![("word/comments.xml".to_string(), comments.into_bytes())],
            )
        },
        "stories" => {
            let header = format!(r#"<w:hdr xmlns:w="{W}">{}</w:hdr>"#, p("Header default"));
            let header_first = format!(r#"<w:hdr xmlns:w="{W}">{}</w:hdr>"#, p("Header first"));
            let footer = format!(r#"<w:ftr xmlns:w="{W}">{}</w:ftr>"#, p("Footer even"));
            let footnotes = format!(
                r#"<w:footnotes xmlns:w="{W}"><w:footnote w:id="2">{}</w:footnote></w:footnotes>"#,
                p("Footnote body")
            );
            let endnotes = format!(
                r#"<w:endnotes xmlns:w="{W}"><w:endnote w:id="3">{}</w:endnote></w:endnotes>"#,
                p("Endnote body")
            );
            let story_rels = format!(
                r#"<Relationship Id="rHeader" Type="{R}/header" Target="header1.xml"/><Relationship Id="rHeaderFirst" Type="{R}/header" Target="header2.xml"/><Relationship Id="rFooter" Type="{R}/footer" Target="footer1.xml"/><Relationship Id="rFootnotes" Type="{R}/footnotes" Target="footnotes.xml"/><Relationship Id="rEndnotes" Type="{R}/endnotes" Target="endnotes.xml"/>"#
            );
            entries(
                &format!(
                    r#"<w:p><w:r><w:t>Body with notes</w:t></w:r><w:r><w:footnoteReference w:id="2"/><w:endnoteReference w:id="3"/></w:r></w:p>{}"#,
                    sect(
                        r#"<w:headerReference w:type="default" r:id="rHeader"/><w:headerReference w:type="first" r:id="rHeaderFirst"/><w:footerReference w:type="even" r:id="rFooter"/>"#
                    )
                ),
                false,
                &story_rels,
                vec![
                    ("word/header1.xml".to_string(), header.into_bytes()),
                    ("word/header2.xml".to_string(), header_first.into_bytes()),
                    ("word/footer1.xml".to_string(), footer.into_bytes()),
                    ("word/footnotes.xml".to_string(), footnotes.into_bytes()),
                    ("word/endnotes.xml".to_string(), endnotes.into_bytes()),
                ],
            )
        },
        "sections" => entries(
            &format!(
                r#"<w:p><w:pPr>{}</w:pPr><w:r><w:t>Section one</w:t></w:r></w:p>{}{}"#,
                sect(r#"<w:pgSz w:w="11906" w:h="16838"/><w:cols w:num="2"/>"#),
                p("Section two"),
                sect(r#"<w:pgSz w:w="12240" w:h="15840"/>"#)
            ),
            false,
            "",
            vec![],
        ),
        "breaks" => entries(
            &format!(
                r#"<w:p><w:r><w:t>before</w:t><w:br w:type="page"/><w:t>after page</w:t><w:lastRenderedPageBreak/><w:t>after hint</w:t></w:r></w:p><w:p><w:pPr><w:pStyle w:val="PageBreak"/></w:pPr><w:r><w:t>style break</w:t><w:br w:type="column"/><w:lastRenderedPageBreak/></w:r></w:p>{}"#,
                sect("")
            ),
            false,
            "",
            vec![],
        ),
        "zero-hints" => entries(&format!("{}{}", p("No pagination cache"), sect("")), false, "", vec![]),
        "rtl" => entries(
            &format!(
                r#"<w:p><w:r><w:rPr><w:rtl/><w:rFonts w:cstheme="majorBidi"/><w:szCs w:val="30"/><w:bCs/></w:rPr><w:t>שלום logical</w:t></w:r></w:p>{}"#,
                sect("")
            ),
            false,
            "",
            vec![],
        ),
        "macro" => entries(
            &format!("{}{}", p("Macro document text"), sect("")),
            true,
            "",
            vec![("word/vbaProject.bin".to_string(), b"DO NOT READ".to_vec())],
        ),
        "run-merge" => entries(
            &format!(
                r#"<w:p><w:r><w:t>A</w:t></w:r><w:r><w:t>B</w:t></w:r><w:r><w:t>C</w:t></w:r><w:r><w:rPr><w:b/></w:rPr><w:t>D</w:t></w:r></w:p>{}"#,
                sect("")
            ),
            false,
            "",
            vec![],
        ),
        "docx-field-nesting" => {
            let nested_begin = "<w:r><w:fldChar w:fldCharType=\"begin\"/></w:r>".repeat(20);
            let nested_end = "<w:r><w:fldChar w:fldCharType=\"end\"/></w:r>".repeat(20);
            entries(
                &format!("<w:p>{nested_begin}<w:r><w:instrText>SECRET</w:instrText></w:r>{nested_end}</w:p>{}", sect("")),
                false,
                "",
                vec![],
            )
        },
        "docx-style-cycle" => {
            let cycle_styles = format!(
                r#"<w:styles xmlns:w="{W}"><w:style w:type="paragraph" w:styleId="A"><w:basedOn w:val="B"/></w:style><w:style w:type="paragraph" w:styleId="B"><w:basedOn w:val="A"/></w:style></w:styles>"#
            );
            let mut cycle = base_entries(
                &format!(r#"<w:p><w:pPr><w:pStyle w:val="A"/></w:pPr><w:r><w:t>cycle</w:t></w:r></w:p>{}"#, sect("")),
                false,
                "",
            );
            cycle.retain(|(name, _)| name != "word/styles.xml");
            cycle.push(("word/styles.xml".to_string(), cycle_styles.into_bytes()));
            cycle
        },
        "docx-mc-bomb" => {
            let mut mc_bomb = p("bottom");
            for _ in 0..40 {
                mc_bomb = format!(
                    r#"<mc:AlternateContent><mc:Choice Requires="unsupported"><w:p><w:r><w:t>bad</w:t></w:r></w:p></mc:Choice><mc:Fallback>{mc_bomb}</mc:Fallback></mc:AlternateContent>"#
                );
            }
            entries(&format!("{mc_bomb}{}", sect("")), false, "", vec![])
        },
        "docx-numbering-cycle" => {
            let broken_numbering = format!(
                r#"<w:numbering xmlns:w="{W}"><w:num w:numId="99"><w:abstractNumId w:val="99"/></w:num></w:numbering>"#
            );
            let mut number_cycle = base_entries(
                &format!(
                    r#"<w:p><w:pPr><w:numPr><w:numId w:val="99"/></w:numPr></w:pPr><w:r><w:t>broken numbering</w:t></w:r></w:p>{}"#,
                    sect("")
                ),
                false,
                "",
            );
            number_cycle.retain(|(name, _)| name != "word/numbering.xml");
            number_cycle.push(("word/numbering.xml".to_string(), broken_numbering.into_bytes()));
            number_cycle
        },
        "docx-huge-story" => {
            let mut huge = String::new();
            for index in 0..250_001 {
                huge.push_str(&format!("<w:p/><!--{index}-->"));
            }
            huge.push_str(&sect(""));
            entries(&huge, false, "", vec![])
        },
        other => panic!("unknown fixture {other}"),
    }
}

fn fixture(name: &str) -> FlowExtraction {
    extract_parts(fixture_entries(name), None).unwrap()
}

/// The point size a font's half-point numeral stands for.
fn point_size(font: &Font) -> f64 {
    match &font.size {
        Some(text) => round3(text.parse::<f64>().unwrap() / 2.0),
        None => 11.0,
    }
}

fn twips_points(length: &Option<Length>) -> Option<f64> {
    match length {
        Some(Length::Twips(text)) => Some(round3(text.parse::<f64>().unwrap() / 20.0)),
        Some(Length::Emu(text)) => Some(round3(text.parse::<f64>().unwrap() / 12700.0)),
        None => None,
    }
}

#[test]
fn styles_toggle_theme_defaults_and_complex_script_resolve() {
    let extraction = fixture("styles");
    let Block::Paragraph { runs, .. } = &extraction.sections[0].blocks[0] else {
        panic!("styles fixture must be a paragraph")
    };
    assert_eq!(runs[0].font.name, "Fixture Serif");
    assert_eq!(point_size(&runs[0].font), 14.0);
    assert!(!runs[0].font.bold, "style bold + direct bold toggles off");
    assert!(runs[0].font.italic);
    assert!(runs[1].font.bold);

    let rtl = fixture("rtl");
    let Block::Paragraph { content, runs, .. } = &rtl.sections[0].blocks[0] else {
        panic!("rtl fixture must be a paragraph")
    };
    assert_eq!(content, "שלום logical", "logical order is preserved");
    assert_eq!(runs[0].font.name, "Fixture Arabic");
    assert_eq!(point_size(&runs[0].font), 15.0);
    assert!(runs[0].font.bold);
}

#[test]
fn numbering_roles_and_restarts_are_resolved() {
    let extraction = fixture("numbering");
    let lists: Vec<_> = extraction.sections[0]
        .blocks
        .iter()
        .filter_map(|block| match block {
            Block::Paragraph { list, .. } => list.as_ref(),
            _ => None,
        })
        .collect();
    assert_eq!(
        lists.iter().map(|list| list.label.as_str()).collect::<Vec<_>>(),
        ["1.", "1.a)", "1.a.I.", "3.", "•"]
    );
    assert!(lists[..4].iter().all(|list| list.kind == ListKind::Ordered));
    assert_eq!(lists[4].kind, ListKind::Bullet);
    assert!(extraction.warnings.iter().any(|warning| warning.contains("picture bullet")));

    let roles = fixture("roles");
    let roles: Vec<_> = roles.sections[0]
        .blocks
        .iter()
        .filter_map(|block| match block {
            Block::Paragraph { role, .. } => Some(role.as_str()),
            _ => None,
        })
        .collect();
    assert_eq!(roles, ["h1", "h2", "title", "quote"]);
}

#[test]
fn fields_emit_cached_results_and_hide_instructions() {
    let extraction = fixture("fields");
    let visible = extraction.sections[0]
        .blocks
        .iter()
        .filter_map(|block| match block {
            Block::Paragraph { content, .. } => Some(content.as_str()),
            _ => None,
        })
        .collect::<Vec<_>>()
        .join(" ");
    assert_eq!(visible, "3 Cached heading");
    assert!(!visible.contains("PAGE"));
    assert!(!visible.contains("TOC"));
    let fields: Vec<_> = extraction.sections[0]
        .hidden
        .iter()
        .filter(|item| item.kind == "field")
        .map(|item| item.content.as_str())
        .collect();
    assert_eq!(fields, ["PAGE", "TOC \\o \"1-3\""]);
}

#[test]
fn mc_revisions_comments_and_run_merging_never_duplicate_visible_text() {
    let mc = fixture("mc");
    let serialized = format!("{:?}", mc);
    assert_eq!(serialized.matches("Choice text").count(), 2); // content + run
    assert_eq!(serialized.matches("VML fallback selected").count(), 2);
    assert!(!serialized.contains("Unselected fallback"));
    assert!(!serialized.contains("Unselected choice"));

    let revisions = fixture("revisions-comments");
    let serialized = format!("{:?}", revisions.sections[0].blocks);
    assert!(serialized.contains("inserted"));
    assert!(!serialized.contains("deleted"));
    assert_eq!(revisions.sections[0].hidden.iter().filter(|item| item.kind == "comment").count(), 1);
    assert!(revisions.sections[0]
        .hidden
        .iter()
        .any(|item| item.kind == "tracked-delete" && item.content == "deleted"));

    let merged = fixture("run-merge");
    let Block::Paragraph { runs, .. } = &merged.sections[0].blocks[0] else {
        panic!("run fixture must be a paragraph")
    };
    assert_eq!(runs.len(), 2);
    assert_eq!(runs[0].content, "ABC");
}

#[test]
fn tables_images_hyperlinks_and_authored_placement_are_preserved() {
    let tables = fixture("tables");
    let Block::Table { cells, placement, .. } = &tables.sections[0].blocks[0] else {
        panic!("table fixture must be a table")
    };
    assert_eq!(cells[0].row_span, 2);
    assert!(cells[1].blocks.is_some(), "nested table lives in cells.blocks");
    assert_eq!(twips_points(&placement.as_ref().unwrap().x), Some(36.0));

    let images = fixture("images");
    assert!(matches!(
        &images.sections[0].blocks[0],
        Block::Image { content_hash: Some(_), placement: None, .. }
    ));
    assert!(matches!(&images.sections[0].blocks[1], Block::Image { placement: Some(_), .. }));
    assert!(matches!(&images.sections[0].blocks[2], Block::Image { content_hash: None, .. }));
    assert!(matches!(&images.sections[0].blocks[3], Block::Image { content_hash: None, .. }));
    assert!(images.warnings.iter().any(|warning| warning.contains("relationship is missing or broken")));
    assert!(images.warnings.iter().any(|warning| warning.contains("external image target was not fetched")));
    assert_eq!(images.sections[0].hidden.iter().filter(|item| item.kind == "alt").count(), 3);

    let hyperlinks = fixture("hyperlinks");
    let Block::Paragraph { runs, .. } = &hyperlinks.sections[0].blocks[0] else {
        panic!("link fixture must be a paragraph")
    };
    assert_eq!(runs[0].href.as_deref(), Some("https://example.test/literal?x=1&y=2"));
    assert_eq!(runs[2].href.as_deref(), Some("#bookmark"));
}

#[test]
fn sections_stories_notes_breaks_and_docm_policy_are_explicit() {
    let stories = fixture("stories");
    assert_eq!(stories.sections[0].headers.len(), 2);
    assert_eq!(stories.sections[0].footers.len(), 1);
    assert!(stories.sections[0].hidden.iter().any(|item| item.kind == "footnote"));
    assert!(stories.sections[0]
        .blocks
        .iter()
        .any(|block| matches!(block, Block::Paragraph { content, .. } if content == "Footnote body")));
    assert!(stories.sections[0]
        .blocks
        .iter()
        .any(|block| matches!(block, Block::Paragraph { content, .. } if content == "Endnote body")));

    let sections = fixture("sections");
    assert_eq!(sections.sections.len(), 2);
    assert_eq!(sections.sections[0].columns, Some(2));
    assert!(matches!(sections.sections[0].blocks.last(), Some(Block::Break { kind: BreakKind::Section })));

    let breaks = fixture("breaks");
    assert_eq!(
        breaks.approx_pages,
        Some(3),
        "a trailing rendered-page marker still advances top-level provenance"
    );
    assert!(
        matches!(&breaks.sections[0].blocks[1], Block::Paragraph { breaks_before, .. } if breaks_before.contains(&BreakKind::Page))
    );
    let zero = fixture("zero-hints");
    assert_eq!(zero.approx_pages, None);
    assert_eq!(
        zero.warnings
            .iter()
            .filter(|warning| warning.as_str() == "no pagination hints; approx_page omitted")
            .count(),
        1
    );

    let macro_doc = fixture("macro");
    assert_eq!(macro_doc.source.format, "docm");
    assert!(macro_doc.warnings.iter().any(|warning| warning == "macro project ignored"));
}

#[test]
fn repeated_extraction_and_max_pages_policy_are_deterministic() {
    let first = format!("{:?}", extract_parts(fixture_entries("breaks"), None).unwrap());
    let second = format!("{:?}", extract_parts(fixture_entries("breaks"), None).unwrap());
    assert_eq!(first, second);
    assert!(matches!(
        extract_parts(fixture_entries("breaks"), Some(1)),
        Err(ExtractError::TooManyPages { limit: 1, actual: 3 })
    ));

    let extraction = extract_parts(fixture_entries("zero-hints"), Some(1)).unwrap();
    assert!(extraction
        .warnings
        .iter()
        .any(|warning| warning == "max_pages approximated as block cap for flow documents"));
}

#[test]
fn hostile_fields_are_bounded_and_instructions_are_never_visible() {
    let extraction = fixture("docx-field-nesting");
    let visible = extraction.sections[0]
        .blocks
        .iter()
        .filter_map(|block| match block {
            Block::Paragraph { content, .. } => Some(content.as_str()),
            _ => None,
        })
        .collect::<String>();
    assert!(!visible.contains("SECRET"));
    assert!(extraction.warnings.iter().any(|warning| warning.contains("field nesting depth limit")));
}

#[test]
fn style_numbering_and_mc_attacks_warn_without_panicking_or_hanging() {
    for (name, expected) in [
        ("docx-style-cycle", "style basedOn cycle"),
        ("docx-numbering-cycle", "abstract numbering definition"),
        ("docx-mc-bomb", "markup-compatibility nesting depth limit"),
    ] {
        let extraction = fixture(name);
        assert!(
            extraction.warnings.iter().any(|warning| warning.contains(expected)),
            "{name}: {:?}",
            extraction.warnings
        );
    }
}

#[test]
fn huge_story_stops_at_the_documented_block_cap() {
    let extraction = fixture("docx-huge-story");
    assert!(extraction.sections[0].blocks.len() <= 250_000);
    assert!(extraction
        .warnings
        .iter()
        .any(|warning| warning.contains("story block limit 250000 exceeded")));
}

#[test]
fn compound_files_and_packages_without_a_document_are_refused() {
    let parts = fixture_entries("zero-hints");
    let numbers_read = numbers(&parts);
    let mut cfb = vec![0xd0, 0xcf, 0x11, 0xe0, 0xa1, 0xb1, 0x1a, 0xe1];
    cfb.extend_from_slice(b"rest");
    match DocxExtractor.extract(&cfb, numbers_read, None) {
        Err(ExtractError::UnsupportedFormatMessage(message)) => {
            assert_eq!(message, "legacy or encrypted Office documents are not supported")
        },
        _ => panic!("a compound file is refused"),
    }
    let plain = vec![("notes.txt".to_string(), b"not an OOXML package".to_vec())];
    match extract_parts(plain, None) {
        Err(ExtractError::UnsupportedFormatMessage(message)) => {
            assert_eq!(message, "zip archive is not a Word document")
        },
        _ => panic!("a package without a main document is refused"),
    }
}

#[test]
fn body_without_a_body_element_is_a_parse_failure() {
    let mut parts = fixture_entries("zero-hints");
    parts.retain(|(name, _)| name != "word/document.xml");
    parts.push((
        "word/document.xml".to_string(),
        format!(r#"<w:document xmlns:w="{W}"/>"#).into_bytes(),
    ));
    match extract_parts(parts, None) {
        Err(ExtractError::ParseFailure(message)) => assert_eq!(message, "word/document.xml has no w:body"),
        _ => panic!("a document without a body fails"),
    }
}

#[test]
fn source_metadata_and_geometry_come_through() {
    let extraction = fixture("sections");
    assert_eq!(extraction.schema_version, "1.7");
    assert_eq!(extraction.source.format, "docx");
    assert_eq!(extraction.source.sha256.len(), 64);
    assert_eq!(extraction.document.metadata.title.as_deref(), Some("DOCX fixture"));
    assert_eq!(extraction.document.metadata.author.as_deref(), Some("Fixture Author"));
    assert_eq!(extraction.sections[0].page_width.as_deref(), Some("11906"));
    assert_eq!(extraction.sections[0].margins.top.as_deref(), Some("1440"));
    assert_eq!(extraction.sections[1].page_width.as_deref(), Some("12240"));
    assert_eq!(extraction.sections[1].columns, None);
    let ids: Vec<_> = extraction
        .sections
        .iter()
        .flat_map(|section| section.blocks.iter())
        .filter_map(|block| match block {
            Block::Paragraph { id, .. } => Some(id.as_str()),
            _ => None,
        })
        .collect();
    assert_eq!(ids, ["s0-b0", "s1-b0"]);
}

#[test]
fn anchored_text_boxes_keep_position_and_extent() {
    let mc = fixture("mc");
    let Block::Textbox { placement, blocks, id } = &mc.sections[0].blocks[0] else {
        panic!("the chosen drawing is a text box")
    };
    assert_eq!(id, "s0-b0");
    let placement = placement.as_ref().unwrap();
    assert_eq!(placement.frame, docray::model::PlacementFrame::Margin);
    assert_eq!(twips_points(&placement.x), Some(10.0));
    assert_eq!(twips_points(&placement.y), Some(20.0));
    assert_eq!(twips_points(&placement.width), Some(100.0));
    assert_eq!(twips_points(&placement.height), Some(50.0));
    assert!(matches!(&blocks[0], Block::Paragraph { id, content, .. } if id == "s0-b0-b0" && content == "Choice text"));
}

#[test]
fn flow_markdown_renders_headings_and_quotes() {
    let roles = fixture("roles");
    assert_eq!(
        roles.to_markdown(),
        "# H1\n\n## H2\n\n# Title\n\n> Quote\n\n> [!WARNING]\n> no pagination hints; approx\\_page omitted\n"
    );
}

#[test]
fn flow_markdown_renders_list_markers_by_level() {
    let numbering = fixture("numbering");
    assert_eq!(
        numbering.to_markdown(),
        "1. *one*\n\n  1. letter\n\n    1. roman\n\n1. *restart three*\n\n- picture bullet\n\n> [!WARNING]\n> picture bullet for numId \"12\" level 0 rendered as a bullet\n\n> [!WARNING]\n> no pagination hints; approx\\_page omitted\n"
    );
}

#[test]
fn flow_markdown_renders_tables_as_gfm() {
    let tables = fixture("tables");
    assert_eq!(
        tables.to_markdown(),
        "| merged |  |\n| --- | --- |\n|  |  |\n| outer<br>nested | right |\n\n> [!WARNING]\n> no pagination hints; approx\\_page omitted\n"
    );
}

#[test]
fn flow_markdown_marks_images_and_appends_hidden_context() {
    let images = fixture("images");
    assert_eq!(
        images.to_markdown(),
        "<!-- image -->\n\n<!-- image -->\n\n<!-- image -->\n\n<!-- image -->\n\nOffice art policy\n\n> [!WARNING]\n> s0-b2: image media relationship is missing or broken\n\n> [!WARNING]\n> s0-b3: external image target was not fetched\n\n> [!WARNING]\n> drawing has no image or textbox content; subtree skipped\n\n> [!WARNING]\n> drawing has no image or textbox content; subtree skipped\n\n> [!WARNING]\n> no pagination hints; approx\\_page omitted\n\n<!-- docray-hidden: alt [s0-b0] Inline alt -->\n<!-- docray-hidden: alt [s0-b1] Anchor alt -->\n<!-- docray-hidden: alt [s0-b2] Missing alt -->\n"
    );
}

const FLOW_LEGEND: &str = "#legend #section width height | H1..H9/TI/Q/P text | LI level o|b label text | r font size style [href#<uri>] text | TB cols col-width... | c row col rowspan colspan text | I [width height] | BR page|column|section | ~page N | pt, authored flow; no resolved coordinates";

#[test]
fn flow_lean_writes_one_record_per_paragraph() {
    let parts = fixture_entries("roles");
    let numbers_read = numbers(&parts);
    let roles = extract_parts(parts, None).unwrap();
    assert_eq!(
        roles.to_lean(&numbers_read),
        format!(
            "#docray element v1.7 sections=1 warnings=1\n{FLOW_LEGEND}\n#warning no pagination hints; approx_page omitted\n#section 612 792\nH1 H1\nH2 H2\nTI Title\nQ Quote\n"
        )
    );
}

#[test]
fn flow_lean_writes_runs_where_links_need_them() {
    let parts = fixture_entries("hyperlinks");
    let numbers_read = numbers(&parts);
    let links = extract_parts(parts, None).unwrap();
    assert_eq!(
        links.to_lean(&numbers_read),
        format!(
            "#docray element v1.7 sections=1 warnings=1\n{FLOW_LEGEND}\n#warning no pagination hints; approx_page omitted\n#section 612 792\nP external internal\nr Fixture_Sans 11 -#336699 href#<https://example.test/literal?x=1&y=2> external\nr Fixture_Sans 11 -#336699  \nr Fixture_Sans 11 -#336699 href#<#bookmark> internal\n"
        )
    );
}

#[test]
fn flow_lean_writes_tables_pages_and_hidden_items() {
    let parts = fixture_entries("breaks");
    let numbers_read = numbers(&parts);
    let breaks = extract_parts(parts, None).unwrap();
    assert_eq!(
        breaks.to_lean(&numbers_read),
        format!(
            "#docray element v1.7 sections=1\n{FLOW_LEGEND}\n#section 612 792\n~page 1\nP before\nBR page\n~page 1\nP after page\n~page 2\nP after hint\nBR page\nBR column\n~page 2\nP style break\n"
        )
    );
    let parts = fixture_entries("tables");
    let numbers_read = numbers(&parts);
    let tables = extract_parts(parts, None).unwrap();
    let lean = tables.to_lean(&numbers_read);
    assert!(lean.contains("\nTB 2 72 144\nc 0 0 2 2 merged\nc 2 0 1 1 outer\\nnested\nP outer\nTB 1 36\nc 0 0 1 1 nested\nc 2 1 1 1 right\n"), "{lean}");
}

#[test]
fn reading_markers_never_reach_the_result() {
    for name in [
        "styles", "numbering", "roles", "fields", "mc", "tables", "images", "hyperlinks",
        "revisions-comments", "stories", "sections", "breaks", "zero-hints", "rtl", "macro", "run-merge",
    ] {
        let extraction = fixture(name);
        for section in &extraction.sections {
            for item in &section.hidden {
                assert!(!item.kind.starts_with("__"), "{name}: {:?}", item);
            }
        }
    }
}

#[test]
fn macro_packages_are_docm_and_say_so_first() {
    let docm = fixture("macro");
    assert_eq!(docm.source.format, "docm");
    assert_eq!(docm.warnings[0], "macro project ignored");
    let docx = fixture("styles");
    assert_eq!(docx.source.format, "docx");
}
