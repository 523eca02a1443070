use docray::flow::{Block, FlowExtraction, FlowTableCell, Font, Length, Margins, Placement, Section, TextRun};
use docray::granularity::Granularity;
use docray::model::{
    BreakKind, DocMetadata, FlowDocumentInfo, FlowLayout, HiddenItem, ListInfo, ListKind, PlacementFrame, Source,
};
use docray::story::{NumberReading, Numbers};
use docray::strmap::StrMap;
use docray::page_lean::{
    LeanCell, LeanChart, LeanDocument, LeanElement, LeanPage, LeanPoint, LeanRun, LeanSeries,
    LeanTable, LeanText, LeanTextContent, LeanWord,
};

// The sample page of the paged model, with every coordinate and size written
// as the lean rendering writes numbers (rounded to a tenth, no trailing `.0`):
// 612.04 -> 612, 792.06 -> 792.1, 1.04 -> 1, 2.06 -> 2.1, 12.06 -> 12.1.
fn first_text(granularity: Granularity) -> LeanText {
    let content = match granularity {
        Granularity::Word => LeanTextContent::Words(vec![LeanWord {
            text: "a\\b\nc\td".into(),
            bbox: "1 2.1 30 40.1".into(),
        }]),
        _ => LeanTextContent::Element("a\\b\nc\td".into()),
    };
    LeanText {
        bbox: "1 2.1 30 40.1".into(),
        content,
        font_name: "A B\tC".into(),
        size: "12.1".into(),
        bold: true,
        italic: true,
        fill: Some([35, 31, 32]),
        runs: None,
    }
}

fn second_text(granularity: Granularity) -> LeanText {
    let content = match granularity {
        Granularity::Word => LeanTextContent::Words(vec![]),
        _ => LeanTextContent::Element(String::new()),
    };
    LeanText {
        bbox: "41 42 43 44".into(),
        content,
        font_name: String::new(),
        size: "9".into(),
        bold: false,
        italic: false,
        fill: Some([0, 0, 0]),
        runs: None,
    }
}

fn extraction(granularity: Granularity) -> LeanDocument {
    let elements = vec![
        LeanElement::Text(first_text(granularity)),
        LeanElement::Text(second_text(granularity)),
        LeanElement::Image("5 6 7 8".into()),
        LeanElement::Path("9 10 11 12".into()),
        LeanElement::Annotation {
            bbox: "13 14 15 16".into(),
            subtype: "link".into(),
            uri: None,
        },
    ];
    LeanDocument {
        granularity,
        schema_version: "1.6".into(),
        warnings: vec!["recovered\n\twith omissions".into()],
        pages: vec![LeanPage {
            page_number: 1,
            width: "612".into(),
            height: "792.1".into(),
            rotation: 90,
            scanned: true,
            elements,
            hidden: vec![],
        }],
    }
}

fn run(content: &str, font: &str, size: &str, bold: bool, italic: bool, fill: Option<[u8; 3]>, href: Option<&str>) -> LeanRun {
    LeanRun {
        content: content.into(),
        font_name: font.into(),
        size: size.into(),
        bold,
        italic,
        fill,
        href: href.map(|h| h.to_string()),
    }
}

fn set_first_runs(doc: &mut LeanDocument, runs: Option<Vec<LeanRun>>) {
    match &mut doc.pages[0].elements[0] {
        LeanElement::Text(t) => t.runs = runs,
        _ => panic!("sample text element missing"),
    }
}

#[test]
fn element_lean_renders_all_edge_rules_exactly() {
    let actual = extraction(Granularity::Element).to_lean();
    let expected = [
        "#docray element v1.6 pages=1 warnings=1\n",
        "#legend T x0 y0 x1 y1 font size style text | I/P x0 y0 x1 y1 | A x0 y0 x1 y1 subtype uri | pt, top-left origin\n",
        "#warning recovered with omissions\n",
        "#page 1 612x792.1 rot=90 scanned\n",
        "T 1 2.1 30 40.1 A_B_C 12.1 bi#231f20 a\\\\b\\nc\\u{9}d\n",
        "T 41 42 43 44 - 9 - \n",
        "I 5 6 7 8\n",
        "P 9 10 11 12\n",
        "A 13 14 15 16 link -\n",
    ]
    .concat();
    assert_eq!(actual, expected);
    assert!(!actual.contains("not-rendered"), "source envelope must be absent");
    assert!(!actual.contains("#ff0000"), "stroke color must be absent");
}

#[test]
fn word_lean_nests_escaped_words_under_text_elements() {
    let actual = extraction(Granularity::Word).to_lean();
    let lines: Vec<_> = actual.lines().collect();
    assert_eq!(
        lines[1],
        "#legend T x0 y0 x1 y1 font size style | w x0 y0 x1 y1 word | I/P x0 y0 x1 y1 | A x0 y0 x1 y1 subtype uri | pt, top-left origin"
    );
    assert_eq!(lines[4], "T 1 2.1 30 40.1 A_B_C 12.1 bi#231f20");
    assert_eq!(lines[5], "w 1 2.1 30 40.1 a\\\\b\\nc\\u{9}d");
    assert_eq!(lines[6], "T 41 42 43 44 - 9 -");
}

#[test]
fn multi_run_text_and_linked_single_run_render_run_records() {
    let mut doc = extraction(Granularity::Element);
    set_first_runs(
        &mut doc,
        Some(vec![
            run("bold", "Run Font", "10", true, false, Some([1, 2, 3]), None),
            run("linked", "Run Font", "11", false, true, Some([0, 0, 0]), Some("https://example.com/run")),
        ]),
    );
    let actual = doc.to_lean();
    assert!(actual.contains(
        "T 1 2.1 30 40.1 A_B_C 12.1 bi#231f20 a\\\\b\\nc\\u{9}d\n\
r Run_Font 10 b#010203 bold\n\
r Run_Font 11 i href#<https://example.com/run> linked\n"
    ));

    set_first_runs(
        &mut doc,
        Some(vec![run("linked", "Run Font", "11", false, true, Some([0, 0, 0]), Some("https://example.com/run"))]),
    );
    let actual = doc.to_lean();
    assert!(actual.contains("r Run_Font 11 i href#<https://example.com/run> linked\n"));

    set_first_runs(&mut doc, Some(vec![run("linked", "Run Font", "11", false, true, Some([0, 0, 0]), None)]));
    let actual = doc.to_lean();
    assert!(!actual.lines().any(|line| line.starts_with("r ")));
}

#[test]
fn single_run_cells_keep_style_and_href_without_redundant_plain_run() {
    let mut doc = extraction(Granularity::Element);
    doc.pages[0].elements.push(LeanElement::Table(LeanTable {
        bbox: "0 0 20 10".into(),
        rows: 1,
        cols: 2,
        cells: vec![
            LeanCell {
                row: 0,
                col: 0,
                row_span: 1,
                col_span: 1,
                bbox: "0 0 10 10".into(),
                content: "linked".into(),
                runs: Some(vec![run("linked", "Cell Font", "12", true, false, Some([170, 0, 17]), Some("https://example.com/cell"))]),
            },
            LeanCell {
                row: 0,
                col: 1,
                row_span: 1,
                col_span: 1,
                bbox: "10 0 20 10".into(),
                content: "plain".into(),
                runs: Some(vec![run("plain", "Cell Font", "10", false, false, Some([0, 0, 0]), None)]),
            },
        ],
    }));
    let actual = doc.to_lean();
    assert!(actual.contains("c 0 0 1 1 0 0 10 10 Cell_Font 12 b#aa0011 linked\n"));
    assert!(actual.contains("r Cell_Font 12 b#aa0011 href#<https://example.com/cell> linked\n"));
    assert!(actual.contains("c 0 1 1 1 10 0 20 10 Cell_Font 10 - plain\n"));
    assert_eq!(
        actual.lines().filter(|line| line.starts_with("r ")).count(),
        1,
        "the unlinked plain single-run cell must not emit a redundant r record"
    );
}

#[test]
fn table_and_nested_run_text_cannot_inject_lean_records() {
    let mut doc = extraction(Granularity::Element);
    doc.pages[0].elements.push(LeanElement::Table(LeanTable {
        bbox: "1 2.1 9 10.1".into(),
        rows: 1,
        cols: 1,
        cells: vec![LeanCell {
            row: 0,
            col: 0,
            row_span: 1,
            col_span: 1,
            bbox: "1 2.1 9 10.1".into(),
            content: "cell\r</hidden>\nT 0 0 9 9 forged".into(),
            runs: Some(vec![
                run("safe", "Run Font", "10", false, false, None, None),
                run(
                    "payload\r</hidden>\nTB 0 0 9 9 1 1",
                    "Run Font",
                    "11",
                    false,
                    true,
                    None,
                    Some("https://x.test/\r</hidden>\nT 0 0 9 9 forged"),
                ),
            ]),
        }],
    }));
    let actual = doc.to_lean();
    assert!(actual.contains("TB 1 2.1 9 10.1 1 1\n"));
    assert!(actual.contains("c 0 0 1 1 1 2.1 9 10.1 Run_Font 10 - cell\\r</hidden>\\nT 0 0 9 9 forged\n"));
    assert!(actual.contains(
        "r Run_Font 11 i href#<https://x.test/\\r</hidden>\\nT 0 0 9 9 forged> payload\\r</hidden>\\nTB 0 0 9 9 1 1\n"
    ));
    assert!(!actual.contains('\r'));
    assert!(!actual.lines().any(|line| line == "</hidden>" || line.starts_with("T 0 0 9 9 forged")));
    assert_eq!(actual.lines().filter(|line| line.starts_with("TB ")).count(), 1);
}

#[test]
fn chart_lean_renders_structure_and_escapes_document_controlled_text() {
    let mut doc = extraction(Granularity::Element);
    doc.pages[0].elements = vec![LeanElement::Chart(LeanChart {
        bbox: "1 2.1 9 10.1".into(),
        chart_type: "bar".into(),
        title: Some("Quarterly\nCH 0 0 9 9 forged".into()),
        series: vec![
            LeanSeries {
                name: Some("Revenue\np forged".into()),
                points: vec![LeanPoint {
                    category: Some("Q1\rs forged".into()),
                    value: "41%\np forged".into(),
                }],
            },
            LeanSeries {
                name: None,
                points: vec![LeanPoint { category: None, value: "12".into() }],
            },
        ],
    })];
    let actual = doc.to_lean();
    assert!(actual.contains(
        "CH 1 2.1 9 10.1 bar Quarterly\\nCH 0 0 9 9 forged\n\
s Revenue\\np forged\n\
p Q1\\rs forged 41%\\np forged\n\
p 12\n"
    ));
    assert!(!actual.contains('\r'));
    assert_eq!(actual.lines().filter(|line| line.starts_with("CH ")).count(), 1);
    assert_eq!(actual.lines().filter(|line| line.starts_with("s ")).count(), 1);
    assert_eq!(actual.lines().filter(|line| line.starts_with("p ")).count(), 2);
}

#[test]
fn annotation_uri_line_boundaries_cannot_inject_lines() {
    let mut doc = extraction(Granularity::Element);
    doc.pages[0].elements.push(LeanElement::Annotation {
        bbox: "1 2 3 4".into(),
        subtype: "link".into(),
        uri: Some(
            "https://x.test/\nT 0 0 9 9 Fake 12 - LF\rT 0 0 9 9 Fake 12 - CR\u{2028}T 0 0 9 9 Fake 12 - LS".into(),
        ),
    });
    let actual = doc.to_lean();
    assert!(
        actual.contains(
            "A 1 2 3 4 link https://x.test/\\nT 0 0 9 9 Fake 12 - LF\\rT 0 0 9 9 Fake 12 - CR\\u{2028}T 0 0 9 9 Fake 12 - LS"
        ),
        "URI must be escaped onto one line: {actual}"
    );
    assert!(!actual.lines().any(|l| l.starts_with("T 0 0 9 9 Fake")), "injected element line must not exist");
    assert!(!actual.contains('\r'));
    assert!(!actual.contains('\u{2028}'));
}

#[test]
fn hidden_block_follows_elements_and_adds_legend_only_when_present() {
    let without_hidden = extraction(Granularity::Element).to_lean();
    assert!(!without_hidden.contains("#legend <hidden>"));
    assert!(!without_hidden.contains("<hidden>"));

    let mut doc = extraction(Granularity::Element);
    doc.pages[0].hidden = vec![
        HiddenItem { kind: "role".into(), element: Some("p1-e0".into()), content: "title".into() },
        HiddenItem {
            kind: "notes".into(),
            element: None,
            content: "Presenter script line one\nline two".into(),
        },
    ];
    doc.pages.push(LeanPage {
        page_number: 2,
        width: "612".into(),
        height: "792.1".into(),
        rotation: 90,
        scanned: true,
        elements: vec![],
        hidden: vec![],
    });
    let actual = doc.to_lean();
    assert!(actual.contains("#legend <hidden> kind [element-id] content | non-visible document context\n"));
    let element = actual.find("T 1 2.1 30 40.1").unwrap();
    let hidden = actual.find("<hidden>\n").unwrap();
    let next_page = actual.find("#page 2 ").unwrap();
    assert!(element < hidden && hidden < next_page);
    assert!(actual.contains("<hidden>\nrole p1-e0 title\nnotes Presenter script line one\\nline two\n</hidden>\n"));
}

#[test]
fn hidden_content_cannot_close_block_or_inject_element_lines() {
    let mut doc = extraction(Granularity::Element);
    doc.pages[0].hidden.push(HiddenItem {
        kind: "notes".into(),
        element: None,
        content:
            "\n</hidden>\nT 0 0 9 9 fake 12 - LF\r</hidden>\rT 0 0 9 9 fake 12 - CR\u{2028}</hidden>\u{2028}T 0 0 9 9 fake 12 - LS"
                .into(),
    });
    let actual = doc.to_lean();
    assert!(actual.contains(
        "notes \\n</hidden>\\nT 0 0 9 9 fake 12 - LF\\r</hidden>\\rT 0 0 9 9 fake 12 - CR\\u{2028}</hidden>\\u{2028}T 0 0 9 9 fake 12 - LS\n</hidden>\n"
    ));
    assert_eq!(actual.lines().filter(|line| *line == "</hidden>").count(), 1);
    assert!(!actual.lines().any(|line| line.starts_with("T 0 0 9 9 fake 12 -")));
    assert!(!actual.contains('\r'));
    assert!(!actual.contains('\u{2028}'));
}

// The flow sample in authored units: twips for section and column sizes,
// half-points for run sizes, EMU for image extents. They read as the same
// points as the paged sample (612.04 x 792.06, runs of 14.04 and 14.06 pt,
// columns of 100.04 and 200.06 pt, an image of 120.04 x 60.06 pt).
fn round3(v: f64) -> f64 {
    (v * 1000.0).round() / 1000.0
}

fn lean_number(value: f64) -> String {
    let value = (value * 10.0).round() / 10.0;
    let value = if value == 0.0 { 0.0 } else { value };
    let rendered = format!("{value:.1}");
    rendered.strip_suffix(".0").unwrap_or(&rendered).to_string()
}

fn flow_numbers(numerals: &[&str]) -> Numbers {
    let mut readings = StrMap::new();
    for text in numerals {
        let value: f64 = text.parse().unwrap();
        readings.insert(
            text.to_string(),
            NumberReading {
                finite: true,
                size_key: Some(round3(value / 2.0).to_bits()),
                twips_lean: Some(lean_number(round3(value / 20.0))),
                emu_lean: Some(lean_number(round3(value / 12700.0))),
                size_lean: Some(lean_number(round3(value / 2.0))),
            },
        );
    }
    Numbers { readings, default_size_key: 11.0f64.to_bits() }
}

fn flow_run(content: &str, size: &str, bold: bool, href: Option<&str>) -> TextRun {
    TextRun {
        content: content.into(),
        font: Font { name: "Flow Sans".into(), size: Some(size.into()), size_key: 0, bold, italic: false },
        fill: Some([0, 0, 0]),
        href: href.map(|h| h.to_string()),
    }
}

fn flow_paragraph(id: &str, role: &str, content: &str) -> Block {
    Block::Paragraph {
        id: id.into(),
        role: role.into(),
        runs: vec![],
        content: content.into(),
        list: None,
        placement: None,
        approx_page: None,
        breaks_before: vec![],
    }
}

fn flow_extraction() -> (FlowExtraction, Numbers) {
    let numbers = flow_numbers(&[
        "12240.8", "15841.2", "1440.8", "1441.2", "1440", "1441.6", "28.08", "28.12", "22", "2000.8",
        "4001.2", "1524508", "762762", "20.8", "38608", "200.8", "401.2", "600.8", "801.2",
    ]);
    let extraction = FlowExtraction {
        schema_version: "1.7".into(),
        layout: FlowLayout::Flow,
        source: Source { format: "docx".into(), sha256: "abc".into(), size_bytes: 321 },
        document: FlowDocumentInfo {
            metadata: DocMetadata { title: Some("Flow fixture".into()), author: None },
        },
        warnings: vec![],
        approx_pages: Some(2),
        sections: vec![Section {
            page_width: Some("12240.8".into()),
            page_height: Some("15841.2".into()),
            margins: Margins {
                top: Some("1440.8".into()),
                right: Some("1441.2".into()),
                bottom: Some("1440".into()),
                left: Some("1441.6".into()),
            },
            columns: Some(2),
            headers: vec![],
            footers: vec![],
            blocks: vec![
                Block::Paragraph {
                    id: "s0-b0".into(),
                    role: "h2".into(),
                    runs: vec![
                        flow_run("Heading ", "28.08", true, None),
                        flow_run("text", "28.12", false, Some("https://example.test/h")),
                    ],
                    content: "Heading text".into(),
                    list: None,
                    placement: Some(Placement {
                        frame: PlacementFrame::Margin,
                        x: Some(Length::Twips("20.8".into())),
                        y: None,
                        width: Some(Length::Twips("4001.2".into())),
                        height: None,
                        align_h: Some("center".into()),
                        align_v: None,
                    }),
                    approx_page: Some(1),
                    breaks_before: vec![BreakKind::Page],
                },
                Block::Paragraph {
                    id: "s0-b1".into(),
                    role: "body".into(),
                    runs: vec![flow_run("Item text", "22", false, None)],
                    content: "Item text".into(),
                    list: Some(ListInfo { list_id: "7".into(), level: 2, kind: ListKind::Ordered, label: "1.".into() }),
                    placement: None,
                    approx_page: Some(1),
                    breaks_before: vec![],
                },
                Block::Table {
                    id: "s0-b2".into(),
                    col_widths: vec!["2000.8".into(), "4001.2".into()],
                    rows: 1,
                    cols: 2,
                    cells: vec![FlowTableCell {
                        row: 0,
                        col: 0,
                        row_span: 1,
                        col_span: 2,
                        content: "Cell text".into(),
                        runs: vec![],
                        blocks: None,
                    }],
                    placement: None,
                    approx_page: Some(1),
                },
                Block::Image {
                    id: "s0-b3".into(),
                    width: Some("1524508".into()),
                    height: Some("762762".into()),
                    content_hash: Some("deadbeef".into()),
                    placement: Some(Placement {
                        frame: PlacementFrame::Paragraph,
                        x: None,
                        y: Some(Length::Emu("38608".into())),
                        width: Some(Length::Emu("1524508".into())),
                        height: Some(Length::Emu("762762".into())),
                        align_h: None,
                        align_v: Some("top".into()),
                    }),
                },
                Block::Textbox {
                    id: "s0-b4".into(),
                    placement: Some(Placement {
                        frame: PlacementFrame::Page,
                        x: Some(Length::Twips("200.8".into())),
                        y: Some(Length::Twips("401.2".into())),
                        width: Some(Length::Twips("600.8".into())),
                        height: Some(Length::Twips("801.2".into())),
                        align_h: None,
                        align_v: None,
                    }),
                    blocks: vec![flow_paragraph("s0-b4-b0", "quote", "Box text")],
                },
                Block::Break { kind: BreakKind::Section },
            ],
            hidden: vec![HiddenItem { kind: "comment".into(), element: Some("s0-b1".into()), content: "Review this".into() }],
        }],
    };
    (extraction, numbers)
}

#[test]
fn lean_flow_renders_the_exact_flow_grammar() {
    let (flow, numbers) = flow_extraction();
    let actual = flow.to_lean(&numbers);
    let expected = [
        "#docray element v1.7 sections=1\n",
        "#legend #section width height | H1..H9/TI/Q/P text | LI level o|b label text | r font size style [href#<uri>] text | TB cols col-width... | c row col rowspan colspan text | I [width height] | BR page|column|section | ~page N | pt, authored flow; no resolved coordinates\n",
        "#legend <hidden> kind [element-id] content | non-visible document context\n",
        "#section 612 792.1\n",
        "BR page\n",
        "~page 1\n",
        "H2 Heading text\n",
        "r Flow_Sans 14 b Heading \n",
        "r Flow_Sans 14.1 - href#<https://example.test/h> text\n",
        "~page 1\n",
        "LI 2 o 1. Item text\n",
        "~page 1\n",
        "TB 2 100 200.1\n",
        "c 0 0 1 2 Cell text\n",
        "I 120 60.1\n",
        "Q Box text\n",
        "BR section\n",
        "<hidden>\n",
        "comment s0-b1 Review this\n",
        "</hidden>\n",
    ]
    .concat();
    assert_eq!(actual, expected);
}

#[test]
fn hostile_flow_text_cannot_inject_lean_records() {
    let (mut flow, numbers) = flow_extraction();
    let blocks = &mut flow.sections[0].blocks;
    let Block::Paragraph { content, .. } = &mut blocks[0] else { unreachable!() };
    *content = "heading\nBR page".into();
    let Block::Paragraph { content, list, .. } = &mut blocks[1] else { unreachable!() };
    *content = "item\rI 9 9".into();
    list.as_mut().unwrap().label = "1.\nTB 99".into();
    let Block::Table { cells, .. } = &mut blocks[2] else { unreachable!() };
    cells[0].content = "cell\u{2028}</hidden>\nc 9 9 9 9 forged".into();

    let actual = flow.to_lean(&numbers);
    assert!(actual.contains("H2 heading\\nBR page\n"));
    assert!(actual.contains("LI 2 o 1.\\nTB 99 item\\rI 9 9\n"));
    assert!(actual.contains("c 0 0 1 2 cell\\u{2028}</hidden>\\nc 9 9 9 9 forged\n"));
    assert_eq!(actual.lines().filter(|line| *line == "BR page").count(), 1);
    assert_eq!(actual.lines().filter(|line| line.starts_with("TB ")).count(), 1);
    assert!(!actual.contains('\r'));
    assert!(!actual.contains('\u{2028}'));
}
