use xlsx_parts::columns::{encode_runs, write_runs, Column, ColumnFormat, ColumnRun};
use xlsx_parts::content_types::{content_types, number_drawings};
use xlsx_parts::parts::{PartData, PartWriterManager};
use xlsx_parts::relationships::{rels_document, RelationshipError, RelationshipTable, TargetMode};
use xlsx_parts::text::{decimal, push_attr};

/// A plain format whose width is given in hundredths.
fn fmt(hundredths: u64) -> ColumnFormat {
    ColumnFormat { width: hundredths * 1_000_000, hidden: false, best_fit: false, style: 0 }
}

fn col(index: u32, width: u64) -> Column {
    Column { index, format: fmt(width) }
}

fn text_of(mng: &PartWriterManager, i: usize) -> String {
    match &mng.get_parts()[i].data {
        PartData::Text(s) => s.clone(),
        PartData::Binary(_) => panic!("binary part"),
    }
}

#[test]
fn runs_of_four_columns() {
    let cols = vec![col(4, 1000), col(2, 1000), col(1, 1000), col(3, 2000)];
    let runs = encode_runs(&cols);
    assert_eq!(
        runs,
        vec![
            ColumnRun { min: 1, max: 2, format: fmt(1000) },
            ColumnRun { min: 3, max: 3, format: fmt(2000) },
            ColumnRun { min: 4, max: 4, format: fmt(1000) },
        ]
    );
    let mut out = String::new();
    write_runs(&mut out, &runs);
    assert_eq!(
        out,
        "<cols><col min=\"1\" max=\"2\" width=\"10\" customWidth=\"1\"/>\
<col min=\"3\" max=\"3\" width=\"20\" customWidth=\"1\"/>\
<col min=\"4\" max=\"4\" width=\"10\" customWidth=\"1\"/></cols>"
    );
}

#[test]
fn separated_equal_formats_stay_apart() {
    let cols = vec![col(5, 900), col(6, 1200), col(7, 900)];
    let runs = encode_runs(&cols);
    assert_eq!(runs.len(), 3);
    assert_eq!(runs[0].format, runs[2].format);
    assert_ne!(runs[0].format, runs[1].format);
}

#[test]
fn gap_breaks_a_run() {
    let cols = vec![col(1, 900), col(3, 900)];
    let runs = encode_runs(&cols);
    assert_eq!(runs.len(), 2);
    assert_eq!((runs[0].min, runs[0].max, runs[1].min, runs[1].max), (1, 1, 3, 3));
}

#[test]
fn encoding_expanded_runs_again_gives_the_same_runs() {
    let cols = vec![col(9, 100), col(3, 100), col(4, 100), col(5, 250), col(8, 100), col(6, 250)];
    let runs = encode_runs(&cols);
    let mut expanded = Vec::new();
    for r in &runs {
        for i in r.min..=r.max {
            expanded.push(Column { index: i, format: r.format });
        }
    }
    assert_eq!(expanded.len(), cols.len());
    assert_eq!(encode_runs(&expanded), runs);
}

#[test]
fn no_columns_no_cols_element() {
    let runs = encode_runs(&Vec::new());
    assert!(runs.is_empty());
    let mut out = String::from("x");
    write_runs(&mut out, &runs);
    assert_eq!(out, "x");
}

#[test]
fn col_attributes_in_order() {
    let f = ColumnFormat { width: 843_000_000, hidden: true, best_fit: true, style: 7 };
    let runs = encode_runs(&vec![Column { index: 2, format: f }]);
    let mut out = String::new();
    write_runs(&mut out, &runs);
    assert_eq!(
        out,
        "<cols><col min=\"2\" max=\"2\" width=\"8.43\" hidden=\"1\" bestFit=\"1\" customWidth=\"1\" style=\"7\"/></cols>"
    );
    let runs = encode_runs(&vec![Column { index: 1, format: fmt(1050) }]);
    let mut out = String::new();
    write_runs(&mut out, &runs);
    assert!(out.contains("width=\"10.5\""));
    let f = ColumnFormat { width: 914_062_500, hidden: false, best_fit: false, style: 0 };
    let g = ColumnFormat { width: 914_000_000, hidden: false, best_fit: false, style: 0 };
    let runs = encode_runs(&vec![Column { index: 1, format: f }, Column { index: 2, format: g }]);
    assert_eq!(runs.len(), 2);
    let mut out = String::new();
    write_runs(&mut out, &runs);
    assert!(out.contains("width=\"9.140625\""));
    assert!(out.contains("width=\"9.14\""));
}

#[test]
fn add_then_resolve() {
    let mut t = RelationshipTable::new();
    let a = t.add("typeA".to_string(), "a.xml".to_string(), TargetMode::Internal);
    let b = t.add("typeB".to_string(), "http://x".to_string(), TargetMode::External);
    assert_eq!(a, "rId1");
    assert_eq!(b, "rId2");
    let r = t.resolve(&b).unwrap();
    assert_eq!(r.target, "http://x");
    assert_eq!(r.mode, TargetMode::External);
    assert_eq!(t.resolve(&a).unwrap().rel_type, "typeA");
    assert_eq!(t.resolve("rId3").err(), Some(RelationshipError::Unresolved));
}

#[test]
fn empty_table_writes_nothing() {
    let t = RelationshipTable::new();
    let mut mng = PartWriterManager::new();
    t.write_to(&mut mng, "xl/_rels/workbook.xml.rels");
    assert_eq!(mng.get_parts().len(), 0);
}

#[test]
fn table_writes_one_rels_part() {
    let mut t = RelationshipTable::new();
    t.add("T".to_string(), "sheet1.xml".to_string(), TargetMode::Internal);
    t.add("T".to_string(), "a&b".to_string(), TargetMode::External);
    let mut mng = PartWriterManager::new();
    t.write_to(&mut mng, "xl/_rels/workbook.xml.rels");
    assert_eq!(mng.get_parts().len(), 1);
    assert_eq!(mng.get_parts()[0].path, "xl/_rels/workbook.xml.rels");
    let xml = text_of(&mng, 0);
    assert_eq!(
        xml,
        "<?xml version=\"1.0\" encoding=\"UTF-8\" standalone=\"yes\"?>\r\n\
<Relationships xmlns=\"http://schemas.openxmlformats.org/package/2006/relationships\">\
<Relationship Id=\"rId1\" Type=\"T\" Target=\"sheet1.xml\"/>\
<Relationship Id=\"rId2\" Type=\"T\" Target=\"a&amp;b\" TargetMode=\"External\"/>\
</Relationships>"
    );
    assert_eq!(xml, rels_document(&t.entries));
}

#[test]
fn later_deposit_replaces_in_place() {
    let mut mng = PartWriterManager::new();
    mng.add_text_part("a.xml", "1".to_string());
    mng.add_binary_part("b.bin", vec![1, 2]);
    mng.add_text_part("a.xml", "2".to_string());
    assert_eq!(mng.get_parts().len(), 2);
    assert_eq!(mng.get_parts()[0].path, "a.xml");
    assert_eq!(text_of(&mng, 0), "2");
    assert_eq!(mng.get_parts()[1].path, "b.bin");
}

#[test]
fn manifest_sheets_drawings_charts() {
    let xml = content_types(2, &vec![2, 0, 1]);
    assert_eq!(xml.matches("/xl/worksheets/sheet").count(), 2);
    assert!(xml.contains("PartName=\"/xl/worksheets/sheet1.xml\""));
    assert!(xml.contains("PartName=\"/xl/worksheets/sheet2.xml\""));
    assert_eq!(xml.matches("/xl/drawings/drawing").count(), 2);
    assert!(xml.contains("PartName=\"/xl/drawings/drawing2.xml\""));
    for c in 1..=3 {
        assert!(xml.contains(&format!("PartName=\"/xl/charts/chart{}.xml\"", c)));
    }
    assert!(!xml.contains("chart4"));
    assert!(xml.starts_with("<?xml version=\"1.0\" encoding=\"UTF-8\" standalone=\"yes\"?>\r\n<Types xmlns=\"http://schemas.openxmlformats.org/package/2006/content-types\"><Default Extension=\"rels\""));
    assert!(xml.ends_with("</Types>"));
}

#[test]
fn one_drawing_per_worksheet_with_charts() {
    let xml = content_types(1, &vec![5]);
    assert_eq!(xml.matches("/xl/drawings/drawing").count(), 1);
    assert_eq!(xml.matches("/xl/charts/chart").count(), 5);
    let numbers = number_drawings(&vec![2, 0, 1]);
    assert_eq!((numbers[0].drawing_id, numbers[0].chart_start_id), (1, 1));
    assert_eq!((numbers[1].drawing_id, numbers[1].chart_start_id), (2, 3));
    assert_eq!((numbers[2].drawing_id, numbers[2].chart_start_id), (2, 3));
}

#[test]
fn decimal_and_escape() {
    assert_eq!(decimal(0), "0");
    assert_eq!(decimal(1234567), "1234567");
    let mut s = String::new();
    push_attr(&mut s, "v", "<a'&\">");
    assert_eq!(s, " v=\"&lt;a&apos;&amp;&quot;&gt;\"");
}

use xlsx_parts::drawings::{drawing_relationships, write_drawing_rels, write_media, Anchor, Image};
use xlsx_parts::raw::{load_raw_file, resolve_path, Archive, ArchiveEntry, RawRelationships, RelationshipRecord};
use xlsx_parts::content_types::DrawingNumbers;
use xlsx_parts::columns::{ColsError, ColsEvent, Columns};
use xlsx_parts::raw::{load_raw_relationships, RelsError};
use xlsx_parts::text::parse_u32_text;

fn archive() -> Archive {
    Archive {
        entries: vec![
            ArchiveEntry { name: "xl/drawings/drawing1.xml".to_string(), data: vec![7, 8, 9] },
            ArchiveEntry { name: "xl/worksheets/_rels/sheet1.xml.rels".to_string(), data: vec![1] },
        ],
    }
}

#[test]
fn paths_resolve_against_base() {
    assert_eq!(resolve_path("xl/worksheets", "../drawings/drawing1.xml"), "xl/drawings/drawing1.xml");
    assert_eq!(resolve_path("xl", "worksheets/sheet1.xml"), "xl/worksheets/sheet1.xml");
    assert_eq!(resolve_path("xl/worksheets", "/xl/styles.xml"), "xl/styles.xml");
    assert_eq!(resolve_path("", "a.xml"), "a.xml");
}

#[test]
fn absent_target_gives_no_raw_file() {
    let a = archive();
    assert!(load_raw_file(&a, "xl/worksheets", "../drawings/drawing9.xml").is_none());
    let f = load_raw_file(&a, "xl/worksheets", "../drawings/drawing1.xml").unwrap();
    assert_eq!(f.file_target, "xl/drawings/drawing1.xml");
    assert_eq!(f.file_data, vec![7, 8, 9]);
}

#[test]
fn raw_round_trip_skips_absent_target() {
    let a = archive();
    let records = vec![
        RelationshipRecord { id: "rId1".to_string(), rel_type: "D".to_string(), target: "../drawings/drawing1.xml".to_string(), mode: TargetMode::Internal },
        RelationshipRecord { id: "rId2".to_string(), rel_type: "V".to_string(), target: "../drawings/vml9.vml".to_string(), mode: TargetMode::Internal },
    ];
    let raw = RawRelationships::from_records("xl/worksheets/_rels/sheet1.xml.rels".to_string(), records, &a, "xl/worksheets");
    assert!(raw.relationship_list[0].raw_file.is_some());
    assert!(raw.relationship_list[1].raw_file.is_none());
    assert_eq!(raw.get_relationship_by_rid("rId2").unwrap().rel_type, "V");
    assert!(raw.get_relationship_by_rid("rId3").is_none());
    let mut mng = PartWriterManager::new();
    raw.write_to(&mut mng, None);
    let paths: Vec<&str> = mng.get_parts().iter().map(|p| p.path.as_str()).collect();
    assert_eq!(paths, vec!["xl/worksheets/_rels/sheet1.xml.rels", "xl/drawings/drawing1.xml"]);
    let mut mng = PartWriterManager::new();
    raw.write_to(&mut mng, Some("xl/other.rels"));
    assert_eq!(mng.get_parts()[0].path, "xl/other.rels");
}

#[test]
fn empty_raw_relationships_write_nothing() {
    let raw = RawRelationships::from_records("x.rels".to_string(), Vec::new(), &archive(), "xl");
    let mut mng = PartWriterManager::new();
    raw.write_to(&mut mng, None);
    assert!(mng.get_parts().is_empty());
}

#[test]
fn drawing_rels_number_charts_and_images() {
    let anchors = vec![
        Anchor { has_chart: true, image_name: None },
        Anchor { has_chart: false, image_name: Some("image1.png".to_string()) },
        Anchor { has_chart: true, image_name: None },
    ];
    let t = drawing_relationships(&anchors, 4);
    assert_eq!(t.entries.len(), 3);
    assert_eq!(t.entries[0].target, "../charts/chart4.xml");
    assert_eq!(t.entries[1].target, "../media/image1.png");
    assert_eq!(t.entries[2].target, "../charts/chart5.xml");
    assert_eq!(t.entries[2].id, "rId3");
    let mut mng = PartWriterManager::new();
    write_drawing_rels(&anchors, DrawingNumbers { drawing_id: 2, chart_start_id: 4 }, &mut mng);
    assert_eq!(mng.get_parts()[0].path, "xl/drawings/_rels/drawing2.xml.rels");
    let mut mng = PartWriterManager::new();
    write_drawing_rels(&vec![Anchor { has_chart: false, image_name: None }], DrawingNumbers { drawing_id: 1, chart_start_id: 1 }, &mut mng);
    assert!(mng.get_parts().is_empty());
}

#[test]
fn media_parts_under_xl_media() {
    let images = vec![Image { image_name: "a.png".to_string(), image_data: vec![1, 2, 3] }];
    let mut mng = PartWriterManager::new();
    write_media(&images, &mut mng);
    assert_eq!(mng.get_parts()[0].path, "xl/media/a.png");
    match &mng.get_parts()[0].data {
        PartData::Binary(b) => assert_eq!(b, &vec![1, 2, 3]),
        PartData::Text(_) => panic!("text part"),
    }
}

#[test]
fn columns_replace_and_write() {
    let mut c = Columns::new();
    c.set_column(col(2, 500));
    c.set_column(col(1, 500));
    c.set_column(col(2, 600));
    assert_eq!(c.get_column_collection().len(), 2);
    assert_eq!(c.get_column(2).unwrap().format.width, 600_000_000);
    assert!(c.get_column(3).is_none());
    let mut out = String::new();
    c.write_to(&mut out);
    assert_eq!(
        out,
        "<cols><col min=\"1\" max=\"1\" width=\"5\" customWidth=\"1\"/><col min=\"2\" max=\"2\" width=\"6\" customWidth=\"1\"/></cols>"
    );
}

#[test]
fn column_range_sets_each_column() {
    let mut c = Columns::new();
    c.set_column(col(3, 100));
    c.set_column(col(9, 100));
    c.set_column_range(2, 4, fmt(250));
    assert_eq!(c.get_column_collection().len(), 4);
    for i in 2..=4 {
        assert_eq!(c.get_column(i).unwrap().format, fmt(250));
    }
    assert_eq!(c.get_column(9).unwrap().format, fmt(100));
    let mut c2 = Columns::new();
    c2.set_column_range(5, 4, fmt(1));
    assert!(c2.get_column_collection().is_empty());
}

#[test]
fn decimal_text_parses() {
    assert_eq!(parse_u32_text("42"), Some(42));
    assert_eq!(parse_u32_text("007"), Some(7));
    assert_eq!(parse_u32_text("4294967295"), Some(4294967295));
    assert_eq!(parse_u32_text("4294967296"), None);
    assert_eq!(parse_u32_text(""), None);
    assert_eq!(parse_u32_text("1a"), None);
    assert_eq!(parse_u32_text("-1"), None);
}

#[test]
fn cols_events_fill_columns() {
    let mut c = Columns::new();
    let ev = ColsEvent::Col { min: Some("2".to_string()), max: Some("3".to_string()), format: fmt(700) };
    assert_eq!(c.apply_cols_event(ev), Ok(false));
    assert_eq!(c.apply_cols_event(ColsEvent::Other), Ok(false));
    assert_eq!(c.get_column_collection().len(), 2);
    assert_eq!(c.get_column(3).unwrap().format, fmt(700));
    let bad = ColsEvent::Col { min: None, max: Some("3".to_string()), format: fmt(1) };
    assert_eq!(c.apply_cols_event(bad), Err(ColsError::BadRange));
    let bad = ColsEvent::Col { min: Some("x".to_string()), max: Some("3".to_string()), format: fmt(1) };
    assert_eq!(c.apply_cols_event(bad), Err(ColsError::BadRange));
    assert_eq!(c.get_column(3).unwrap().format, fmt(700));
    assert_eq!(c.apply_cols_event(ColsEvent::EndCols), Ok(true));
    assert_eq!(c.apply_cols_event(ColsEvent::Eof), Err(ColsError::MissingEndTag));
}

fn rels_archive(rels: &str) -> Archive {
    Archive {
        entries: vec![
            ArchiveEntry { name: "xl/worksheets/_rels/sheet1.xml.rels".to_string(), data: rels.as_bytes().to_vec() },
            ArchiveEntry { name: "xl/drawings/drawing1.xml".to_string(), data: vec![5, 6] },
        ],
    }
}

#[test]
fn rels_part_loads_and_round_trips() {
    let xml = "<?xml version=\"1.0\" encoding=\"UTF-8\" standalone=\"yes\"?>\r\n\
<Relationships xmlns=\"http://schemas.openxmlformats.org/package/2006/relationships\">\
<Relationship Id=\"rId1\" Type=\"D\" Target=\"../drawings/drawing1.xml\"/>\
<Relationship Id=\"rId2\" Type=\"H\" Target=\"http://a?b&amp;c\" TargetMode=\"External\"/>\
</Relationships>";
    let a = rels_archive(xml);
    let raw = load_raw_relationships(&a, "xl/worksheets", "_rels/sheet1.xml.rels").unwrap().unwrap();
    assert_eq!(raw.file_target, "xl/worksheets/_rels/sheet1.xml.rels");
    assert_eq!(raw.relationship_list.len(), 2);
    assert_eq!(raw.relationship_list[1].target, "http://a?b&c");
    assert_eq!(raw.relationship_list[1].mode, TargetMode::External);
    assert_eq!(raw.relationship_list[0].raw_file.as_ref().unwrap().file_data, vec![5, 6]);
    let mut mng = PartWriterManager::new();
    raw.write_to(&mut mng, None);
    assert_eq!(text_of(&mng, 0), xml);
    assert_eq!(mng.get_parts()[1].path, "xl/drawings/drawing1.xml");
}

#[test]
fn absent_rels_part_is_no_error() {
    let a = rels_archive("<Relationships/>");
    assert!(load_raw_relationships(&a, "xl/worksheets", "_rels/sheet2.xml.rels").unwrap().is_none());
}

#[test]
fn malformed_rels_part_is_an_error() {
    let a = rels_archive("<Relationships><Relationship Id=\"rId1\"/></Other>");
    assert_eq!(load_raw_relationships(&a, "xl/worksheets", "_rels/sheet1.xml.rels").err(), Some(RelsError::Malformed));
}

#[test]
fn first_relationship_with_an_id_wins() {
    let records = vec![
        RelationshipRecord { id: "rId1".to_string(), rel_type: "A".to_string(), target: "a".to_string(), mode: TargetMode::Internal },
        RelationshipRecord { id: "rId1".to_string(), rel_type: "B".to_string(), target: "b".to_string(), mode: TargetMode::Internal },
    ];
    let raw = RawRelationships::from_records("x.rels".to_string(), records, &archive(), "xl");
    assert_eq!(raw.get_relationship_by_rid("rId1").unwrap().rel_type, "A");
}

fn read_back(text: &str) -> Columns {
    let mut reader = quick_xml::Reader::from_reader(text.as_bytes());
    let mut buf = Vec::new();
    let mut c = Columns::new();
    loop {
        let ev = match reader.read_event(&mut buf).unwrap() {
            quick_xml::events::Event::Empty(ref e) if e.name() == b"col" => {
                let mut min = None;
                let mut max = None;
                let mut width = 0;
                for a in e.attributes() {
                    let a = a.unwrap();
                    let v = String::from_utf8(a.value.to_vec()).unwrap();
                    match a.key {
                        b"min" => min = Some(v),
                        b"max" => max = Some(v),
                        b"width" => width = v.parse::<u64>().unwrap() * 100_000_000,
                        _ => {}
                    }
                }
                ColsEvent::Col { min, max, format: ColumnFormat { width, hidden: false, best_fit: false, style: 0 } }
            }
            quick_xml::events::Event::End(ref e) if e.name() == b"cols" => ColsEvent::EndCols,
            quick_xml::events::Event::Eof => ColsEvent::Eof,
            _ => ColsEvent::Other,
        };
        if c.apply_cols_event(ev).unwrap() {
            return c;
        }
        buf.clear();
    }
}

#[test]
fn written_cols_read_back_to_the_same_runs() {
    let cols = vec![col(1, 1000), col(2, 1000), col(3, 2000), col(4, 1000), col(7, 3000), col(8, 3000)];
    let runs = encode_runs(&cols);
    let mut text = String::new();
    write_runs(&mut text, &runs);
    let back = read_back(&text);
    assert_eq!(back.get_column_collection().len(), cols.len());
    assert_eq!(encode_runs(back.get_column_collection()), runs);
    let mut again = String::new();
    back.write_to(&mut again);
    assert_eq!(again, text);
}

#[test]
fn cols_without_end_tag_is_an_error() {
    let mut c = Columns::new();
    assert_eq!(c.apply_cols_event(ColsEvent::Col { min: Some("1".to_string()), max: Some("1".to_string()), format: fmt(100) }), Ok(false));
    assert_eq!(c.apply_cols_event(ColsEvent::Eof), Err(ColsError::MissingEndTag));
}

#[test]
fn auto_width_skips_merged_columns() {
    let mut c = Columns::new();
    c.set_column(col(3, 100));
    c.set_column(col(1, 100));
    c.set_column(col(2, 100));
    assert_eq!(c.auto_width_columns(&vec![2]), vec![3, 1]);
    assert_eq!(c.auto_width_columns(&vec![]), vec![3, 1, 2]);
}

#[test]
fn drawing_and_vml_lookups_take_the_first() {
    let d = "http://schemas.openxmlformats.org/officeDocument/2006/relationships/drawing";
    let records = vec![
        RelationshipRecord { id: "rId1".to_string(), rel_type: "X".to_string(), target: "x".to_string(), mode: TargetMode::Internal },
        RelationshipRecord { id: "rId2".to_string(), rel_type: d.to_string(), target: "../drawings/drawing1.xml".to_string(), mode: TargetMode::Internal },
        RelationshipRecord { id: "rId3".to_string(), rel_type: d.to_string(), target: "../drawings/none.xml".to_string(), mode: TargetMode::Internal },
    ];
    let raw = RawRelationships::from_records("xl/worksheets/_rels/sheet1.xml.rels".to_string(), records, &archive(), "xl/worksheets");
    let f = raw.get_drawing_raw_file().unwrap().as_ref().unwrap();
    assert_eq!(f.file_data, vec![7, 8, 9]);
    assert!(raw.get_vml_drawing_raw_file().is_none());
    assert_eq!(raw.get_file_name(), "sheet1.xml.rels");
}
