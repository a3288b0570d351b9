use ndlocr_lite_rs::output::docx::{
    content_types_xml, document_xml, document_xml_for_lines, escape_xml, root_rels_xml,
    split_lines, CONTENT_TYPES_XML, ROOT_RELS_XML,
};
use ndlocr_lite_rs::output::text::build_text;
use ndlocr_lite_rs::output::xml::{build_ocr_xml, escape_xml_text, XmlLine};

#[test]
fn text_joins_lines_with_newlines() {
    assert_eq!(build_text(&["a".to_string(), "b".to_string()]), "a\nb");
    assert_eq!(build_text(&[]), "");
    assert_eq!(build_text(&["".to_string(), "".to_string()]), "\n");
}

#[test]
fn xml_text_escapes_all_five_entities() {
    assert_eq!(
        escape_xml_text("<a href=\"x\">'&'</a>"),
        "&lt;a href=&quot;x&quot;&gt;&apos;&amp;&apos;&lt;/a&gt;"
    );
    assert_eq!(escape_xml_text("&amp;"), "&amp;amp;");
}

#[test]
fn docx_escape_leaves_quotes() {
    assert_eq!(escape_xml("a<b>&\"'"), "a&lt;b&gt;&amp;\"'");
}

#[test]
fn lines_split_like_str_lines() {
    for s in ["", "a", "a\n", "a\r\nb", "\n\n", "x\r", "a\n\nb\r\n", "\r\n"] {
        let expected: Vec<Vec<char>> = s.lines().map(|l| l.chars().collect()).collect();
        assert_eq!(split_lines(s), expected, "{s:?}");
    }
}

#[test]
fn document_has_one_paragraph_per_line() {
    let xml = document_xml("a<b\r\nc&");
    let expected = "<?xml version=\"1.0\" encoding=\"UTF-8\" standalone=\"yes\"?>\n<w:document xmlns:w=\"http://schemas.openxmlformats.org/wordprocessingml/2006/main\">\n  <w:body><w:p><w:r><w:t xml:space=\"preserve\">a&lt;b</w:t></w:r></w:p><w:p><w:r><w:t xml:space=\"preserve\">c&amp;</w:t></w:r></w:p><w:sectPr/></w:body>\n</w:document>";
    assert_eq!(xml, expected);
}

#[test]
fn empty_document_has_an_empty_paragraph() {
    let xml = document_xml("");
    assert!(xml.contains("<w:body><w:p/><w:sectPr/></w:body>"));
    assert_eq!(document_xml_for_lines(&[]), xml);
}

#[test]
fn package_parts_are_fixed() {
    assert_eq!(content_types_xml(), CONTENT_TYPES_XML);
    assert_eq!(root_rels_xml(), ROOT_RELS_XML);
    assert!(CONTENT_TYPES_XML.contains("/word/document.xml"));
}

#[test]
fn splitting_the_text_at_newlines_gives_the_lines_back() {
    for lines in [vec!["a"], vec!["", "x"], vec!["一行目", "", "三行目 "]] {
        let lines: Vec<String> = lines.into_iter().map(String::from).collect();
        let text = build_text(&lines);
        assert_eq!(text.split('\n').map(String::from).collect::<Vec<_>>(), lines);
    }
    assert_eq!(build_text(&[]), "");
}

#[test]
fn xml_page_lists_each_line_with_its_box_text_and_orientation() {
    let lines = vec![
        XmlLine {
            bbox_xyxy: [10, 20, 110, 52],
            text: "A&B <x>".to_string(),
            confidence: "0.913".to_string(),
            is_vertical: false,
        },
        XmlLine {
            bbox_xyxy: [-3, 7, -3, 5],
            text: "縦".to_string(),
            confidence: "1.000".to_string(),
            is_vertical: true,
        },
    ];
    let xml = build_ocr_xml(&lines, 1240, 1754, "page_001.jpg");
    let expected = [
        "<?xml version=\"1.0\" encoding=\"utf-8\" standalone=\"yes\"?>\n",
        "<OCRDATASET xmlns=\"\">\n",
        "  <PAGE IMAGENAME=\"page_001.jpg\" WIDTH=\"1240\" HEIGHT=\"1754\">\n",
        "    <TEXTBLOCK>\n",
        "      <LINE TYPE=\"line_main\" X=\"10\" Y=\"20\" WIDTH=\"100\" HEIGHT=\"32\" CONF=\"0.913\" STRING=\"A&amp;B &lt;x&gt;\" ORIENT=\"horizontal\"></LINE>\n",
        "      <LINE TYPE=\"line_main\" X=\"-3\" Y=\"7\" WIDTH=\"1\" HEIGHT=\"1\" CONF=\"1.000\" STRING=\"縦\" ORIENT=\"vertical\"></LINE>\n",
        "    </TEXTBLOCK>\n",
        "  </PAGE>\n",
        "</OCRDATASET>\n",
    ]
    .concat();
    assert_eq!(xml, expected);
}

#[test]
fn xml_page_without_lines_has_an_empty_text_block() {
    let xml = build_ocr_xml(&[], 0, 9, "p");
    assert_eq!(
        xml,
        "<?xml version=\"1.0\" encoding=\"utf-8\" standalone=\"yes\"?>\n<OCRDATASET xmlns=\"\">\n  <PAGE IMAGENAME=\"p\" WIDTH=\"0\" HEIGHT=\"9\">\n    <TEXTBLOCK>\n    </TEXTBLOCK>\n  </PAGE>\n</OCRDATASET>\n"
    );
}
