use docx_opencc::report::{html_page, html_part};
use docx_opencc::{DocxXMl, XMLSimpParser};

fn docx<'a>(xml: &str, cfg: &'a str) -> DocxXMl<'a> {
    DocxXMl::new(XMLSimpParser::new(&xml.to_string()), cfg)
}

fn strings(v: &[&str]) -> Vec<String> {
    v.iter().map(|s| s.to_string()).collect()
}

#[test]
fn new_parses_and_keeps_config() {
    let d = docx("<w:p><w:t>ab</w:t></w:p>", "t2s.json");
    assert_eq!(d.xml_parser().tokenized_text_list.len(), 5);
    assert_eq!(d.opencc_config_filepath(), "t2s.json");
}

#[test]
fn zi_sum_counts_text_inside_paragraph_and_run() {
    let d = docx("<w:p><w:t>ab</w:t>cd</w:p><w:t>ef</w:t><w:p><w:t>汉</w:t>", "c");
    assert_eq!(d.get_zi_sum(), 3);
}

#[test]
fn zi_sum_of_document_without_paragraphs_is_zero() {
    let d = docx("<w:t>abc</w:t>", "c");
    assert_eq!(d.get_zi_sum(), 0);
}

#[test]
fn paragraphs_leave_out_open_and_empty_ones() {
    let mut d = docx(
        "<w:p></w:p><w:p><w:r><w:t>x</w:t><w:t>y</w:t></w:r></w:p><w:p><w:t>open</w:t>",
        "c",
    );
    assert_eq!(d.paragraphs_to_convert(), strings(&["xy"]));
}

#[test]
fn identity_conversion_changes_nothing() {
    let xml = "<?xml version=\"1.0\"?><w:p><w:r><w:t>ab</w:t></w:r></w:p><w:p><w:t>c</w:t></w:p>";
    let mut d = docx(xml, "c");
    let paras = d.paragraphs_to_convert();
    assert_eq!(paras, strings(&["ab", "c"]));
    let results = strings(&["a1b1", "c0"]);
    assert!(d.accepts_conversion(&results));
    let mut text = String::from("old");
    let mut html = String::new();
    let n = d.convert(&results, &mut text, &mut html);
    assert_eq!(n, 3);
    assert_eq!(text, xml);
    assert_eq!(html, "<p>ab</p>\n<p>c</p>\n");
}

#[test]
fn changed_characters_are_highlighted() {
    let mut d = docx("<w:p><w:t>后来</w:t></w:p>", "c");
    let _ = d.paragraphs_to_convert();
    let results = strings(&["後2來9"]);
    let mut text = String::new();
    let mut html = String::from("<h1>x</h1>");
    let n = d.convert(&results, &mut text, &mut html);
    assert_eq!(n, 2);
    assert_eq!(text, "<w:p><w:t>後來</w:t></w:p>");
    assert_eq!(
        html,
        "<h1>x</h1><p><span style=\"color: #ff0000\">後◣</span><span style=\"color: #ff0000\">來◣</span></p>\n"
    );
}

#[test]
fn last_run_takes_the_remainder() {
    let mut d = docx("<w:p><w:t>ab</w:t><w:t>cd</w:t></w:p>", "c");
    let _ = d.paragraphs_to_convert();
    let longer = strings(&["w1x1y1z1q1"]);
    assert!(d.accepts_conversion(&longer));
    let mut text = String::new();
    let mut html = String::new();
    assert_eq!(d.convert(&longer, &mut text, &mut html), 5);
    assert_eq!(text, "<w:p><w:t>wx</w:t><w:t>yzq</w:t></w:p>");
    assert_eq!(html, "<p>wxyzq</p>\n");
}

#[test]
fn shorter_result_leaves_last_run_short() {
    let mut d = docx("<w:p><w:t>ab</w:t><w:t>cd</w:t></w:p>", "c");
    let _ = d.paragraphs_to_convert();
    let shorter = strings(&["w1x1y1"]);
    assert!(d.accepts_conversion(&shorter));
    let mut text = String::new();
    let mut html = String::new();
    assert_eq!(d.convert(&shorter, &mut text, &mut html), 3);
    assert_eq!(text, "<w:p><w:t>wx</w:t><w:t>y</w:t></w:p>");
}

#[test]
fn result_too_short_for_the_runs_is_refused() {
    let mut d = docx("<w:p><w:t>ab</w:t><w:t>cd</w:t></w:p>", "c");
    let _ = d.paragraphs_to_convert();
    assert!(!d.accepts_conversion(&strings(&["w1"])));
    assert!(d.accepts_conversion(&strings(&["w1x1"])));
}

#[test]
fn bad_marker_or_count_is_refused() {
    let mut d = docx("<w:p><w:t>ab</w:t></w:p>", "c");
    let _ = d.paragraphs_to_convert();
    assert!(!d.accepts_conversion(&strings(&["a1bx"])));
    assert!(!d.accepts_conversion(&strings(&[])));
    assert!(!d.accepts_conversion(&strings(&["a1b1", "c1"])));
    // a last unpaired character is not a marker and is ignored
    assert!(d.accepts_conversion(&strings(&["a1b1z"])));
}

#[test]
fn groups_accumulate_over_calls() {
    let mut d = docx("<w:p><w:t>ab</w:t></w:p>", "c");
    assert_eq!(d.paragraphs_to_convert(), strings(&["ab"]));
    assert_eq!(d.paragraphs_to_convert(), strings(&["ab", "ab"]));
    let results = strings(&["x1y1", "p1q1"]);
    assert!(d.accepts_conversion(&results));
    let mut html = String::new();
    assert_eq!(d.convert_all_paras(&results, &mut html), 4);
    assert_eq!(d.xml_parser().counter_parse(), "<w:p><w:t>pq</w:t></w:p>");
    assert_eq!(html, "<p>xy</p>\n<p>pq</p>\n");
}

#[test]
fn convert_all_paras_fills_runs_and_html() {
    let mut d = docx("<w:p><w:t>ab</w:t></w:p><w:p><w:t>c</w:t></w:p>", "c");
    let _ = d.paragraphs_to_convert();
    let mut html = String::new();
    let n = d.convert_all_paras(&strings(&["A1B3", "C1"]), &mut html);
    assert_eq!(n, 3);
    assert_eq!(html, "<p>A<span style=\"color: #ff0000\">B◣</span></p>\n<p>C</p>\n");
    assert_eq!(d.xml_parser().counter_parse(), "<w:p><w:t>AB</w:t></w:p><w:p><w:t>C</w:t></w:p>");
}

#[test]
fn split_reads_pairs_and_ignores_a_trailing_char() {
    let d = docx("x", "c");
    let mut text = String::from(">");
    let mut html = String::new();
    let n = d.split_converted_result("a1b2c", &mut text, &mut html);
    assert_eq!(n, 2);
    assert_eq!(text, ">ab");
    assert_eq!(html, "a<span style=\"color: #ff0000\">b◣</span>");
}

#[test]
fn paragraph_text_joins_runs() {
    let d = docx("<w:p><w:t>ab</w:t><w:t>cd</w:t></w:p>", "c");
    assert_eq!(d.paragraph_text(&vec![2, 5]), "abcd");
    assert_eq!(d.paragraph_text(&vec![]), "");
}

#[test]
fn length_preserving_conversion_keeps_the_count() {
    let mut d = docx("<w:p><w:t>学</w:t><w:t>习</w:t></w:p><w:p><w:t>书</w:t></w:p>", "c");
    let before = d.get_zi_sum();
    let _ = d.paragraphs_to_convert();
    let results = strings(&["學2習2", "書2"]);
    let mut text = String::new();
    let mut html = String::new();
    assert_eq!(d.convert(&results, &mut text, &mut html), before);
    assert_eq!(d.get_zi_sum(), before);
}

#[test]
fn html_part_and_page() {
    let mut content = String::from("A");
    html_part(&mut content, "word/document.xml", "<p>x</p>\n");
    assert_eq!(content, "A<div class=\"word/document.xml\">\n<p>x</p>\n</div>\n<br />\n");
    assert_eq!(
        html_page("B"),
        "<!DOCTYPE html>\n<html>\n<body>\nB</body>\n</html>"
    );
}

#[test]
fn every_paragraph_reads_back_its_conversion() {
    let mut d = docx(
        "<w:p><w:t>ab</w:t><w:t>c</w:t></w:p><w:p><w:t>de</w:t></w:p>",
        "c",
    );
    let _ = d.paragraphs_to_convert();
    let results = strings(&["X1Y1", "P1Q1R1"]);
    assert!(d.accepts_conversion(&results));
    let mut text = String::new();
    let mut html = String::new();
    d.convert(&results, &mut text, &mut html);
    assert_eq!(d.paragraph_text(&vec![2, 5]), "XY");
    assert_eq!(d.paragraph_text(&vec![10]), "PQR");
    assert_eq!(text, "<w:p><w:t>XY</w:t><w:t></w:t></w:p><w:p><w:t>PQR</w:t></w:p>");
}

#[test]
fn new_reads_all_of_the_input() {
    let d = docx("<w:p>x</w:p>", "c");
    assert_eq!(d.xml_parser().counter_parse(), "<w:p>x</w:p>");
}
