use docx_opencc::text::{chars_of, char_count, has_prefix, same_chars, string_of, string_of_range};
use docx_opencc::{XMLSimpParser, XMLSimpToken};

fn tokens_of(xml: &str) -> Vec<(XMLSimpToken, String)> {
    let mut p = XMLSimpParser::new(&xml.to_string());
    let list = p.parse();
    list.iter().map(|t| (t.token, t.text.clone())).collect()
}

fn tok(k: XMLSimpToken, s: &str) -> (XMLSimpToken, String) {
    (k, s.to_string())
}

#[test]
fn parse_splits_tags_and_text() {
    let toks = tokens_of("<w:p><w:t>abc</w:t></w:p>");
    assert_eq!(
        toks,
        vec![
            tok(XMLSimpToken::TagWpBeg, "<w:p>"),
            tok(XMLSimpToken::TagWtBeg, "<w:t>"),
            tok(XMLSimpToken::Text, "abc"),
            tok(XMLSimpToken::TagWtEnd, "</w:t>"),
            tok(XMLSimpToken::TagWpEnd, "</w:p>"),
        ]
    );
}

#[test]
fn classify_every_kind() {
    let toks = tokens_of(
        "<?xml version=\"1.0\"?><w:p w:rsid=\"1\"><w:pPr/><w:r><w:t xml:space=\"preserve\">x</w:t></w:r></w:p>",
    );
    assert_eq!(
        toks,
        vec![
            tok(XMLSimpToken::TagProlog, "<?xml version=\"1.0\"?>"),
            tok(XMLSimpToken::TagWpBeg, "<w:p w:rsid=\"1\">"),
            tok(XMLSimpToken::TagOtherBegEnd, "<w:pPr/>"),
            tok(XMLSimpToken::TagOtherBeg, "<w:r>"),
            tok(XMLSimpToken::TagWtBeg, "<w:t xml:space=\"preserve\">"),
            tok(XMLSimpToken::Text, "x"),
            tok(XMLSimpToken::TagWtEnd, "</w:t>"),
            tok(XMLSimpToken::TagOtherEnd, "</w:r>"),
            tok(XMLSimpToken::TagWpEnd, "</w:p>"),
        ]
    );
}

#[test]
fn short_tags_fall_back() {
    // "<?>" is too short for a prolog; "</>" ends with "/>" and counts as self-closing.
    let toks = tokens_of("<?><a></>");
    assert_eq!(
        toks,
        vec![
            tok(XMLSimpToken::TagOtherBeg, "<?>"),
            tok(XMLSimpToken::TagOtherBeg, "<a>"),
            tok(XMLSimpToken::TagOtherBegEnd, "</>"),
        ]
    );
}

#[test]
fn wp_lookalikes_are_other_tags() {
    let toks = tokens_of("<w:pPr><w:tab><w:p>");
    assert_eq!(
        toks,
        vec![
            tok(XMLSimpToken::TagOtherBeg, "<w:pPr>"),
            tok(XMLSimpToken::TagOtherBeg, "<w:tab>"),
            tok(XMLSimpToken::TagWpBeg, "<w:p>"),
        ]
    );
}

#[test]
fn last_character_closes_the_piece() {
    // A final '<' is kept in the pending piece instead of opening a new one.
    assert_eq!(tokens_of("ab<"), vec![tok(XMLSimpToken::Text, "ab<")]);
    assert_eq!(tokens_of("<"), vec![tok(XMLSimpToken::TagOtherBeg, "<")]);
    assert_eq!(tokens_of("x"), vec![tok(XMLSimpToken::Text, "x")]);
}

#[test]
fn stray_close_angle_ends_text_piece() {
    assert_eq!(
        tokens_of("a>b"),
        vec![tok(XMLSimpToken::Text, "a>"), tok(XMLSimpToken::Text, "b")]
    );
}

#[test]
fn open_angle_flushes_pending_text() {
    assert_eq!(
        tokens_of("hi<b>yo"),
        vec![
            tok(XMLSimpToken::Text, "hi"),
            tok(XMLSimpToken::TagOtherBeg, "<b>"),
            tok(XMLSimpToken::Text, "yo"),
        ]
    );
}

#[test]
fn counter_parse_gives_back_the_input() {
    let inputs = [
        "<?xml version=\"1.0\"?><w:document><w:body><w:p><w:r><w:t>汉字 text</w:t></w:r></w:p></w:body></w:document>",
        "plain",
        "a<b",
        ">><<>",
        "<w:p>x</w:p>\n",
    ];
    for s in inputs.iter() {
        let mut p = XMLSimpParser::new(&s.to_string());
        p.parse();
        assert_eq!(p.counter_parse(), s.to_string());
    }
}

#[test]
fn parse_returns_the_token_list() {
    let mut p = XMLSimpParser::new(&"<a>b".to_string());
    let n = p.parse().len();
    assert_eq!(n, 2);
    assert_eq!(p.tokenized_text_list.len(), 2);
    assert_eq!(p.tokenized_text_list[1].text, "b");
}

#[test]
fn char_helpers() {
    let v = chars_of("汉a字");
    assert_eq!(v, vec!['汉', 'a', '字']);
    assert_eq!(string_of(&v), "汉a字");
    assert_eq!(string_of_range(&v, 1, 3), "a字");
    assert_eq!(string_of_range(&v, 2, 2), "");
    assert_eq!(char_count(&"汉a字".to_string()), 3);
    assert!(has_prefix(&v, &vec!['汉', 'a']));
    assert!(!has_prefix(&v, &vec!['a']));
    assert!(!has_prefix(&vec!['x'], &vec!['x', 'y']));
    assert!(same_chars(&v, &vec!['汉', 'a', '字']));
    assert!(!same_chars(&v, &vec!['汉', 'a']));
}
