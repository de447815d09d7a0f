//! A document part (document, footnotes, endnotes): its tokens, the
//! paragraphs to convert, and the writing back of converted text.
use vstd::prelude::*;

use crate::common::{TokView, XMLSimpToken, lemma_texts_concat_add, texts_concat, view_tokens};
use crate::paragraphs::{
    conversion_acceptable, converted_state, converted_total, even_chars, fill_group, fill_upto, fits,
    flags_before, group_ok, groups_ok, groups_upto, html_all, html_upto, is_digit,
    lemma_converted_state_shape, lemma_converted_total_groups_chars,
    lemma_every_paragraph_reads_back, lemma_fill_lengths, lemma_fill_upto,
    lemma_groups_upto_shape, lemma_identity_conversion, lemma_offset_mono, lemma_text_groups_shape,
    lemma_unchanged_html, lemma_zi_sum_is_paragraph_chars, lemma_zi_sum_mono,
    lemma_zi_sum_when_paragraphs_closed, lemma_zi_sum_within_text, marked_html, marks_ok, offset,
    para_text, para_text_upto, paragraphs_closed, paragraphs_html, text_groups, unmarked, zi_sum,
    zi_sum_upto,
};
use crate::text::{char_count, chars_of, push_char, string_of_range};
use crate::xml_simp_parser::{
    XMLSimpParser, lemma_parse_roundtrip, lemma_pieces_count, lemma_split_pieces_concat, tokens_of,
};

verus! {

/// The index groups as sequences.
pub open spec fn groups_view(v: Seq<Vec<usize>>) -> Seq<Seq<usize>> {
    v.map_values(|g: Vec<usize>| g@)
}

/// The characters of each string.
pub open spec fn strings_view(v: Seq<String>) -> Seq<Seq<char>> {
    v.map_values(|s: String| s@)
}

/// A parsed document part and the paragraphs found in it.
#[derive(Debug)]
pub struct DocxXMl<'a> {
    xml_parser: XMLSimpParser,
    // { {a, b, c}, {m, n} }: a, b, c are the indices of the texts that hold one paragraph
    text_index_groups: Vec<Vec<usize>>,
    opencc_config_filepath: &'a str,
}

impl<'a> DocxXMl<'a> {
    /// The parser that holds the document part.
    pub closed spec fn parser(&self) -> XMLSimpParser {
        self.xml_parser
    }

    /// The tokens of the document part.
    pub open spec fn tokens(&self) -> Seq<TokView> {
        self.parser().tokens()
    }

    /// The parser's input, read position and pending characters are those of `other`.
    pub open spec fn same_input(&self, other: &Self) -> bool {
        &&& self.parser().source() == other.parser().source()
        &&& self.parser().pos() == other.parser().pos()
        &&& self.parser().pending() == other.parser().pending()
    }

    /// The paragraphs found so far, each as the indices of its texts.
    pub closed spec fn groups(&self) -> Seq<Seq<usize>> {
        groups_view(self.text_index_groups@)
    }

    /// The path of the converter's configuration.
    pub closed spec fn config_path(&self) -> Seq<char> {
        self.opencc_config_filepath@
    }

    /// The paragraphs point at existing tokens, each token at most once per paragraph.
    pub open spec fn wf(&self) -> bool {
        &&& self.tokens().len() <= usize::MAX
        &&& groups_ok(self.tokens(), self.groups())
    }

    /// Parses the rest of `xml_parser`'s input and keeps the parser.
    pub fn new(xml_parser: XMLSimpParser, opencc_config_filepath: &'a str) -> (r: Self)
        requires
            xml_parser.pos() < xml_parser.source().len(),
        ensures
            r.tokens() == xml_parser.tokens() + xml_parser.tokens_of_rest(),
            r.parser().source() == xml_parser.source(),
            r.parser().pos() == xml_parser.source().len(),
            r.parser().pending() == Seq::<char>::empty(),
            texts_concat(r.tokens()) == texts_concat(xml_parser.tokens()) + xml_parser.pending()
                + xml_parser.source().subrange(
                xml_parser.pos() as int,
                xml_parser.source().len() as int,
            ),
            r.groups() == Seq::<Seq<usize>>::empty(),
            r.config_path() == opencc_config_filepath@,
            r.wf(),
    {
        let mut xml_parser = xml_parser;
        let ghost p0 = xml_parser;
        xml_parser.parse();
        let r = DocxXMl { xml_parser, text_index_groups: Vec::new(), opencc_config_filepath };
        proof {
            r.xml_parser.lemma_tokens_view();
            assert(r.xml_parser.tokenized_text_list.len() == r.xml_parser.tokenized_text_list@.len());
            assert(r.groups() =~= Seq::<Seq<usize>>::empty());
            lemma_split_pieces_concat(
                p0.source().subrange(p0.pos() as int, p0.source().len() as int),
                p0.pending(),
            );
            lemma_texts_concat_add(p0.tokens(), p0.tokens_of_rest());
            assert(texts_concat(p0.tokens()) + (p0.pending() + p0.source().subrange(
                p0.pos() as int,
                p0.source().len() as int,
            )) =~= texts_concat(p0.tokens()) + p0.pending() + p0.source().subrange(
                p0.pos() as int,
                p0.source().len() as int,
            ));
        }
        r
    }

    /// The parser, with the document part's tokens.
    pub fn xml_parser(&self) -> (r: &XMLSimpParser)
        ensures
            *r == self.parser(),
    {
        &self.xml_parser
    }

    /// The path of the converter's configuration.
    pub fn opencc_config_filepath(&self) -> (r: &'a str)
        ensures
            r@ == self.config_path(),
    {
        self.opencc_config_filepath
    }

    /// Number of characters in the texts that lie inside a `<w:p>` and a `<w:t>`.
    pub fn get_zi_sum(&self) -> (zi_sum_r: usize)
        requires
            zi_sum(self.tokens()) <= usize::MAX,
        ensures
            zi_sum_r == zi_sum(self.tokens()),
    {
        let mut zi_sum_acc: usize = 0;
        let mut is_wp: bool = false;
        let mut is_wt: bool = false;
        let list = &self.xml_parser.tokenized_text_list;
        let n = list.len();
        let ghost v = self.tokens();
        proof {
            self.xml_parser.lemma_tokens_view();
        }
        for i in 0..n
            invariant
                n == v.len(),
                v == view_tokens(list@),
                zi_sum(v) <= usize::MAX,
                (is_wp, is_wt) == flags_before(v, i as int),
                zi_sum_acc == zi_sum_upto(v, i as int),
        {
            let stru = &list[i];
            assert(v[i as int] == stru@);
            match stru.token {
                XMLSimpToken::TagWpBeg => is_wp = true,
                XMLSimpToken::TagWpEnd => is_wp = false,
                XMLSimpToken::TagWtBeg => is_wt = true,
                XMLSimpToken::TagWtEnd => is_wt = false,
                XMLSimpToken::Text => {
                    if is_wp && is_wt {
                        proof {
                            lemma_zi_sum_mono(v, i + 1, v.len() as int);
                        }
                        zi_sum_acc += char_count(&stru.text);
                    }
                },
                _ => {},
            }
        }
        zi_sum_acc
    }

    /// Appends the paragraphs of the tokens, each as the indices of the texts
    /// inside it (a paragraph without such texts is left out).
    fn get_text_index_groups(&mut self)
        requires
            old(self).wf(),
        ensures
            final(self).tokens() == old(self).tokens(),
            final(self).config_path() == old(self).config_path(),
            final(self).groups() == old(self).groups() + text_groups(old(self).tokens()),
            final(self).same_input(old(self)),
            final(self).wf(),
    {
        let mut one_group: Vec<usize> = Vec::new();
        let mut is_wp: bool = false;
        let mut is_wt: bool = false;
        let n = self.xml_parser.tokenized_text_list.len();
        let ghost v = self.tokens();
        let ghost g0 = self.groups();
        proof {
            self.xml_parser.lemma_tokens_view();
            assert(g0 + groups_upto(v, 0).0 =~= g0);
        }
        for i in 0..n
            invariant
                n == v.len(),
                v == self.tokens(),
                v == view_tokens(self.xml_parser.tokenized_text_list@),
                self.config_path() == old(self).config_path(),
                g0 == old(self).groups(),
                self.xml_parser.xml == old(self).xml_parser.xml,
                self.xml_parser.p == old(self).xml_parser.p,
                self.xml_parser.xml_buf == old(self).xml_parser.xml_buf,
                (is_wp, is_wt) == flags_before(v, i as int),
                self.groups() == g0 + groups_upto(v, i as int).0,
                one_group@ == groups_upto(v, i as int).1,
        {
            let ghost gs_before = self.groups();
            match self.xml_parser.tokenized_text_list[i].token {
                XMLSimpToken::TagWpBeg => is_wp = true,
                XMLSimpToken::TagWpEnd => {
                    if one_group.len() != 0 {
                        self.text_index_groups.push(one_group);
                        assert(self.groups() =~= gs_before.push(groups_upto(v, i as int).1));
                    }
                    one_group = Vec::new();
                    is_wp = false;
                },
                XMLSimpToken::TagWtBeg => is_wt = true,
                XMLSimpToken::TagWtEnd => is_wt = false,
                XMLSimpToken::Text => {
                    if is_wp && is_wt {
                        one_group.push(i);
                    }
                },
                _ => {},
            }
            assert(self.groups() =~= g0 + groups_upto(v, i + 1).0);
        }
        proof {
            self.xml_parser.lemma_tokens_view();
            old(self).xml_parser.lemma_tokens_view();
            lemma_groups_upto_shape(v, v.len() as int);
            let gs = self.groups();
            assert forall|k: int| 0 <= k < gs.len() implies group_ok(v, #[trigger] gs[k]) by {
                if k < g0.len() {
                    assert(gs[k] == g0[k]);
                } else {
                    assert(gs[k] == text_groups(v)[k - g0.len()]);
                }
            }
        }
    }

    /// The text of a paragraph: the texts at the indices of `vec`, joined.
    pub fn paragraph_text(&self, vec: &Vec<usize>) -> (one_para: String)
        requires
            forall|i: int| 0 <= i < vec@.len() ==> (#[trigger] vec@[i]) < self.tokens().len(),
        ensures
            one_para@ == para_text(self.tokens(), vec@),
    {
        let mut one_para: String = String::new();
        let ghost v = self.tokens();
        proof {
            self.xml_parser.lemma_tokens_view();
        }
        for j in 0..vec.len()
            invariant
                v == self.tokens(),
                v == view_tokens(self.xml_parser.tokenized_text_list@),
                forall|i: int| 0 <= i < vec@.len() ==> (#[trigger] vec@[i]) < v.len(),
                one_para@ == para_text_upto(v, vec@, j as int),
        {
            let index = vec[j];
            one_para.append(self.xml_parser.tokenized_text_list[index].text.as_str());
        }
        one_para
    }

    /// Finds the paragraphs of the document part and hands out the text of
    /// every paragraph found so far, in order, for conversion.
    pub fn paragraphs_to_convert(&mut self) -> (paras: Vec<String>)
        requires
            old(self).wf(),
        ensures
            final(self).tokens() == old(self).tokens(),
            final(self).config_path() == old(self).config_path(),
            final(self).groups() == old(self).groups() + text_groups(old(self).tokens()),
            final(self).same_input(old(self)),
            final(self).wf(),
            paras@.len() == final(self).groups().len(),
            forall|k: int|
                0 <= k < paras@.len() ==> (#[trigger] paras@[k])@ == para_text(
                    final(self).tokens(),
                    final(self).groups()[k],
                ),
    {
        self.get_text_index_groups();
        let mut paras: Vec<String> = Vec::new();
        let n = self.text_index_groups.len();
        for k in 0..n
            invariant
                n == self.groups().len(),
                self.wf(),
                paras@.len() == k,
                forall|j: int|
                    0 <= j < k ==> (#[trigger] paras@[j])@ == para_text(
                        self.tokens(),
                        self.groups()[j],
                    ),
        {
            assert(self.groups()[k as int] == self.text_index_groups@[k as int]@);
            assert(group_ok(self.tokens(), self.groups()[k as int]));
            let p = self.paragraph_text(&self.text_index_groups[k]);
            paras.push(p);
        }
        paras
    }

    /// Reads the converter's output as pairs (character, marker digit):
    /// appends the characters to `converted_text`, and to `converted_html`
    /// each character, highlighted where its marker is above 1. Returns the
    /// number of pairs; a last unpaired character is ignored.
    pub fn split_converted_result(
        &self,
        converted_text_with_marker: &str,
        converted_text: &mut String,
        converted_html: &mut String,
    ) -> (n: usize)
        requires
            marks_ok(converted_text_with_marker@),
        ensures
            final(converted_text)@ == old(converted_text)@ + even_chars(
                converted_text_with_marker@,
            ),
            final(converted_html)@ == old(converted_html)@ + marked_html(
                converted_text_with_marker@,
            ),
            n == converted_text_with_marker@.len() / 2,
    {
        let converted_chars_with_marker: Vec<char> = chars_of(converted_text_with_marker);
        let ghost r = converted_text_with_marker@;
        let half = converted_chars_with_marker.len() / 2;
        for i in 0..half
            invariant
                converted_chars_with_marker@ == r,
                half == r.len() / 2,
                marks_ok(r),
                converted_text@ == old(converted_text)@ + even_chars(r).take(i as int),
                converted_html@ == old(converted_html)@ + html_upto(r, i as int),
        {
            let idx = i * 2;
            let c: char = converted_chars_with_marker[idx];
            let m: char = converted_chars_with_marker[idx + 1];
            assert(r[2 * i + 1] == m);
            let marker: u32 = (m as u32) - 48;
            push_char(converted_text, c);
            assert(even_chars(r).take(i + 1) =~= even_chars(r).take(i as int).push(c));
            if marker > 1 {
                converted_html.append("<span style=\"color: #ff0000\">");
                push_char(converted_html, c);
                converted_html.append("◣</span>");
            } else {
                push_char(converted_html, c);
            }
            assert(converted_html@ =~= old(converted_html)@ + html_upto(r, i + 1));
            assert(converted_text@ =~= old(converted_text)@ + even_chars(r).take(i + 1));
        }
        assert(even_chars(r).take(half as int) =~= even_chars(r));
        half
    }

    /// Writes the converted paragraph back: `converted_text_with_marker` is the
    /// converter's output for the paragraph of the texts at `vec`; each text
    /// but the last takes as many converted characters as it held, the last
    /// takes all that remain. Appends the paragraph's HTML to
    /// `one_para_converted_html` and returns the number of converted characters.
    fn convert_one_para(
        &mut self,
        vec: &Vec<usize>,
        converted_text_with_marker: &str,
        one_para_converted_html: &mut String,
    ) -> (n: usize)
        requires
            group_ok(old(self).tokens(), vec@),
            marks_ok(converted_text_with_marker@),
            fits(old(self).tokens(), vec@, even_chars(converted_text_with_marker@)),
        ensures
            final(self).tokens() == fill_group(
                old(self).tokens(),
                vec@,
                even_chars(converted_text_with_marker@),
            ),
            final(self).groups() == old(self).groups(),
            final(self).config_path() == old(self).config_path(),
            final(self).same_input(old(self)),
            final(one_para_converted_html)@ == old(one_para_converted_html)@ + marked_html(
                converted_text_with_marker@,
            ),
            n == converted_text_with_marker@.len() / 2,
    {
        let mut one_para_converted: String = String::new();
        let converted_one_para_zi_sum: usize = self.split_converted_result(
            converted_text_with_marker,
            &mut one_para_converted,
            one_para_converted_html,
        );
        let one_para_converted_chars: Vec<char> = chars_of(one_para_converted.as_str());
        let ghost c = even_chars(converted_text_with_marker@);
        let ghost v0 = self.tokens();
        let ghost g = vec@;
        assert(one_para_converted_chars@ =~= c);
        proof {
            self.xml_parser.lemma_tokens_view();
        }
        let m = vec.len();
        let mut offset_acc: usize = 0;
        for i in 0..m
            invariant
                m == g.len(),
                g == vec@,
                group_ok(v0, g),
                fits(v0, g, c),
                one_para_converted_chars@ == c,
                self.groups() == old(self).groups(),
                self.config_path() == old(self).config_path(),
                self.tokens() == fill_upto(v0, g, c, i as int),
                self.xml_parser.xml == old(self).xml_parser.xml,
                self.xml_parser.p == old(self).xml_parser.p,
                self.xml_parser.xml_buf == old(self).xml_parser.xml_buf,
                self.tokens() == view_tokens(self.xml_parser.tokenized_text_list@),
                i < m ==> offset_acc == offset(v0, g, i as int),
        {
            let index: usize = vec[i];
            proof {
                lemma_fill_upto(v0, g, c, i as int);
                lemma_offset_mono(v0, g, i as int, m - 1);
                if i + 1 < m {
                    lemma_offset_mono(v0, g, i + 1, m - 1);
                }
            }
            assert(self.tokens()[index as int] == v0[index as int]);
            assert(self.xml_parser.tokenized_text_list@[index as int]@ == self.tokens()[index as int]);
            assert(offset(v0, g, i + 1) == offset(v0, g, i as int) + v0[index as int].1.len());
            let run_chars_len = char_count(
                &self.xml_parser.tokenized_text_list[index].text,
            );
            assert(run_chars_len == v0[index as int].1.len());
            let clen = one_para_converted_chars.len();
            assert(offset(v0, g, m - 1) <= clen);
            let new_text = if i == m - 1 {
                string_of_range(&one_para_converted_chars, offset_acc, one_para_converted_chars.len())
            } else {
                string_of_range(
                    &one_para_converted_chars,
                    offset_acc,
                    offset_acc + run_chars_len,
                )
            };
            let ghost before = self.xml_parser.tokenized_text_list@;
            self.xml_parser.tokenized_text_list[index].text = new_text;
            proof {
                self.xml_parser.lemma_tokens_view();
                assert(view_tokens(self.xml_parser.tokenized_text_list@) =~= fill_upto(
                    v0,
                    g,
                    c,
                    i + 1,
                ));
            }
            if i + 1 < m {
                offset_acc = offset_acc + run_chars_len;
            }
        }
        proof {
            self.xml_parser.lemma_tokens_view();
            old(self).xml_parser.lemma_tokens_view();
        }
        converted_one_para_zi_sum
    }

    /// Writes the converted texts `converted` into the paragraphs, in order,
    /// appending to `html_all_paras` one `<p>` per paragraph. Returns the
    /// number of converted characters.
    pub fn convert_all_paras(
        &mut self,
        converted: &Vec<String>,
        html_all_paras: &mut String,
    ) -> (n: usize)
        requires
            old(self).wf(),
            conversion_acceptable(old(self).tokens(), old(self).groups(), strings_view(converted@)),
        ensures
            final(self).tokens() == converted_state(
                old(self).tokens(),
                old(self).groups(),
                strings_view(converted@),
                old(self).groups().len() as int,
            ),
            final(self).groups() == old(self).groups(),
            final(self).config_path() == old(self).config_path(),
            final(self).same_input(old(self)),
            final(self).wf(),
            final(html_all_paras)@ == old(html_all_paras)@ + html_all(
                strings_view(converted@),
                converted@.len() as int,
            ),
            n == converted_total(strings_view(converted@), converted@.len() as int),
    {
        let mut converted_all_paras_zi_sum: usize = 0;
        let ghost v0 = self.tokens();
        let ghost gs = self.groups();
        let ghost rs = strings_view(converted@);
        let n = self.text_index_groups.len();
        assert(old(html_all_paras)@ + html_all(rs, 0) =~= old(html_all_paras)@);
        for k in 0..n
            invariant
                n == gs.len(),
                rs == strings_view(converted@),
                rs.len() == n,
                gs == self.groups(),
                groups_ok(v0, gs),
                self.tokens().len() == v0.len(),
                v0.len() <= usize::MAX,
                conversion_acceptable(v0, gs, rs),
                self.config_path() == old(self).config_path(),
                self.tokens() == converted_state(v0, gs, rs, k as int),
                self.same_input(old(self)),
                html_all_paras@ == old(html_all_paras)@ + html_all(rs, k as int),
                converted_all_paras_zi_sum == converted_total(rs, k as int),
        {
            proof {
                lemma_converted_state_shape(v0, gs, rs, k as int);
                lemma_converted_total_mono(rs, k + 1, n as int);
                assert(marks_ok(rs[k as int]));
                assert(fits(converted_state(v0, gs, rs, k as int), gs[k as int], even_chars(rs[k as int])));
            }
            let mut one_para_html: String = String::new();
            let vec = self.text_index_groups[k].clone();
            assert(vec@ == gs[k as int]);
            assert(converted[k as int]@ == rs[k as int]);
            converted_all_paras_zi_sum += self.convert_one_para(
                &vec,
                converted[k].as_str(),
                &mut one_para_html,
            );
            html_all_paras.append("<p>");
            html_all_paras.append(one_para_html.as_str());
            html_all_paras.append("</p>\n");
            proof {
                lemma_converted_state_shape(v0, gs, rs, k + 1);
            }
            assert(html_all_paras@ =~= old(html_all_paras)@ + html_all(rs, k + 1));
        }
        proof {
            lemma_converted_state_shape(v0, gs, rs, n as int);
        }
        converted_all_paras_zi_sum
    }

    /// Can `converted` be handed to `convert`? One text per paragraph, digit
    /// markers, each text long enough for its paragraph at the moment it is
    /// written, and a character total that fits in a `usize`.
    pub fn accepts_conversion(&self, converted: &Vec<String>) -> (ok: bool)
        requires
            self.wf(),
        ensures
            ok == conversion_acceptable(self.tokens(), self.groups(), strings_view(converted@)),
    {
        let ghost v = self.tokens();
        let ghost gs = self.groups();
        let ghost rs = strings_view(converted@);
        let n = self.text_index_groups.len();
        if converted.len() != n {
            return false;
        }
        proof {
            self.xml_parser.lemma_tokens_view();
        }
        let list = &self.xml_parser.tokenized_text_list;
        let tn = list.len();
        let mut lens: Vec<usize> = Vec::new();
        for i in 0..tn
            invariant
                tn == v.len(),
                v == view_tokens(list@),
                lens@.len() == i,
                forall|j: int| 0 <= j < i ==> (#[trigger] lens@[j]) == v[j].1.len(),
        {
            lens.push(char_count(&list[i].text));
        }
        let mut total: usize = 0;
        assert(converted_state(v, gs, rs, 0) == v);
        for k in 0..n
            invariant
                n == gs.len(),
                rs.len() == n,
                rs == strings_view(converted@),
                gs == self.groups(),
                v == self.tokens(),
                self.wf(),
                lens@.len() == v.len(),
                forall|i: int|
                    0 <= i < v.len() ==> (#[trigger] lens@[i]) == converted_state(v, gs, rs, k as int)[i].1.len(),
                forall|j: int| 0 <= j < k ==> marks_ok(#[trigger] rs[j]),
                forall|j: int|
                    0 <= j < k ==> fits(converted_state(v, gs, rs, j), #[trigger] gs[j], even_chars(rs[j])),
                total == converted_total(rs, k as int),
        {
            proof {
                lemma_converted_state_shape(v, gs, rs, k as int);
            }
            let ghost w = converted_state(v, gs, rs, k as int);
            assert(converted[k as int]@ == rs[k as int]);
            let rc = chars_of(converted[k].as_str());
            if !marks_are_digits(&rc) {
                return false;
            }
            let nc = rc.len() / 2;
            assert(even_chars(rs[k as int]).len() == nc);
            if total > usize::MAX - nc {
                proof {
                    lemma_converted_total_mono(rs, k + 1, n as int);
                }
                return false;
            }
            total = total + nc;
            let g = &self.text_index_groups[k];
            assert(g@ == gs[k as int]);
            assert(group_ok(w, g@));
            let m = g.len();
            if m > 0 {
                let mut off: usize = 0;
                for j in 0..m - 1
                    invariant
                        m == g@.len(),
                        m > 0,
                        group_ok(w, g@),
                        lens@.len() == w.len(),
                        forall|i: int| 0 <= i < w.len() ==> (#[trigger] lens@[i]) == w[i].1.len(),
                        off == offset(w, g@, j as int),
                        nc == even_chars(rs[k as int]).len(),
                        g@ == gs[k as int],
                        w == converted_state(v, gs, rs, k as int),
                        rs.len() == n,
                        k < n,
                        n == gs.len(),
                        gs == self.groups(),
                        v == self.tokens(),
                        rs == strings_view(converted@),
                {
                    let l = lens[g[j]];
                    assert(offset(w, g@, j + 1) == offset(w, g@, j as int) + l);
                    if off > usize::MAX - l {
                        proof {
                            lemma_offset_mono(w, g@, j + 1, m - 1);
                            assert(!fits(w, gs[k as int], even_chars(rs[k as int])));
                        }
                        return false;
                    }
                    off = off + l;
                }
                if off > nc {
                    assert(!fits(w, gs[k as int], even_chars(rs[k as int])));
                    return false;
                }
                let last = g[m - 1];
                proof {
                    lemma_fill_lengths(w, g@, even_chars(rs[k as int]));
                }
                lens[last] = nc - off;
            } else {
                assert(fill_group(w, g@, even_chars(rs[k as int])) == w);
            }
            assert(converted_state(v, gs, rs, k + 1) == fill_group(w, gs[k as int], even_chars(rs[k as int])));
        }
        true
    }

    /// Writes the converted texts into the paragraphs found by
    /// `paragraphs_to_convert` (see `convert_all_paras`), appends their HTML
    /// to `converted_text_html`, puts the resulting XML text into
    /// `converted_text`, and returns the number of converted characters.
    /// The paragraphs are those of the current tokens, found once, so each
    /// text handed out is the text converted at its turn
    /// (`lemma_paragraph_text_at_its_turn`).
    pub fn convert(
        &mut self,
        converted: &Vec<String>,
        converted_text: &mut String,
        converted_text_html: &mut String,
    ) -> (n: usize)
        requires
            old(self).wf(),
            old(self).groups() == text_groups(old(self).tokens()),
            conversion_acceptable(old(self).tokens(), old(self).groups(), strings_view(converted@)),
        ensures
            forall|k: int|
                0 <= k < final(self).groups().len() ==> para_text(
                    final(self).tokens(),
                    #[trigger] final(self).groups()[k],
                ) == even_chars(strings_view(converted@)[k]),
            final(self).tokens() == converted_state(
                old(self).tokens(),
                old(self).groups(),
                strings_view(converted@),
                old(self).groups().len() as int,
            ),
            final(self).groups() == old(self).groups(),
            final(self).config_path() == old(self).config_path(),
            final(self).same_input(old(self)),
            final(self).wf(),
            final(converted_text)@ == texts_concat(final(self).tokens()),
            final(converted_text_html)@ == old(converted_text_html)@ + html_all(
                strings_view(converted@),
                converted@.len() as int,
            ),
            n == converted_total(strings_view(converted@), converted@.len() as int),
    {
        let mut converted_zi_sum: usize = 0;
        let ghost v0 = self.tokens();
        proof {
            lemma_text_groups_shape(v0);
        }
        converted_zi_sum += self.convert_all_paras(converted, converted_text_html);
        proof {
            let gs = self.groups();
            let rs = strings_view(converted@);
            assert forall|k: int| 0 <= k < gs.len() implies para_text(
                self.tokens(),
                #[trigger] gs[k],
            ) == even_chars(rs[k]) by {
                lemma_every_paragraph_reads_back(v0, gs, rs, k);
            }
        }
        *converted_text = self.xml_parser.counter_parse();
        converted_zi_sum
    }
}

/// Are all markers of `r` decimal digits?
fn marks_are_digits(r: &Vec<char>) -> (b: bool)
    ensures
        b == marks_ok(r@),
{
    let len = r.len();
    let half = len / 2;
    for i in 0..half
        invariant
            len == r@.len(),
            half == len / 2,
            forall|j: int| 0 <= j < i ==> is_digit(#[trigger] r@[2 * j + 1]),
    {
        let m = r[2 * i + 1];
        let code = m as u32;
        if !(48 <= code && code <= 57) {
            assert(!is_digit(r@[2 * i + 1]));
            return false;
        }
    }
    true
}

/// Law: for a document part parsed from `s`, converted texts that repeat
/// each paragraph's characters with no highlight are accepted, give back `s`
/// as the converted XML, give as HTML the paragraphs' own text one `<p>`
/// each, and, when every paragraph is closed, count exactly what
/// `get_zi_sum` counts (which always fits, being at most `s.len()`).
pub proof fn lemma_unchanged_conversion(s: Seq<char>, rs: Seq<Seq<char>>)
    requires
        s.len() <= usize::MAX,
        rs.len() == text_groups(tokens_of(s)).len(),
        forall|k: int|
            0 <= k < rs.len() ==> even_chars(#[trigger] rs[k]) == para_text(
                tokens_of(s),
                text_groups(tokens_of(s))[k],
            ) && unmarked(rs[k]),
    ensures
        zi_sum(tokens_of(s)) <= s.len(),
        conversion_acceptable(tokens_of(s), text_groups(tokens_of(s)), rs),
        texts_concat(
            converted_state(tokens_of(s), text_groups(tokens_of(s)), rs, rs.len() as int),
        ) == s,
        html_all(rs, rs.len() as int) == paragraphs_html(
            tokens_of(s),
            text_groups(tokens_of(s)),
            rs.len() as int,
        ),
        paragraphs_closed(tokens_of(s)) ==> converted_total(rs, rs.len() as int) == zi_sum(
            tokens_of(s),
        ),
{
    let v = tokens_of(s);
    let gs = text_groups(v);
    let n = rs.len() as int;
    lemma_pieces_count(s, Seq::empty());
    lemma_text_groups_shape(v);
    lemma_parse_roundtrip(s);
    lemma_zi_sum_within_text(v);
    lemma_zi_sum_is_paragraph_chars(v);
    assert forall|k: int| 0 <= k < n implies #[trigger] rs[k].len() / 2 == para_text(v, gs[k]).len() by {
        assert(even_chars(rs[k]) == para_text(v, gs[k]));
    }
    lemma_converted_total_groups_chars(v, gs, rs, n);
    assert forall|k: int| 0 <= k < n implies marks_ok(#[trigger] rs[k]) by {
        assert(unmarked(rs[k]));
        assert forall|i: int| 0 <= i < rs[k].len() / 2 implies is_digit(#[trigger] rs[k][2 * i + 1]) by {
            assert(rs[k][2 * i + 1] == '0' || rs[k][2 * i + 1] == '1');
        }
    }
    assert forall|k: int| 0 <= k < n implies fits(
        converted_state(v, gs, rs, k),
        #[trigger] gs[k],
        even_chars(rs[k]),
    ) by {
        lemma_identity_conversion(v, gs, rs, k);
        assert(even_chars(rs[k]) == para_text(v, gs[k]));
        if gs[k].len() > 0 {
            lemma_offset_mono(v, gs[k], gs[k].len() - 1, gs[k].len() as int);
        }
    }
    lemma_identity_conversion(v, gs, rs, n);
    lemma_unchanged_html(v, gs, rs, n);
    if paragraphs_closed(v) {
        lemma_zi_sum_when_paragraphs_closed(v);
    }
}

proof fn lemma_converted_total_mono(rs: Seq<Seq<char>>, i: int, j: int)
    requires
        0 <= i <= j,
    ensures
        converted_total(rs, i) <= converted_total(rs, j),
    decreases j,
{
    if i < j {
        lemma_converted_total_mono(rs, i, j - 1);
    }
}

} // verus!
