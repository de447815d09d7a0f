//! A very small XML tokenizer: it cuts the text into tags (from `<` to the
//! next `>`) and the text between them, and classifies each piece.
use vstd::prelude::*;

use crate::common::{TokView, TokenizedText, XMLSimpToken, texts_concat, view_tokens};
use crate::text::{has_prefix, is_prefix, same_chars, string_of};

verus! {

/// `<`
pub open spec fn open_angle() -> Seq<char> {
    seq!['<']
}

/// `<?`
pub open spec fn prolog_start() -> Seq<char> {
    seq!['<', '?']
}

/// `</`
pub open spec fn end_tag_start() -> Seq<char> {
    seq!['<', '/']
}

/// `</w:p>`
pub open spec fn wp_end_tag() -> Seq<char> {
    seq!['<', '/', 'w', ':', 'p', '>']
}

/// `</w:t>`
pub open spec fn wt_end_tag() -> Seq<char> {
    seq!['<', '/', 'w', ':', 't', '>']
}

/// `<w:p>`
pub open spec fn wp_tag() -> Seq<char> {
    seq!['<', 'w', ':', 'p', '>']
}

/// `<w:p ` (a paragraph tag with attributes)
pub open spec fn wp_attr_start() -> Seq<char> {
    seq!['<', 'w', ':', 'p', ' ']
}

/// `<w:t>`
pub open spec fn wt_tag() -> Seq<char> {
    seq!['<', 'w', ':', 't', '>']
}

/// `<w:t ` (a text-run tag with attributes)
pub open spec fn wt_attr_start() -> Seq<char> {
    seq!['<', 'w', ':', 't', ' ']
}

/// The kind of a piece, by the first rule that matches.
pub open spec fn classify(b: Seq<char>) -> XMLSimpToken {
    if !is_prefix(b, open_angle()) {
        XMLSimpToken::Text
    } else if b.len() >= 4 && is_prefix(b, prolog_start()) {
        XMLSimpToken::TagProlog
    } else if b == wp_end_tag() {
        XMLSimpToken::TagWpEnd
    } else if b == wt_end_tag() {
        XMLSimpToken::TagWtEnd
    } else if b.len() >= 3 && b[b.len() - 1] == '>' && b[b.len() - 2] == '/' {
        XMLSimpToken::TagOtherBegEnd
    } else if b.len() >= 3 && is_prefix(b, end_tag_start()) {
        XMLSimpToken::TagOtherEnd
    } else if b == wp_tag() || is_prefix(b, wp_attr_start()) {
        XMLSimpToken::TagWpBeg
    } else if b == wt_tag() || is_prefix(b, wt_attr_start()) {
        XMLSimpToken::TagWtBeg
    } else {
        XMLSimpToken::TagOtherBeg
    }
}

/// The pieces that a pending buffer contributes when it is closed: none when empty.
pub open spec fn flush(buf: Seq<char>) -> Seq<Seq<char>> {
    if buf.len() == 0 {
        Seq::empty()
    } else {
        seq![buf]
    }
}

/// The pieces into which the tokenizer cuts `s`, starting with the pending
/// characters `buf`: a `<` closes the pending piece and opens a new one, a
/// `>` closes the pending piece after itself, and the last character closes
/// the pending piece whatever it is.
pub open spec fn split_pieces(s: Seq<char>, buf: Seq<char>) -> Seq<Seq<char>>
    decreases s.len(),
{
    if s.len() == 0 {
        flush(buf)
    } else if s.len() == 1 {
        seq![buf.push(s[0])]
    } else if s[0] == '<' {
        flush(buf) + split_pieces(s.drop_first(), seq!['<'])
    } else if s[0] == '>' {
        seq![buf.push('>')] + split_pieces(s.drop_first(), Seq::empty())
    } else {
        split_pieces(s.drop_first(), buf.push(s[0]))
    }
}

/// A piece with its kind.
pub open spec fn token_of(b: Seq<char>) -> TokView {
    (classify(b), b)
}

/// The tokens made of a sequence of pieces.
pub open spec fn tokenize_pieces(ps: Seq<Seq<char>>) -> Seq<TokView> {
    ps.map_values(|b: Seq<char>| token_of(b))
}

pub proof fn lemma_tokenize_pieces_add(a: Seq<Seq<char>>, b: Seq<Seq<char>>)
    ensures
        tokenize_pieces(a + b) == tokenize_pieces(a) + tokenize_pieces(b),
{
    assert(tokenize_pieces(a + b) =~= tokenize_pieces(a) + tokenize_pieces(b));
}

proof fn lemma_concat_single(x: Seq<char>)
    ensures
        texts_concat(tokenize_pieces(seq![x])) == x,
{
    let t = tokenize_pieces(seq![x]);
    assert(t.len() == 1);
    assert(t[0] == token_of(x));
    assert(t.drop_last() =~= Seq::<TokView>::empty());
    assert(texts_concat(t.drop_last()) == Seq::<char>::empty());
    assert(Seq::<char>::empty() + x =~= x);
}

proof fn lemma_concat_flush(buf: Seq<char>)
    ensures
        texts_concat(tokenize_pieces(flush(buf))) == buf,
{
    if buf.len() == 0 {
        assert(tokenize_pieces(flush(buf)) =~= Seq::<TokView>::empty());
        assert(buf =~= Seq::<char>::empty());
    } else {
        lemma_concat_single(buf);
    }
}

/// Cutting into pieces loses and adds nothing: the pieces, read in order,
/// give back the pending characters followed by the input.
pub proof fn lemma_split_pieces_concat(s: Seq<char>, buf: Seq<char>)
    ensures
        texts_concat(tokenize_pieces(split_pieces(s, buf))) == buf + s,
    decreases s.len(),
{
    if s.len() == 0 {
        lemma_concat_flush(buf);
        assert(buf + s =~= buf);
    } else if s.len() == 1 {
        lemma_concat_single(buf.push(s[0]));
        assert(buf.push(s[0]) =~= buf + s);
    } else if s[0] == '<' {
        let rest = s.drop_first();
        lemma_tokenize_pieces_add(flush(buf), split_pieces(rest, seq!['<']));
        crate::common::lemma_texts_concat_add(
            tokenize_pieces(flush(buf)),
            tokenize_pieces(split_pieces(rest, seq!['<'])),
        );
        lemma_concat_flush(buf);
        lemma_split_pieces_concat(rest, seq!['<']);
        assert(buf + (seq!['<'] + rest) =~= buf + s);
    } else if s[0] == '>' {
        let rest = s.drop_first();
        lemma_tokenize_pieces_add(seq![buf.push('>')], split_pieces(rest, Seq::empty()));
        crate::common::lemma_texts_concat_add(
            tokenize_pieces(seq![buf.push('>')]),
            tokenize_pieces(split_pieces(rest, Seq::empty())),
        );
        lemma_concat_single(buf.push('>'));
        lemma_split_pieces_concat(rest, Seq::empty());
        assert(buf.push('>') + (Seq::<char>::empty() + rest) =~= buf + s);
    } else {
        let rest = s.drop_first();
        lemma_split_pieces_concat(rest, buf.push(s[0]));
        assert(buf.push(s[0]) + rest =~= buf + s);
    }
}

/// `b` is a closing tag `</...>` that is not self-closing.
pub open spec fn closing_shape(b: Seq<char>) -> bool {
    &&& b.len() >= 3
    &&& b[0] == '<'
    &&& b[1] == '/'
    &&& !(b[b.len() - 2] == '/' && b[b.len() - 1] == '>')
}

/// Law: a piece is text exactly when it does not start with `<`.
pub proof fn lemma_classify_text(b: Seq<char>)
    ensures
        (classify(b) == XMLSimpToken::Text) <==> (b.len() == 0 || b[0] != '<'),
{
    assert(seq!['<'].len() == 1);
    if b.len() > 0 {
        assert(b[0] == '<' ==> b.subrange(0, 1) =~= seq!['<']);
        assert(b.subrange(0, 1) == seq!['<'] ==> b.subrange(0, 1)[0] == '<');
    }
}

/// Law: a piece ends a paragraph exactly when it is `</w:p>`; any other
/// tag, such as `</w:pPr>`, does not.
pub proof fn lemma_classify_wp_end(b: Seq<char>)
    ensures
        (classify(b) == XMLSimpToken::TagWpEnd) <==> b == seq!['<', '/', 'w', ':', 'p', '>'],
{
    lemma_classify_text(b);
    if b == seq!['<', '/', 'w', ':', 'p', '>'] {
        assert(b[0] == '<' && b[1] == '/');
        assert(!is_prefix(b, prolog_start())) by {
            assert(b.subrange(0, 2)[1] == '/');
        }
    }
}

/// Law: a piece ends a text run exactly when it is `</w:t>`.
pub proof fn lemma_classify_wt_end(b: Seq<char>)
    ensures
        (classify(b) == XMLSimpToken::TagWtEnd) <==> b == seq!['<', '/', 'w', ':', 't', '>'],
{
    lemma_classify_text(b);
    if b == seq!['<', '/', 'w', ':', 't', '>'] {
        assert(b[0] == '<' && b[1] == '/');
        assert(!is_prefix(b, prolog_start())) by {
            assert(b.subrange(0, 2)[1] == '/');
        }
        assert(b != wp_end_tag()) by {
            assert(b[4] != wp_end_tag()[4]);
        }
    }
}

/// Law: a piece is a prolog exactly when it starts with `<?` and has at
/// least four characters.
pub proof fn lemma_classify_prolog(b: Seq<char>)
    ensures
        (classify(b) == XMLSimpToken::TagProlog) <==> (b.len() >= 4 && b[0] == '<' && b[1] == '?'),
{
    lemma_classify_text(b);
    if b.len() >= 4 {
        if b[0] == '<' && b[1] == '?' {
            assert(b.subrange(0, 2) =~= prolog_start());
        }
        if is_prefix(b, prolog_start()) {
            assert(b.subrange(0, 2)[0] == '<' && b.subrange(0, 2)[1] == '?');
        }
    }
}

/// Law: every closing tag other than `</w:p>` and `</w:t>` that is not
/// self-closing is an other end tag, and every other end tag is such a tag.
pub proof fn lemma_classify_other_end(b: Seq<char>)
    ensures
        (classify(b) == XMLSimpToken::TagOtherEnd) <==> (closing_shape(b) && b != seq![
            '<',
            '/',
            'w',
            ':',
            'p',
            '>',
        ] && b != seq!['<', '/', 'w', ':', 't', '>']),
{
    lemma_classify_text(b);
    lemma_classify_prolog(b);
    lemma_classify_wp_end(b);
    lemma_classify_wt_end(b);
    if b.len() >= 3 && b[0] == '<' {
        if b[1] == '/' {
            assert(b.subrange(0, 2) =~= end_tag_start());
            assert(!is_prefix(b, wp_attr_start())) by {
                if is_prefix(b, wp_attr_start()) {
                    assert(b.subrange(0, 5)[1] == 'w');
                }
            }
            assert(!is_prefix(b, wt_attr_start())) by {
                if is_prefix(b, wt_attr_start()) {
                    assert(b.subrange(0, 5)[1] == 'w');
                }
            }
            assert(b != wp_tag()) by {
                if b == wp_tag() {
                    assert(wp_tag()[1] == 'w');
                }
            }
            assert(b != wt_tag()) by {
                if b == wt_tag() {
                    assert(wt_tag()[1] == 'w');
                }
            }
        } else if is_prefix(b, end_tag_start()) {
            assert(b.subrange(0, 2)[1] == '/');
        }
    }
}

/// Law: a piece is self-closing exactly when it starts with `<`, ends with
/// `/>`, has at least three characters and is not a prolog.
pub proof fn lemma_classify_self_closing(b: Seq<char>)
    ensures
        (classify(b) == XMLSimpToken::TagOtherBegEnd) <==> (b.len() >= 3 && b[0] == '<' && b[b.len()
            - 2] == '/' && b[b.len() - 1] == '>' && !(b.len() >= 4 && b[1] == '?')),
{
    lemma_classify_text(b);
    lemma_classify_prolog(b);
    lemma_classify_wp_end(b);
    lemma_classify_wt_end(b);
    if b == seq!['<', '/', 'w', ':', 'p', '>'] || b == seq!['<', '/', 'w', ':', 't', '>'] {
        assert(b[b.len() - 2] != '/');
    }
}

/// Law: a paragraph starts exactly with `<w:p>` or `<w:p ...>` (not
/// self-closing); tags such as `<w:pPr>` do not start one.
pub proof fn lemma_classify_wp_beg(b: Seq<char>)
    ensures
        (classify(b) == XMLSimpToken::TagWpBeg) <==> (b == seq!['<', 'w', ':', 'p', '>'] || (b.len()
            >= 5 && b[0] == '<' && b[1] == 'w' && b[2] == ':' && b[3] == 'p' && b[4] == ' ' && !(
        b[b.len() - 2] == '/' && b[b.len() - 1] == '>'))),
{
    lemma_wbeg_shape(b, 'p');
}

/// Law: a text run starts exactly with `<w:t>` or `<w:t ...>` (not
/// self-closing); tags such as `<w:tab/>` do not start one.
pub proof fn lemma_classify_wt_beg(b: Seq<char>)
    ensures
        (classify(b) == XMLSimpToken::TagWtBeg) <==> (b == seq!['<', 'w', ':', 't', '>'] || (b.len()
            >= 5 && b[0] == '<' && b[1] == 'w' && b[2] == ':' && b[3] == 't' && b[4] == ' ' && !(
        b[b.len() - 2] == '/' && b[b.len() - 1] == '>'))),
{
    lemma_wbeg_shape(b, 't');
}

proof fn lemma_wbeg_shape(b: Seq<char>, x: char)
    requires
        x == 'p' || x == 't',
    ensures
        x == 'p' ==> ((classify(b) == XMLSimpToken::TagWpBeg) <==> (b == seq!['<', 'w', ':', 'p', '>']
            || (b.len() >= 5 && b[0] == '<' && b[1] == 'w' && b[2] == ':' && b[3] == 'p' && b[4]
            == ' ' && !(b[b.len() - 2] == '/' && b[b.len() - 1] == '>')))),
        x == 't' ==> ((classify(b) == XMLSimpToken::TagWtBeg) <==> (b == seq!['<', 'w', ':', 't', '>']
            || (b.len() >= 5 && b[0] == '<' && b[1] == 'w' && b[2] == ':' && b[3] == 't' && b[4]
            == ' ' && !(b[b.len() - 2] == '/' && b[b.len() - 1] == '>')))),
{
    lemma_classify_text(b);
    lemma_classify_prolog(b);
    lemma_classify_wp_end(b);
    lemma_classify_wt_end(b);
    lemma_classify_other_end(b);
    if b.len() >= 5 {
        if b[0] == '<' && b[1] == 'w' && b[2] == ':' && b[4] == ' ' {
            if b[3] == 'p' {
                assert(b.subrange(0, 5) =~= wp_attr_start());
            }
            if b[3] == 't' {
                assert(b.subrange(0, 5) =~= wt_attr_start());
            }
        }
    }
    if is_prefix(b, wp_attr_start()) {
        let h = b.subrange(0, 5);
        assert(h[0] == '<' && h[1] == 'w' && h[2] == ':' && h[3] == 'p' && h[4] == ' ');
    }
    if is_prefix(b, wt_attr_start()) {
        let h = b.subrange(0, 5);
        assert(h[0] == '<' && h[1] == 'w' && h[2] == ':' && h[3] == 't' && h[4] == ' ');
    }
    if b == wp_tag() {
        assert(b[1] == 'w' && b[3] == 'p' && b[4] == '>');
    }
    if b == wt_tag() {
        assert(b[1] == 'w' && b[3] == 't' && b[4] == '>');
    }
    if b.len() >= 2 && b[0] == '<' && b[1] == 'w' {
        assert(!is_prefix(b, end_tag_start())) by {
            if is_prefix(b, end_tag_start()) {
                assert(b.subrange(0, 2)[1] == '/');
            }
        }
    }
}

/// The tokens of a whole text `s`.
pub open spec fn tokens_of(s: Seq<char>) -> Seq<TokView> {
    tokenize_pieces(split_pieces(s, Seq::empty()))
}

/// There are no more pieces than pending and input characters together.
pub proof fn lemma_pieces_count(s: Seq<char>, buf: Seq<char>)
    ensures
        split_pieces(s, buf).len() <= buf.len() + s.len(),
    decreases s.len(),
{
    if s.len() == 0 {
    } else if s.len() == 1 {
    } else if s[0] == '<' {
        lemma_pieces_count(s.drop_first(), seq!['<']);
    } else if s[0] == '>' {
        lemma_pieces_count(s.drop_first(), Seq::empty());
    } else {
        lemma_pieces_count(s.drop_first(), buf.push(s[0]));
    }
}

/// Reading the tokens of a parsed text back in order gives the text itself.
pub proof fn lemma_parse_roundtrip(s: Seq<char>)
    ensures
        texts_concat(tokenize_pieces(split_pieces(s, Seq::empty()))) == s,
{
    lemma_split_pieces_concat(s, Seq::empty());
    assert(Seq::<char>::empty() + s =~= s);
}

/// Every piece the tokenizer produces holds at least one character.
pub proof fn lemma_pieces_nonempty(s: Seq<char>, buf: Seq<char>, i: int)
    requires
        0 <= i < split_pieces(s, buf).len(),
    ensures
        split_pieces(s, buf)[i].len() > 0,
    decreases s.len(),
{
    if s.len() == 0 {
    } else if s.len() == 1 {
    } else if s[0] == '<' {
        let f = flush(buf);
        if i >= f.len() {
            lemma_pieces_nonempty(s.drop_first(), seq!['<'], i - f.len());
        }
    } else if s[0] == '>' {
        if i >= 1 {
            lemma_pieces_nonempty(s.drop_first(), Seq::empty(), i - 1);
        }
    } else {
        lemma_pieces_nonempty(s.drop_first(), buf.push(s[0]), i);
    }
}

/// The tokenizer over the characters of an XML text.
#[derive(Debug)]
pub struct XMLSimpParser {
    pub(crate) xml: Vec<char>,
    pub(crate) p: usize,
    pub(crate) xml_buf: Vec<char>,
    pub tokenized_text_list: Vec<TokenizedText>,
}

/// Executable `classify`.
fn classify_chars(buf: &Vec<char>) -> (t: XMLSimpToken)
    ensures
        t == classify(buf@),
{
    let lt: Vec<char> = vec!['<'];
    let prolog: Vec<char> = vec!['<', '?'];
    let end_start: Vec<char> = vec!['<', '/'];
    let wp_end: Vec<char> = vec!['<', '/', 'w', ':', 'p', '>'];
    let wt_end: Vec<char> = vec!['<', '/', 'w', ':', 't', '>'];
    let wp: Vec<char> = vec!['<', 'w', ':', 'p', '>'];
    let wp_attr: Vec<char> = vec!['<', 'w', ':', 'p', ' '];
    let wt: Vec<char> = vec!['<', 'w', ':', 't', '>'];
    let wt_attr: Vec<char> = vec!['<', 'w', ':', 't', ' '];
    assert(lt@ =~= open_angle());
    assert(prolog@ =~= prolog_start());
    assert(end_start@ =~= end_tag_start());
    assert(wp_end@ =~= wp_end_tag());
    assert(wt_end@ =~= wt_end_tag());
    assert(wp@ =~= wp_tag());
    assert(wp_attr@ =~= wp_attr_start());
    assert(wt@ =~= wt_tag());
    assert(wt_attr@ =~= wt_attr_start());
    let n = buf.len();
    if !has_prefix(buf, &lt) {
        XMLSimpToken::Text
    } else if n >= 4 && has_prefix(buf, &prolog) {
        XMLSimpToken::TagProlog
    } else if same_chars(buf, &wp_end) {
        XMLSimpToken::TagWpEnd
    } else if same_chars(buf, &wt_end) {
        XMLSimpToken::TagWtEnd
    } else if n >= 3 && buf[n - 1] == '>' && buf[n - 2] == '/' {
        XMLSimpToken::TagOtherBegEnd
    } else if n >= 3 && has_prefix(buf, &end_start) {
        XMLSimpToken::TagOtherEnd
    } else if same_chars(buf, &wp) || has_prefix(buf, &wp_attr) {
        XMLSimpToken::TagWpBeg
    } else if same_chars(buf, &wt) || has_prefix(buf, &wt_attr) {
        XMLSimpToken::TagWtBeg
    } else {
        XMLSimpToken::TagOtherBeg
    }
}

impl XMLSimpParser {
    /// The characters of the whole input.
    pub closed spec fn source(&self) -> Seq<char> {
        self.xml@
    }

    /// How many characters of the input have been read.
    pub closed spec fn pos(&self) -> nat {
        self.p as nat
    }

    /// Characters read but not yet closed into a token.
    pub closed spec fn pending(&self) -> Seq<char> {
        self.xml_buf@
    }

    /// The tokens, each as its kind and characters.
    pub closed spec fn tokens(&self) -> Seq<TokView> {
        view_tokens(self.tokenized_text_list@)
    }

    /// The tokens are the views of the public token list.
    pub(crate) proof fn lemma_tokens_view(&self)
        ensures
            self.tokens() == view_tokens(self.tokenized_text_list@),
            self.source() == self.xml@,
            self.pos() == self.p,
            self.pending() == self.xml_buf@,
    {
    }

    /// The tokens that parsing the unread input will add.
    pub open spec fn tokens_of_rest(&self) -> Seq<TokView> {
        tokenize_pieces(
            split_pieces(self.source().subrange(self.pos() as int, self.source().len() as int), self.pending()),
        )
    }

    /// A parser over the characters of `s`, with nothing read yet.
    pub fn new(s: &String) -> (r: Self)
        ensures
            r.source() == s@,
            r.pos() == 0,
            r.pending() == Seq::<char>::empty(),
            r.tokens() == Seq::<TokView>::empty(),
    {
        let r = XMLSimpParser {
            xml: crate::text::chars_of(s.as_str()),
            p: 0,
            xml_buf: Vec::new(),
            tokenized_text_list: Vec::new(),
        };
        assert(r.tokens() =~= Seq::<TokView>::empty());
        r
    }

    /// Reads the rest of the input and appends its tokens.
    pub fn parse(&mut self) -> (r: &Vec<TokenizedText>)
        requires
            old(self).pos() < old(self).source().len(),
        ensures
            final(self).source() == old(self).source(),
            final(self).pos() == old(self).source().len(),
            final(self).pending() == Seq::<char>::empty(),
            final(self).tokens() == old(self).tokens() + old(self).tokens_of_rest(),
            view_tokens(r@) == final(self).tokens(),
    {
        self.simp_parse();
        return &self.tokenized_text_list;
    }

    /// The characters of all tokens, in order.
    pub fn counter_parse(&self) -> (r: String)
        ensures
            r@ == texts_concat(self.tokens()),
    {
        return self.simp_combine();
    }

    fn eat(&mut self) -> (c: char)
        requires
            old(self).p < old(self).xml.len(),
        ensures
            c == old(self).xml@[old(self).p as int],
            final(self).p == old(self).p + 1,
            final(self).xml == old(self).xml,
            final(self).xml_buf == old(self).xml_buf,
            final(self).tokenized_text_list == old(self).tokenized_text_list,
    {
        let val = self.xml[self.p];
        self.p += 1;
        return val;
    }

    fn simp_parse(&mut self)
        requires
            old(self).p < old(self).xml@.len(),
        ensures
            final(self).xml == old(self).xml,
            final(self).p == old(self).xml@.len(),
            final(self).xml_buf@ == Seq::<char>::empty(),
            final(self).tokens() == old(self).tokens() + old(self).tokens_of_rest(),
    {
        let ghost s0 = self.xml@.subrange(self.p as int, self.xml@.len() as int);
        let ghost b0 = self.xml_buf@;
        let ghost t0 = self.tokens();
        let ghost mut done: Seq<Seq<char>> = Seq::empty();
        assert(t0 + tokenize_pieces(done) =~= t0);
        loop
            invariant
                self.xml == old(self).xml,
                self.p < self.xml@.len(),
                s0 == old(self).xml@.subrange(old(self).p as int, old(self).xml@.len() as int),
                t0 == old(self).tokens(),
                b0 == old(self).xml_buf@,
                self.tokens() == t0 + tokenize_pieces(done),
                done + split_pieces(
                    self.xml@.subrange(self.p as int, self.xml@.len() as int),
                    self.xml_buf@,
                ) == split_pieces(s0, b0),
            decreases self.xml@.len() - self.p,
        {
            let ghost rest = self.xml@.subrange(self.p as int, self.xml@.len() as int);
            let ghost buf = self.xml_buf@;
            let c = self.eat();
            let ghost rest2 = self.xml@.subrange(self.p as int, self.xml@.len() as int);
            assert(rest.drop_first() =~= rest2);
            assert(rest[0] == c);
            if self.p == self.xml.len() {
                self.xml_buf.push(c);
                self.tokenize();
                self.xml_buf = Vec::new();
                proof {
                    lemma_tokenize_pieces_add(done, seq![buf.push(c)]);
                    assert(flush(buf.push(c)) =~= seq![buf.push(c)]);
                    assert(done + seq![buf.push(c)] == split_pieces(s0, b0));
                }
                return;
            }
            if c == '<' {
                self.tokenize();
                self.xml_buf = vec![c];
                proof {
                    lemma_tokenize_pieces_add(done, flush(buf));
                    assert(self.xml_buf@ =~= seq!['<']);
                    assert(done + (flush(buf) + split_pieces(rest2, seq!['<'])) =~= (done + flush(
                        buf,
                    )) + split_pieces(rest2, seq!['<']));
                    done = done + flush(buf);
                }
            } else if c == '>' {
                self.xml_buf.push(c);
                self.tokenize();
                self.xml_buf = Vec::new();
                proof {
                    assert(flush(buf.push(c)) =~= seq![buf.push(c)]);
                    lemma_tokenize_pieces_add(done, seq![buf.push(c)]);
                    assert(done + (seq![buf.push('>')] + split_pieces(rest2, Seq::empty())) =~= (
                    done + seq![buf.push('>')]) + split_pieces(rest2, Seq::empty()));
                    done = done + seq![buf.push(c)];
                }
            } else {
                self.xml_buf.push(c);
            }
        }
    }

    fn tokenize(&mut self)
        ensures
            final(self).xml == old(self).xml,
            final(self).p == old(self).p,
            final(self).xml_buf == old(self).xml_buf,
            final(self).tokens() == old(self).tokens() + tokenize_pieces(flush(old(self).xml_buf@)),
    {
        if self.xml_buf.len() == 0 {
            assert(old(self).tokens() + tokenize_pieces(flush(old(self).xml_buf@)) =~= old(
                self,
            ).tokens());
            return ;
        }
        let bufs: String = string_of(&self.xml_buf);
        let token = classify_chars(&self.xml_buf);
        self.tokenized_text_list.push(TokenizedText { token, text: bufs });
        assert(self.tokens() =~= old(self).tokens() + tokenize_pieces(flush(old(self).xml_buf@)));
    }

    fn simp_combine(&self) -> (content: String)
        ensures
            content@ == texts_concat(self.tokens()),
    {
        let mut content = String::new();
        let n = self.tokenized_text_list.len();
        let ghost v = self.tokens();
        assert(v.take(0) =~= Seq::<TokView>::empty());
        for i in 0..n
            invariant
                n == self.tokenized_text_list@.len(),
                v == self.tokens(),
                content@ == texts_concat(v.take(i as int)),
        {
            let stru = &self.tokenized_text_list[i];
            content.append(stru.text.as_str());
            assert(v.take(i + 1).drop_last() =~= v.take(i as int));
        }
        assert(v.take(n as int) =~= v);
        content
    }
}

} // verus!
