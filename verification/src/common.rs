//! The token kinds of the simple XML tokenizer and the token record.
use vstd::prelude::*;

verus! {

/// Kind of one piece of the XML text.
#[derive(Debug, Clone, Copy, PartialEq, Eq, Structural)]
pub enum XMLSimpToken {
    TagProlog,
    TagWpBeg,
    TagWpEnd,
    TagWtBeg,
    TagWtEnd,
    TagOtherBeg,
    TagOtherEnd,
    TagOtherBegEnd,
    Text,
}

/// One piece of the XML text together with its kind.
#[derive(Debug)]
pub struct TokenizedText {
    pub token: XMLSimpToken,
    pub text: String,
}

/// A token seen as its kind and its characters.
pub type TokView = (XMLSimpToken, Seq<char>);

impl View for TokenizedText {
    type V = TokView;

    open spec fn view(&self) -> TokView {
        (self.token, self.text@)
    }
}

/// The kinds and characters of a sequence of tokens.
pub open spec fn view_tokens(s: Seq<TokenizedText>) -> Seq<TokView> {
    s.map_values(|t: TokenizedText| t@)
}

/// The characters of all tokens, in order.
pub open spec fn texts_concat(v: Seq<TokView>) -> Seq<char>
    decreases v.len(),
{
    if v.len() == 0 {
        Seq::empty()
    } else {
        texts_concat(v.drop_last()) + v.last().1
    }
}

/// Concatenation of texts distributes over concatenation of token sequences.
pub proof fn lemma_texts_concat_add(a: Seq<TokView>, b: Seq<TokView>)
    ensures
        texts_concat(a + b) == texts_concat(a) + texts_concat(b),
    decreases b.len(),
{
    if b.len() == 0 {
        assert(a + b =~= a);
        assert(texts_concat(a) + Seq::<char>::empty() =~= texts_concat(a));
    } else {
        assert((a + b).drop_last() =~= a + b.drop_last());
        lemma_texts_concat_add(a, b.drop_last());
        assert(texts_concat(a) + (texts_concat(b.drop_last()) + b.last().1) =~= (texts_concat(a)
            + texts_concat(b.drop_last())) + b.last().1);
    }
}

} // verus!
