//! The model of a document part as a sequence of tokens: which text runs are
//! counted, how they are grouped into paragraphs, and how converted
//! characters are written back into the runs of a paragraph.
use vstd::prelude::*;

use crate::common::{TokView, XMLSimpToken};

verus! {

// ---------------------------------------------------------------------------
// Scanning: inside `<w:p>` and inside `<w:t>`
// ---------------------------------------------------------------------------

/// The (in paragraph, in text run) flags after one more token.
pub open spec fn step_flags(f: (bool, bool), t: XMLSimpToken) -> (bool, bool) {
    match t {
        XMLSimpToken::TagWpBeg => (true, f.1),
        XMLSimpToken::TagWpEnd => (false, f.1),
        XMLSimpToken::TagWtBeg => (f.0, true),
        XMLSimpToken::TagWtEnd => (f.0, false),
        _ => f,
    }
}

/// The (in paragraph, in text run) flags before token `n`.
pub open spec fn flags_before(v: Seq<TokView>, n: int) -> (bool, bool)
    decreases n,
{
    if n <= 0 {
        (false, false)
    } else {
        step_flags(flags_before(v, n - 1), v[n - 1].0)
    }
}

/// Token `i` is a text inside a paragraph and inside a text run.
pub open spec fn counted(v: Seq<TokView>, i: int) -> bool {
    v[i].0 == XMLSimpToken::Text && flags_before(v, i).0 && flags_before(v, i).1
}

/// Characters of the counted texts among the first `n` tokens.
pub open spec fn zi_sum_upto(v: Seq<TokView>, n: int) -> nat
    decreases n,
{
    if n <= 0 {
        0
    } else {
        zi_sum_upto(v, n - 1) + if counted(v, n - 1) {
            v[n - 1].1.len()
        } else {
            0
        }
    }
}

/// Characters of all counted texts.
pub open spec fn zi_sum(v: Seq<TokView>) -> nat {
    zi_sum_upto(v, v.len() as int)
}

/// The paragraphs closed among the first `n` tokens (each the indices of its
/// counted texts, empty ones left out), and the indices of the counted texts
/// of the paragraph still open.
pub open spec fn groups_upto(v: Seq<TokView>, n: int) -> (Seq<Seq<usize>>, Seq<usize>)
    decreases n,
{
    if n <= 0 {
        (Seq::empty(), Seq::empty())
    } else {
        let (gs, cur) = groups_upto(v, n - 1);
        if v[n - 1].0 == XMLSimpToken::TagWpEnd {
            (
                if cur.len() != 0 {
                    gs.push(cur)
                } else {
                    gs
                },
                Seq::empty(),
            )
        } else if counted(v, n - 1) {
            (gs, cur.push((n - 1) as usize))
        } else {
            (gs, cur)
        }
    }
}

/// The closed paragraphs of `v`, as index groups.
pub open spec fn text_groups(v: Seq<TokView>) -> Seq<Seq<usize>> {
    groups_upto(v, v.len() as int).0
}

/// The counted texts of the paragraph left open at the end of `v`.
pub open spec fn open_group(v: Seq<TokView>) -> Seq<usize> {
    groups_upto(v, v.len() as int).1
}

// ---------------------------------------------------------------------------
// Paragraph text
// ---------------------------------------------------------------------------

/// The texts of the first `j` members of group `g`, joined.
pub open spec fn para_text_upto(v: Seq<TokView>, g: Seq<usize>, j: int) -> Seq<char>
    decreases j,
{
    if j <= 0 {
        Seq::empty()
    } else {
        para_text_upto(v, g, j - 1) + v[g[j - 1] as int].1
    }
}

/// The text of a paragraph: the texts of its members, joined.
pub open spec fn para_text(v: Seq<TokView>, g: Seq<usize>) -> Seq<char> {
    para_text_upto(v, g, g.len() as int)
}

/// Total characters of the paragraphs `gs[0..n]`.
pub open spec fn groups_chars(v: Seq<TokView>, gs: Seq<Seq<usize>>, n: int) -> nat
    decreases n,
{
    if n <= 0 {
        0
    } else {
        groups_chars(v, gs, n - 1) + para_text(v, gs[n - 1]).len()
    }
}

/// A group is usable on `v`: its indices are in range and pairwise distinct.
pub open spec fn group_ok(v: Seq<TokView>, g: Seq<usize>) -> bool {
    &&& forall|i: int| 0 <= i < g.len() ==> (#[trigger] g[i]) < v.len()
    &&& forall|i: int, j: int| 0 <= i < g.len() && 0 <= j < g.len() && i != j ==> (#[trigger] g[i]) != (#[trigger] g[j])
}

/// The indices of `g` are strictly increasing.
pub open spec fn increasing(g: Seq<usize>) -> bool {
    forall|i: int, j: int| 0 <= i < j < g.len() ==> (#[trigger] g[i]) < (#[trigger] g[j])
}

/// Every index of `g` is below `x`.
pub open spec fn all_below(g: Seq<usize>, x: int) -> bool {
    forall|a: int| 0 <= a < g.len() ==> (#[trigger] g[a]) < x
}

/// Every index of `g` is a counted text of `v`.
pub open spec fn all_counted(v: Seq<TokView>, g: Seq<usize>) -> bool {
    forall|a: int| 0 <= a < g.len() ==> counted(v, #[trigger] g[a] as int)
}

/// Every index of `g1` is below every index of `g2`.
pub open spec fn before(g1: Seq<usize>, g2: Seq<usize>) -> bool {
    forall|a: int, b: int| 0 <= a < g1.len() && 0 <= b < g2.len() ==> (#[trigger] g1[a]) < (#[trigger] g2[b])
}

/// The groups follow one another in document order.
pub open spec fn groups_in_order(gs: Seq<Seq<usize>>) -> bool {
    forall|k1: int, k2: int| 0 <= k1 < k2 < gs.len() ==> before(#[trigger] gs[k1], #[trigger] gs[k2])
}

/// No index lies in two different groups.
pub open spec fn groups_disjoint(gs: Seq<Seq<usize>>) -> bool {
    forall|k1: int, k2: int, a: int, b: int|
        0 <= k1 < gs.len() && 0 <= k2 < gs.len() && k1 != k2 && 0 <= a < gs[k1].len() && 0 <= b
            < gs[k2].len() ==> (#[trigger] gs[k1][a]) != (#[trigger] gs[k2][b])
}

/// No `</w:p>` lies between an index of `cur` and token `n`.
pub open spec fn no_wp_end_after(v: Seq<TokView>, cur: Seq<usize>, n: int) -> bool {
    forall|a: int, j: int|
        0 <= a < cur.len() && (#[trigger] cur[a]) < j < n ==> (#[trigger] v[j]).0
            != XMLSimpToken::TagWpEnd
}

/// What scanning the first `n` tokens leaves: closed groups that are
/// non-empty, increasing, counted, in document order and before the open
/// group; an open group with no `</w:p>` after it; and every counted text
/// among the first `n` tokens in one of them.
pub open spec fn groups_shape(v: Seq<TokView>, n: int, gs: Seq<Seq<usize>>, cur: Seq<usize>) -> bool {
    &&& forall|k: int|
        0 <= k < gs.len() ==> {
            &&& (#[trigger] gs[k]).len() > 0
            &&& increasing(gs[k])
            &&& all_below(gs[k], n)
            &&& all_counted(v, gs[k])
            &&& before(gs[k], cur)
        }
    &&& groups_in_order(gs)
    &&& increasing(cur)
    &&& all_below(cur, n)
    &&& all_counted(v, cur)
    &&& no_wp_end_after(v, cur, n)
    &&& forall|i: int|
        0 <= i < n && #[trigger] counted(v, i) ==> in_group(cur, i) || exists|k: int|
            0 <= k < gs.len() && #[trigger] in_group(gs[k], i)
}

/// Token `i` is a member of group `g`.
pub open spec fn in_group(g: Seq<usize>, i: int) -> bool {
    exists|t: int| 0 <= t < g.len() && g[t] as int == i
}

/// All groups of `gs` are usable on `v`.
pub open spec fn groups_ok(v: Seq<TokView>, gs: Seq<Seq<usize>>) -> bool {
    forall|k: int| 0 <= k < gs.len() ==> group_ok(v, #[trigger] gs[k])
}

// ---------------------------------------------------------------------------
// Converted text with markers, and its HTML
// ---------------------------------------------------------------------------

/// `r` is read in pairs (character, marker digit); these are its characters.
pub open spec fn even_chars(r: Seq<char>) -> Seq<char> {
    Seq::new(r.len() / 2, |i: int| r[2 * i])
}

/// A decimal digit `0`..`9`.
pub open spec fn is_digit(m: char) -> bool {
    48 <= (m as u32) <= 57
}

/// Every marker of `r` (every second character, of the complete pairs) is a digit.
pub open spec fn marks_ok(r: Seq<char>) -> bool {
    forall|i: int| 0 <= i < r.len() / 2 ==> is_digit(#[trigger] r[2 * i + 1])
}

/// The opening of a highlighted character.
pub open spec fn span_open() -> Seq<char> {
    "<span style=\"color: #ff0000\">"@
}

/// The closing of a highlighted character.
pub open spec fn span_close() -> Seq<char> {
    "◣</span>"@
}

/// The HTML of one converted character: highlighted when its marker is above 1.
pub open spec fn char_html(c: char, m: char) -> Seq<char> {
    if (m as u32) - 48 > 1 {
        span_open() + seq![c] + span_close()
    } else {
        seq![c]
    }
}

/// The HTML of the first `n` pairs of `r`.
pub open spec fn html_upto(r: Seq<char>, n: int) -> Seq<char>
    decreases n,
{
    if n <= 0 {
        Seq::empty()
    } else {
        html_upto(r, n - 1) + char_html(r[2 * (n - 1)], r[2 * (n - 1) + 1])
    }
}

/// The HTML of a converted paragraph.
pub open spec fn marked_html(r: Seq<char>) -> Seq<char> {
    html_upto(r, (r.len() / 2) as int)
}

// ---------------------------------------------------------------------------
// Writing converted characters back into a paragraph
// ---------------------------------------------------------------------------

/// Where member `j` of `g` starts in the paragraph text.
pub open spec fn offset(v: Seq<TokView>, g: Seq<usize>, j: int) -> int {
    para_text_upto(v, g, j).len() as int
}

/// The new text of member `j`: as many converted characters as it held,
/// and for the last member all that remain.
pub open spec fn piece(v: Seq<TokView>, g: Seq<usize>, c: Seq<char>, j: int) -> Seq<char> {
    if j == g.len() - 1 {
        c.subrange(offset(v, g, j), c.len() as int)
    } else {
        c.subrange(offset(v, g, j), offset(v, g, j) + v[g[j] as int].1.len())
    }
}

/// `v` with the first `j` members of `g` given their new text.
pub open spec fn fill_upto(v: Seq<TokView>, g: Seq<usize>, c: Seq<char>, j: int) -> Seq<TokView>
    decreases j,
{
    if j <= 0 {
        v
    } else {
        fill_upto(v, g, c, j - 1).update(
            g[j - 1] as int,
            (v[g[j - 1] as int].0, piece(v, g, c, j - 1)),
        )
    }
}

/// `v` with the converted characters `c` written into the members of `g`.
pub open spec fn fill_group(v: Seq<TokView>, g: Seq<usize>, c: Seq<char>) -> Seq<TokView> {
    fill_upto(v, g, c, g.len() as int)
}

/// The converted characters reach the start of the last member.
pub open spec fn fits(v: Seq<TokView>, g: Seq<usize>, c: Seq<char>) -> bool {
    g.len() > 0 ==> offset(v, g, g.len() - 1) <= c.len()
}

/// The tokens after the first `k` paragraphs of `gs` took the converted texts `rs`.
pub open spec fn converted_state(
    v: Seq<TokView>,
    gs: Seq<Seq<usize>>,
    rs: Seq<Seq<char>>,
    k: int,
) -> Seq<TokView>
    decreases k,
{
    if k <= 0 {
        v
    } else {
        fill_group(converted_state(v, gs, rs, k - 1), gs[k - 1], even_chars(rs[k - 1]))
    }
}

/// Characters of the converted texts `rs[0..n]`.
pub open spec fn converted_total(rs: Seq<Seq<char>>, n: int) -> nat
    decreases n,
{
    if n <= 0 {
        0
    } else {
        converted_total(rs, n - 1) + rs[n - 1].len() / 2
    }
}

/// The HTML of the converted paragraphs `rs[0..n]`, one `<p>` each.
pub open spec fn html_all(rs: Seq<Seq<char>>, n: int) -> Seq<char>
    decreases n,
{
    if n <= 0 {
        Seq::empty()
    } else {
        html_all(rs, n - 1) + "<p>"@ + marked_html(rs[n - 1]) + "</p>\n"@
    }
}

/// The converted texts `rs` can be written into the paragraphs `gs` of `v`:
/// one per paragraph, digit markers, each long enough for its paragraph at
/// the moment it is written, and a total that fits in a `usize`.
pub open spec fn conversion_acceptable(
    v: Seq<TokView>,
    gs: Seq<Seq<usize>>,
    rs: Seq<Seq<char>>,
) -> bool {
    &&& rs.len() == gs.len()
    &&& forall|k: int| 0 <= k < rs.len() ==> marks_ok(#[trigger] rs[k])
    &&& forall|k: int|
        0 <= k < rs.len() ==> fits(
            converted_state(v, gs, rs, k),
            #[trigger] gs[k],
            even_chars(rs[k]),
        )
    &&& converted_total(rs, rs.len() as int) <= usize::MAX
}

// ---------------------------------------------------------------------------
// Lemmas
// ---------------------------------------------------------------------------

/// Appending a member does not change the text of the members before it.
pub proof fn lemma_para_text_push(v: Seq<TokView>, g: Seq<usize>, x: usize, j: int)
    requires
        0 <= j <= g.len(),
    ensures
        para_text_upto(v, g.push(x), j) == para_text_upto(v, g, j),
    decreases j,
{
    if j > 0 {
        lemma_para_text_push(v, g, x, j - 1);
    }
}

/// Offsets grow with the member index.
pub proof fn lemma_offset_mono(v: Seq<TokView>, g: Seq<usize>, i: int, j: int)
    requires
        0 <= i <= j,
    ensures
        offset(v, g, i) <= offset(v, g, j),
    decreases j,
{
    if i < j {
        lemma_offset_mono(v, g, i, j - 1);
    }
}

/// The counted characters of a prefix never exceed those of a longer prefix.
pub proof fn lemma_zi_sum_mono(v: Seq<TokView>, i: int, j: int)
    requires
        0 <= i <= j,
    ensures
        zi_sum_upto(v, i) <= zi_sum_upto(v, j),
    decreases j,
{
    if i < j {
        lemma_zi_sum_mono(v, i, j - 1);
    }
}

proof fn lemma_groups_chars_push(v: Seq<TokView>, gs: Seq<Seq<usize>>, g: Seq<usize>, n: int)
    requires
        0 <= n <= gs.len(),
    ensures
        groups_chars(v, gs.push(g), n) == groups_chars(v, gs, n),
    decreases n,
{
    if n > 0 {
        lemma_groups_chars_push(v, gs, g, n - 1);
    }
}

/// Scanning keeps the shape of the groups (see `groups_shape`).
pub proof fn lemma_groups_upto_shape(v: Seq<TokView>, n: int)
    requires
        v.len() <= usize::MAX,
        0 <= n <= v.len(),
    ensures
        groups_shape(v, n, groups_upto(v, n).0, groups_upto(v, n).1),
        groups_ok(v, groups_upto(v, n).0),
        group_ok(v, groups_upto(v, n).1),
    decreases n,
{
    if n > 0 {
        lemma_groups_upto_shape(v, n - 1);
        let (gs, cur) = groups_upto(v, n - 1);
        let gs2 = groups_upto(v, n).0;
        let cur2 = groups_upto(v, n).1;
        if v[n - 1].0 == XMLSimpToken::TagWpEnd {
            assert(cur2.len() == 0);
            assert(!counted(v, n - 1));
            if cur.len() != 0 {
                assert(gs2 == gs.push(cur));
                assert forall|k: int| 0 <= k < gs2.len() implies {
                    &&& (#[trigger] gs2[k]).len() > 0
                    &&& increasing(gs2[k])
                    &&& all_below(gs2[k], n)
                    &&& all_counted(v, gs2[k])
                    &&& before(gs2[k], cur2)
                } by {
                    if k < gs.len() {
                        assert(gs2[k] == gs[k]);
                    } else {
                        assert(gs2[k] == cur);
                    }
                }
                assert forall|k1: int, k2: int| 0 <= k1 < k2 < gs2.len() implies before(
                    #[trigger] gs2[k1],
                    #[trigger] gs2[k2],
                ) by {
                    assert(gs2[k1] == gs[k1]);
                    if k2 < gs.len() {
                        assert(gs2[k2] == gs[k2]);
                    } else {
                        assert(gs2[k2] == cur);
                    }
                }
                assert forall|i: int| 0 <= i < n && #[trigger] counted(v, i) implies in_group(cur2, i)
                    || exists|k: int| 0 <= k < gs2.len() && #[trigger] in_group(gs2[k], i) by {
                    if in_group(cur, i) {
                        assert(gs2[gs.len() as int] == cur);
                        assert(in_group(gs2[gs.len() as int], i));
                    } else {
                        let k = choose|k: int| 0 <= k < gs.len() && #[trigger] in_group(gs[k], i);
                        assert(gs2[k] == gs[k]);
                        assert(in_group(gs2[k], i));
                    }
                }
            } else {
                assert(gs2 == gs);
                assert forall|k: int| 0 <= k < gs2.len() implies {
                    &&& (#[trigger] gs2[k]).len() > 0
                    &&& increasing(gs2[k])
                    &&& all_below(gs2[k], n)
                    &&& all_counted(v, gs2[k])
                    &&& before(gs2[k], cur2)
                } by {}
                assert forall|i: int| 0 <= i < n && #[trigger] counted(v, i) implies in_group(cur2, i)
                    || exists|k: int| 0 <= k < gs2.len() && #[trigger] in_group(gs2[k], i) by {
                    assert(!in_group(cur, i));
                }
            }
        } else if counted(v, n - 1) {
            assert(gs2 == gs);
            assert(cur2 == cur.push((n - 1) as usize));
            assert forall|k: int| 0 <= k < gs2.len() implies {
                &&& (#[trigger] gs2[k]).len() > 0
                &&& increasing(gs2[k])
                &&& all_below(gs2[k], n)
                &&& all_counted(v, gs2[k])
                &&& before(gs2[k], cur2)
            } by {
                assert forall|a: int, b: int| 0 <= a < gs2[k].len() && 0 <= b < cur2.len() implies (
                #[trigger] gs2[k][a]) < (#[trigger] cur2[b]) by {
                    if b < cur.len() {
                        assert(cur2[b] == cur[b]);
                    }
                }
            }
            assert forall|i: int, j: int| 0 <= i < j < cur2.len() implies (#[trigger] cur2[i]) < (
            #[trigger] cur2[j]) by {
                assert(cur2[i] == cur[i]);
            }
            assert forall|a: int| 0 <= a < cur2.len() implies counted(v, #[trigger] cur2[a] as int) by {
                if a < cur.len() {
                    assert(cur2[a] == cur[a]);
                }
            }
            assert forall|a: int, j: int|
                0 <= a < cur2.len() && (#[trigger] cur2[a]) < j < n implies (#[trigger] v[j]).0
                != XMLSimpToken::TagWpEnd by {
                assert(cur2[a] == cur[a]);
            }
            assert forall|i: int| 0 <= i < n && #[trigger] counted(v, i) implies in_group(cur2, i)
                || exists|k: int| 0 <= k < gs2.len() && #[trigger] in_group(gs2[k], i) by {
                if i == n - 1 {
                    assert(cur2[cur.len() as int] as int == i);
                } else if in_group(cur, i) {
                    let t = choose|t: int| 0 <= t < cur.len() && cur[t] as int == i;
                    assert(cur2[t] == cur[t]);
                }
            }
        } else {
            assert(gs2 == gs);
            assert(cur2 == cur);
            assert forall|k: int| 0 <= k < gs2.len() implies {
                &&& (#[trigger] gs2[k]).len() > 0
                &&& increasing(gs2[k])
                &&& all_below(gs2[k], n)
                &&& all_counted(v, gs2[k])
                &&& before(gs2[k], cur2)
            } by {}
        }
        let (gsn, curn) = groups_upto(v, n);
        assert forall|k: int| 0 <= k < gsn.len() implies group_ok(v, #[trigger] gsn[k]) by {
            assert(increasing(gsn[k]));
            assert(all_below(gsn[k], n));
            assert forall|i: int, j: int|
                0 <= i < gsn[k].len() && 0 <= j < gsn[k].len() && i != j implies (
                #[trigger] gsn[k][i]) != (#[trigger] gsn[k][j]) by {
                if i < j {
                    assert(gsn[k][i] < gsn[k][j]);
                } else {
                    assert(gsn[k][j] < gsn[k][i]);
                }
            }
        }
        assert forall|i: int, j: int| 0 <= i < curn.len() && 0 <= j < curn.len() && i != j implies (
        #[trigger] curn[i]) != (#[trigger] curn[j]) by {
            if i < j {
                assert(curn[i] < curn[j]);
            } else {
                assert(curn[j] < curn[i]);
            }
        }
    }
}

/// The counted characters of the first `n` tokens are those of the closed
/// paragraphs plus those of the open one.
pub proof fn lemma_zi_sum_upto_groups(v: Seq<TokView>, n: int)
    requires
        v.len() <= usize::MAX,
        0 <= n <= v.len(),
    ensures
        zi_sum_upto(v, n) == groups_chars(v, groups_upto(v, n).0, groups_upto(v, n).0.len() as int)
            + para_text(v, groups_upto(v, n).1).len(),
    decreases n,
{
    if n > 0 {
        lemma_zi_sum_upto_groups(v, n - 1);
        let (gs, cur) = groups_upto(v, n - 1);
        if v[n - 1].0 == XMLSimpToken::TagWpEnd {
            if cur.len() != 0 {
                lemma_groups_chars_push(v, gs, cur, gs.len() as int);
            }
        } else if counted(v, n - 1) {
            lemma_para_text_push(v, cur, (n - 1) as usize, cur.len() as int);
        }
    }
}

/// Law: the characters that `zi_sum` counts are exactly the characters of the
/// paragraphs that are handed out for conversion, plus those of a paragraph
/// left open at the end (none when every `<w:p>` is closed).
pub proof fn lemma_zi_sum_is_paragraph_chars(v: Seq<TokView>)
    requires
        v.len() <= usize::MAX,
    ensures
        zi_sum(v) == groups_chars(v, text_groups(v), text_groups(v).len() as int) + para_text(
            v,
            open_group(v),
        ).len(),
        open_group(v).len() == 0 ==> zi_sum(v) == groups_chars(
            v,
            text_groups(v),
            text_groups(v).len() as int,
        ),
{
    lemma_zi_sum_upto_groups(v, v.len() as int);
}

/// What writing back does to each token: member `t` of the group gets its
/// piece, members not yet written and tokens outside the group keep theirs.
pub proof fn lemma_fill_upto(v: Seq<TokView>, g: Seq<usize>, c: Seq<char>, j: int)
    requires
        group_ok(v, g),
        0 <= j <= g.len(),
    ensures
        fill_upto(v, g, c, j).len() == v.len(),
        forall|t: int|
            0 <= t < j ==> #[trigger] fill_upto(v, g, c, j)[g[t] as int] == (
                v[g[t] as int].0,
                piece(v, g, c, t),
            ),
        forall|t: int|
            j <= t < g.len() ==> #[trigger] fill_upto(v, g, c, j)[g[t] as int] == v[g[t] as int],
        forall|i: int|
            0 <= i < v.len() && !in_group(g, i) ==> #[trigger] fill_upto(v, g, c, j)[i]
                == v[i],
    decreases j,
{
    if j > 0 {
        lemma_fill_upto(v, g, c, j - 1);
        let w = fill_upto(v, g, c, j - 1);
        let k = g[j - 1] as int;
        assert forall|t: int| 0 <= t < j implies #[trigger] fill_upto(v, g, c, j)[g[t] as int] == (
            v[g[t] as int].0,
            piece(v, g, c, t),
        ) by {
            if t < j - 1 {
                assert(g[t] != g[j - 1]);
                assert(w[g[t] as int] == (v[g[t] as int].0, piece(v, g, c, t)));
            }
        }
        assert forall|t: int| j <= t < g.len() implies #[trigger] fill_upto(v, g, c, j)[g[t] as int]
            == v[g[t] as int] by {
            assert(g[j - 1] != g[t]);
            assert(w[g[t] as int] == v[g[t] as int]);
        }
        assert forall|i: int| 0 <= i < v.len() && !in_group(g, i) implies #[trigger] fill_upto(
            v,
            g,
            c,
            j,
        )[i] == v[i] by {
            if i == k {
                assert(in_group(g, g[j - 1] as int));
            }
            assert(w[i] == v[i]);
        }
    }
}

/// Law: writing back keeps the number of tokens and every kind, and leaves
/// every token outside the paragraph as it was.
pub proof fn lemma_fill_keeps_shape(v: Seq<TokView>, g: Seq<usize>, c: Seq<char>)
    requires
        group_ok(v, g),
    ensures
        fill_group(v, g, c).len() == v.len(),
        forall|i: int| 0 <= i < v.len() ==> (#[trigger] fill_group(v, g, c)[i]).0 == v[i].0,
        forall|i: int|
            0 <= i < v.len() && !in_group(g, i) ==> #[trigger] fill_group(v, g, c)[i]
                == v[i],
{
    lemma_fill_upto(v, g, c, g.len() as int);
    assert forall|i: int| 0 <= i < v.len() implies (#[trigger] fill_group(v, g, c)[i]).0
        == v[i].0 by {
        if in_group(g, i) {
            let t = choose|t: int| 0 <= t < g.len() && g[t] as int == i;
            assert(fill_group(v, g, c)[g[t] as int] == (v[g[t] as int].0, piece(v, g, c, t)));
        }
    }
}

/// The character counts after writing back: the last member holds what
/// remains past its offset, every other token keeps its count.
pub proof fn lemma_fill_lengths(v: Seq<TokView>, g: Seq<usize>, c: Seq<char>)
    requires
        group_ok(v, g),
        g.len() > 0,
        fits(v, g, c),
    ensures
        forall|i: int|
            0 <= i < v.len() ==> (#[trigger] fill_group(v, g, c)[i]).1.len() == if i == g.last() {
                c.len() - offset(v, g, g.len() - 1)
            } else {
                v[i].1.len() as int
            },
{
    let m = g.len() as int;
    lemma_fill_upto(v, g, c, m);
    assert forall|i: int| 0 <= i < v.len() implies (#[trigger] fill_group(v, g, c)[i]).1.len() == if i
        == g.last() {
        c.len() - offset(v, g, g.len() - 1)
    } else {
        v[i].1.len() as int
    } by {
        if in_group(g, i) {
            let t = choose|t: int| 0 <= t < g.len() && g[t] as int == i;
            assert(fill_group(v, g, c)[g[t] as int] == (v[g[t] as int].0, piece(v, g, c, t)));
            if t < m - 1 {
                assert(g[t] != g[m - 1]);
                lemma_offset_mono(v, g, t + 1, m - 1);
            }
        }
    }
}

/// Law: after the converted characters `c` are written into a paragraph, the
/// paragraph reads back as exactly `c`: nothing is lost and nothing repeated.
pub proof fn lemma_converted_paragraph_reads_back(v: Seq<TokView>, g: Seq<usize>, c: Seq<char>)
    requires
        group_ok(v, g),
        g.len() > 0,
        fits(v, g, c),
    ensures
        para_text(fill_group(v, g, c), g) == c,
{
    let m = g.len() as int;
    let w = fill_group(v, g, c);
    lemma_fill_upto(v, g, c, m);
    assert forall|j: int| 0 <= j <= m - 1 implies #[trigger] para_text_upto(w, g, j) == c.subrange(
        0,
        offset(v, g, j),
    ) by {
        lemma_reads_back_prefix(v, g, c, j);
    }
    lemma_offset_mono(v, g, 0, m - 1);
    assert(w[g[m - 1] as int] == (v[g[m - 1] as int].0, piece(v, g, c, m - 1)));
    assert(para_text_upto(w, g, m) == para_text_upto(w, g, m - 1) + w[g[m - 1] as int].1);
    assert(para_text_upto(w, g, m - 1) == c.subrange(0, offset(v, g, m - 1)));
    assert(c.subrange(0, offset(v, g, m - 1)) + c.subrange(offset(v, g, m - 1), c.len() as int)
        =~= c);
}

proof fn lemma_reads_back_prefix(v: Seq<TokView>, g: Seq<usize>, c: Seq<char>, j: int)
    requires
        group_ok(v, g),
        g.len() > 0,
        fits(v, g, c),
        0 <= j <= g.len() - 1,
    ensures
        para_text_upto(fill_group(v, g, c), g, j) == c.subrange(0, offset(v, g, j)),
    decreases j,
{
    let m = g.len() as int;
    let w = fill_group(v, g, c);
    if j == 0 {
        assert(c.subrange(0, 0) =~= Seq::<char>::empty());
    } else {
        lemma_reads_back_prefix(v, g, c, j - 1);
        lemma_fill_upto(v, g, c, m);
        assert(w[g[j - 1] as int] == (v[g[j - 1] as int].0, piece(v, g, c, j - 1)));
        lemma_offset_mono(v, g, j, m - 1);
        assert(c.subrange(0, offset(v, g, j - 1)) + c.subrange(
            offset(v, g, j - 1),
            offset(v, g, j),
        ) =~= c.subrange(0, offset(v, g, j)));
    }
}

/// The text of member `t` sits in the paragraph text at its offset.
proof fn lemma_member_in_para_text(v: Seq<TokView>, g: Seq<usize>, t: int, m: int)
    requires
        0 <= t < m <= g.len(),
    ensures
        offset(v, g, t) + v[g[t] as int].1.len() <= para_text_upto(v, g, m).len(),
        para_text_upto(v, g, m).subrange(offset(v, g, t), offset(v, g, t) + v[g[t] as int].1.len())
            == v[g[t] as int].1,
    decreases m,
{
    if m == t + 1 {
        assert(para_text_upto(v, g, m).subrange(
            offset(v, g, t),
            offset(v, g, t) + v[g[t] as int].1.len(),
        ) =~= v[g[t] as int].1);
    } else {
        lemma_member_in_para_text(v, g, t, m - 1);
        assert(para_text_upto(v, g, m).subrange(
            offset(v, g, t),
            offset(v, g, t) + v[g[t] as int].1.len(),
        ) =~= para_text_upto(v, g, m - 1).subrange(
            offset(v, g, t),
            offset(v, g, t) + v[g[t] as int].1.len(),
        ));
    }
}

/// Law: writing a paragraph's own text back into it changes nothing.
pub proof fn lemma_own_text_changes_nothing(v: Seq<TokView>, g: Seq<usize>)
    requires
        group_ok(v, g),
    ensures
        fill_group(v, g, para_text(v, g)) == v,
{
    let m = g.len() as int;
    let c = para_text(v, g);
    let w = fill_group(v, g, c);
    lemma_fill_upto(v, g, c, m);
    assert forall|i: int| 0 <= i < v.len() implies #[trigger] w[i] == v[i] by {
        if in_group(g, i) {
            let t = choose|t: int| 0 <= t < g.len() && g[t] as int == i;
            assert(w[g[t] as int] == (v[g[t] as int].0, piece(v, g, c, t)));
            lemma_member_in_para_text(v, g, t, m);
            if t == m - 1 {
                assert(offset(v, g, t) + v[g[t] as int].1.len() == c.len());
            }
            assert(piece(v, g, c, t) == v[g[t] as int].1);
        }
    }
    assert(w =~= v);
}

/// Converting paragraphs one after another keeps the number of tokens and
/// their kinds, so the paragraphs stay usable.
pub proof fn lemma_converted_state_shape(
    v: Seq<TokView>,
    gs: Seq<Seq<usize>>,
    rs: Seq<Seq<char>>,
    k: int,
)
    requires
        groups_ok(v, gs),
        0 <= k <= gs.len(),
    ensures
        converted_state(v, gs, rs, k).len() == v.len(),
        forall|i: int| 0 <= i < v.len() ==> (#[trigger] converted_state(v, gs, rs, k)[i]).0 == v[i].0,
        groups_ok(converted_state(v, gs, rs, k), gs),
    decreases k,
{
    if k > 0 {
        lemma_converted_state_shape(v, gs, rs, k - 1);
        let w = converted_state(v, gs, rs, k - 1);
        assert(group_ok(w, gs[k - 1]));
        lemma_fill_keeps_shape(w, gs[k - 1], even_chars(rs[k - 1]));
        let w2 = converted_state(v, gs, rs, k);
        assert forall|j: int| 0 <= j < gs.len() implies group_ok(w2, #[trigger] gs[j]) by {
            assert(group_ok(v, gs[j]));
        }
    }
}

/// Law: when every converted text is the paragraph's own text, the document
/// is unchanged by the conversion.
pub proof fn lemma_identity_conversion(
    v: Seq<TokView>,
    gs: Seq<Seq<usize>>,
    rs: Seq<Seq<char>>,
    k: int,
)
    requires
        groups_ok(v, gs),
        0 <= k <= gs.len(),
        rs.len() == gs.len(),
        forall|j: int| 0 <= j < gs.len() ==> even_chars(#[trigger] rs[j]) == para_text(v, gs[j]),
    ensures
        converted_state(v, gs, rs, k) == v,
    decreases k,
{
    if k > 0 {
        lemma_identity_conversion(v, gs, rs, k - 1);
        assert(even_chars(rs[k - 1]) == para_text(v, gs[k - 1]));
        lemma_own_text_changes_nothing(v, gs[k - 1]);
    }
}

/// Law: when the converter keeps the length of every paragraph and no
/// paragraph is left open, the number of converted characters equals the
/// number of characters that `zi_sum` counts before the conversion.
pub proof fn lemma_length_preserving_conversion_keeps_count(v: Seq<TokView>, rs: Seq<Seq<char>>)
    requires
        v.len() <= usize::MAX,
        open_group(v).len() == 0,
        rs.len() == text_groups(v).len(),
        forall|k: int|
            0 <= k < rs.len() ==> (#[trigger] rs[k]).len() / 2 == para_text(v, text_groups(v)[k]).len(),
    ensures
        converted_total(rs, rs.len() as int) == zi_sum(v),
{
    lemma_zi_sum_is_paragraph_chars(v);
    lemma_converted_total_groups_chars(v, text_groups(v), rs, rs.len() as int);
}

/// The converted total equals the paragraphs' characters when each converted
/// text has as many pairs as its paragraph has characters.
pub proof fn lemma_converted_total_groups_chars(
    v: Seq<TokView>,
    gs: Seq<Seq<usize>>,
    rs: Seq<Seq<char>>,
    n: int,
)
    requires
        0 <= n <= rs.len(),
        rs.len() == gs.len(),
        forall|k: int| 0 <= k < rs.len() ==> (#[trigger] rs[k]).len() / 2 == para_text(v, gs[k]).len(),
    ensures
        converted_total(rs, n) == groups_chars(v, gs, n),
    decreases n,
{
    if n > 0 {
        lemma_converted_total_groups_chars(v, gs, rs, n - 1);
        assert(rs[n - 1].len() / 2 == para_text(v, gs[n - 1]).len());
    }
}

/// Law: the paragraphs found in `v` are non-empty, hold only counted texts,
/// in strictly increasing order, and follow one another in document order,
/// so no index belongs to two of them.
pub proof fn lemma_text_groups_shape(v: Seq<TokView>)
    requires
        v.len() <= usize::MAX,
    ensures
        groups_ok(v, text_groups(v)),
        forall|k: int|
            0 <= k < text_groups(v).len() ==> {
                &&& (#[trigger] text_groups(v)[k]).len() > 0
                &&& increasing(text_groups(v)[k])
                &&& all_counted(v, text_groups(v)[k])
            },
        groups_in_order(text_groups(v)),
        groups_disjoint(text_groups(v)),
{
    lemma_groups_upto_shape(v, v.len() as int);
    let gs = text_groups(v);
    assert forall|k1: int, k2: int, a: int, b: int|
        0 <= k1 < gs.len() && 0 <= k2 < gs.len() && k1 != k2 && 0 <= a < gs[k1].len() && 0 <= b
            < gs[k2].len() implies (#[trigger] gs[k1][a]) != (#[trigger] gs[k2][b]) by {
        if k1 < k2 {
            assert(before(gs[k1], gs[k2]));
        } else {
            assert(before(gs[k2], gs[k1]));
        }
    }
}

/// Law: every counted text that a `</w:p>` follows lies in one of the
/// paragraphs found in `v`.
pub proof fn lemma_counted_text_before_wp_end_is_grouped(v: Seq<TokView>, i: int, j: int)
    requires
        v.len() <= usize::MAX,
        0 <= i < j < v.len(),
        counted(v, i),
        v[j].0 == XMLSimpToken::TagWpEnd,
    ensures
        exists|k: int| 0 <= k < text_groups(v).len() && #[trigger] in_group(text_groups(v)[k], i),
{
    lemma_groups_upto_shape(v, v.len() as int);
    let cur = open_group(v);
    let gs = text_groups(v);
    assert(groups_shape(v, v.len() as int, gs, cur));
    assert(in_group(cur, i) || exists|k: int| 0 <= k < gs.len() && #[trigger] in_group(gs[k], i));
    if in_group(cur, i) {
        let a = choose|a: int| 0 <= a < cur.len() && cur[a] as int == i;
        assert(cur[a] < j < v.len());
        assert(v[j].0 != XMLSimpToken::TagWpEnd);
    }
}

/// A `</w:p>` follows every counted text of `v`.
pub open spec fn paragraphs_closed(v: Seq<TokView>) -> bool {
    forall|i: int|
        0 <= i < v.len() && #[trigger] counted(v, i) ==> exists|j: int|
            i < j < v.len() && v[j].0 == XMLSimpToken::TagWpEnd
}

/// Law: when a `</w:p>` follows every counted text, no paragraph is left
/// open and `zi_sum` counts exactly the characters of the paragraphs found.
pub proof fn lemma_zi_sum_when_paragraphs_closed(v: Seq<TokView>)
    requires
        v.len() <= usize::MAX,
        paragraphs_closed(v),
    ensures
        open_group(v).len() == 0,
        zi_sum(v) == groups_chars(v, text_groups(v), text_groups(v).len() as int),
{
    lemma_groups_upto_shape(v, v.len() as int);
    let cur = open_group(v);
    if cur.len() > 0 {
        let i = cur[0] as int;
        assert(counted(v, i));
        let j = choose|j: int| i < j < v.len() && v[j].0 == XMLSimpToken::TagWpEnd;
        assert(cur[0] < j < v.len());
        assert(v[j].0 != XMLSimpToken::TagWpEnd);
    }
    lemma_zi_sum_is_paragraph_chars(v);
}

/// Law: `zi_sum` never exceeds the number of characters of all tokens.
pub proof fn lemma_zi_sum_within_text(v: Seq<TokView>)
    ensures
        zi_sum(v) <= crate::common::texts_concat(v).len(),
{
    lemma_zi_sum_upto_within(v, v.len() as int);
    assert(v.take(v.len() as int) =~= v);
}

proof fn lemma_zi_sum_upto_within(v: Seq<TokView>, n: int)
    requires
        0 <= n <= v.len(),
    ensures
        zi_sum_upto(v, n) <= crate::common::texts_concat(v.take(n)).len(),
    decreases n,
{
    if n > 0 {
        lemma_zi_sum_upto_within(v, n - 1);
        assert(v.take(n).drop_last() =~= v.take(n - 1));
    }
}

/// Tokens outside the paragraphs `gs[a..b]` are the same before and after
/// those paragraphs are converted.
pub proof fn lemma_converted_state_frame(
    v: Seq<TokView>,
    gs: Seq<Seq<usize>>,
    rs: Seq<Seq<char>>,
    a: int,
    b: int,
    i: int,
)
    requires
        groups_ok(v, gs),
        0 <= a <= b <= gs.len(),
        0 <= i < v.len(),
        forall|t: int| a <= t < b ==> !in_group(#[trigger] gs[t], i),
    ensures
        converted_state(v, gs, rs, b)[i] == converted_state(v, gs, rs, a)[i],
    decreases b,
{
    if a < b {
        lemma_converted_state_frame(v, gs, rs, a, b - 1, i);
        lemma_converted_state_shape(v, gs, rs, b - 1);
        assert(!in_group(gs[b - 1], i));
        lemma_fill_keeps_shape(converted_state(v, gs, rs, b - 1), gs[b - 1], even_chars(rs[b - 1]));
    }
}

/// Two token sequences that agree on the members of `g` give `g` the same text.
pub proof fn lemma_para_text_agree(v: Seq<TokView>, w: Seq<TokView>, g: Seq<usize>, j: int)
    requires
        0 <= j <= g.len(),
        forall|t: int| 0 <= t < g.len() ==> #[trigger] w[g[t] as int] == v[g[t] as int],
    ensures
        para_text_upto(w, g, j) == para_text_upto(v, g, j),
    decreases j,
{
    if j > 0 {
        lemma_para_text_agree(v, w, g, j - 1);
        assert(w[g[j - 1] as int] == v[g[j - 1] as int]);
    }
}

/// With disjoint paragraphs, converting the paragraphs before `k` leaves the
/// text of paragraph `k` as it was: the text handed out before the
/// conversion is the text converted at its turn.
pub proof fn lemma_paragraph_text_at_its_turn(
    v: Seq<TokView>,
    gs: Seq<Seq<usize>>,
    rs: Seq<Seq<char>>,
    k: int,
)
    requires
        groups_ok(v, gs),
        groups_disjoint(gs),
        0 <= k < gs.len(),
    ensures
        para_text(converted_state(v, gs, rs, k), gs[k]) == para_text(v, gs[k]),
        forall|t: int|
            0 <= t < gs[k].len() ==> #[trigger] converted_state(v, gs, rs, k)[gs[k][t] as int]
                == v[gs[k][t] as int],
{
    let g = gs[k];
    assert(group_ok(v, g));
    assert forall|t: int| 0 <= t < g.len() implies #[trigger] converted_state(v, gs, rs, k)[g[t] as int]
        == v[g[t] as int] by {
        let i = g[t] as int;
        assert forall|u: int| 0 <= u < k implies !in_group(#[trigger] gs[u], i) by {
            if in_group(gs[u], i) {
                let b = choose|b: int| 0 <= b < gs[u].len() && gs[u][b] as int == i;
                assert(gs[u][b] != gs[k][t]);
            }
        }
        lemma_converted_state_frame(v, gs, rs, 0, k, i);
    }
    lemma_para_text_agree(v, converted_state(v, gs, rs, k), g, g.len() as int);
}

/// Law: with disjoint, non-empty paragraphs and acceptable converted texts,
/// after the whole conversion every paragraph reads back as exactly its
/// converted characters.
pub proof fn lemma_every_paragraph_reads_back(
    v: Seq<TokView>,
    gs: Seq<Seq<usize>>,
    rs: Seq<Seq<char>>,
    k: int,
)
    requires
        groups_ok(v, gs),
        groups_disjoint(gs),
        forall|j: int| 0 <= j < gs.len() ==> (#[trigger] gs[j]).len() > 0,
        conversion_acceptable(v, gs, rs),
        0 <= k < gs.len(),
    ensures
        para_text(converted_state(v, gs, rs, gs.len() as int), gs[k]) == even_chars(rs[k]),
{
    let g = gs[k];
    lemma_converted_state_shape(v, gs, rs, k);
    let w = converted_state(v, gs, rs, k);
    assert(group_ok(w, g));
    assert(fits(w, g, even_chars(rs[k])));
    lemma_converted_paragraph_reads_back(w, g, even_chars(rs[k]));
    let w1 = converted_state(v, gs, rs, k + 1);
    lemma_converted_state_shape(v, gs, rs, k + 1);
    let wn = converted_state(v, gs, rs, gs.len() as int);
    assert forall|t: int| 0 <= t < g.len() implies #[trigger] wn[g[t] as int] == w1[g[t] as int] by {
        let i = g[t] as int;
        assert forall|u: int| k + 1 <= u < gs.len() implies !in_group(#[trigger] gs[u], i) by {
            if in_group(gs[u], i) {
                let b = choose|b: int| 0 <= b < gs[u].len() && gs[u][b] as int == i;
                assert(gs[u][b] != gs[k][t]);
            }
        }
        lemma_converted_state_frame(v, gs, rs, k + 1, gs.len() as int, i);
    }
    lemma_para_text_agree(w1, wn, g, g.len() as int);
}

/// Every marker of `r` is `0` or `1`: no character is highlighted.
pub open spec fn unmarked(r: Seq<char>) -> bool {
    forall|i: int| 0 <= i < r.len() / 2 ==> #[trigger] r[2 * i + 1] == '0' || r[2 * i + 1] == '1'
}

/// Without highlighted characters, a paragraph's HTML is its characters.
pub proof fn lemma_unmarked_html(r: Seq<char>, n: int)
    requires
        unmarked(r),
        0 <= n <= r.len() / 2,
    ensures
        html_upto(r, n) == even_chars(r).take(n),
    decreases n,
{
    if n > 0 {
        lemma_unmarked_html(r, n - 1);
        assert(r[2 * (n - 1) + 1] == '0' || r[2 * (n - 1) + 1] == '1');
        assert(even_chars(r).take(n) =~= even_chars(r).take(n - 1).push(r[2 * (n - 1)]));
    }
}

/// The HTML of the paragraphs `gs[0..n]` of `v` with nothing highlighted.
pub open spec fn paragraphs_html(v: Seq<TokView>, gs: Seq<Seq<usize>>, n: int) -> Seq<char>
    decreases n,
{
    if n <= 0 {
        Seq::empty()
    } else {
        paragraphs_html(v, gs, n - 1) + "<p>"@ + para_text(v, gs[n - 1]) + "</p>\n"@
    }
}

/// The HTML of converted texts that repeat each paragraph's text without
/// highlights is the paragraphs' text, one `<p>` each.
pub proof fn lemma_unchanged_html(v: Seq<TokView>, gs: Seq<Seq<usize>>, rs: Seq<Seq<char>>, n: int)
    requires
        0 <= n <= rs.len(),
        rs.len() == gs.len(),
        forall|j: int|
            0 <= j < rs.len() ==> even_chars(#[trigger] rs[j]) == para_text(v, gs[j]) && unmarked(
                rs[j],
            ),
    ensures
        html_all(rs, n) == paragraphs_html(v, gs, n),
    decreases n,
{
    if n > 0 {
        lemma_unchanged_html(v, gs, rs, n - 1);
        let r = rs[n - 1];
        assert(even_chars(r) == para_text(v, gs[n - 1]) && unmarked(r));
        lemma_unmarked_html(r, (r.len() / 2) as int);
        assert(even_chars(r).take((r.len() / 2) as int) =~= even_chars(r));
    }
}

// ---------------------------------------------------------------------------
// Laws that say what the scan, the grouping and the markers mean
// ---------------------------------------------------------------------------

/// No `end` tag lies strictly between tokens `a` and `i`.
pub open spec fn none_between(v: Seq<TokView>, a: int, i: int, end: XMLSimpToken) -> bool {
    forall|e: int| a < e < i ==> (#[trigger] v[e]).0 != end
}

/// Some `beg` tag comes before token `i` with no `end` tag after it (before `i`).
pub open spec fn opened_before(v: Seq<TokView>, i: int, beg: XMLSimpToken, end: XMLSimpToken) -> bool {
    exists|a: int| 0 <= a < i && v[a].0 == beg && #[trigger] none_between(v, a, i, end)
}

proof fn lemma_opened_step(v: Seq<TokView>, i: int, beg: XMLSimpToken, end: XMLSimpToken)
    requires
        0 < i <= v.len(),
        beg != end,
    ensures
        v[i - 1].0 == beg ==> opened_before(v, i, beg, end),
        v[i - 1].0 == end ==> !opened_before(v, i, beg, end),
        v[i - 1].0 != beg && v[i - 1].0 != end ==> (opened_before(v, i, beg, end)
            == opened_before(v, i - 1, beg, end)),
{
    if v[i - 1].0 == beg {
        assert(none_between(v, i - 1, i, end));
    } else if v[i - 1].0 == end {
        if opened_before(v, i, beg, end) {
            let a = choose|a: int| 0 <= a < i && v[a].0 == beg && #[trigger] none_between(v, a, i, end);
            assert(a < i - 1);
            assert(v[i - 1].0 != end);
        }
    } else {
        if opened_before(v, i, beg, end) {
            let a = choose|a: int| 0 <= a < i && v[a].0 == beg && #[trigger] none_between(v, a, i, end);
            assert(a < i - 1);
            assert(none_between(v, a, i - 1, end));
        }
        if opened_before(v, i - 1, beg, end) {
            let a = choose|a: int|
                0 <= a < i - 1 && v[a].0 == beg && #[trigger] none_between(v, a, i - 1, end);
            assert(none_between(v, a, i, end));
        }
    }
}

/// Law: before token `i` the scan is inside a paragraph exactly when some
/// `<w:p>` comes before `i` with no `</w:p>` between it and `i`, and inside a
/// text run exactly when some `<w:t>` comes before `i` with no `</w:t>`
/// between. No other tag moves either flag.
pub proof fn lemma_flags_meaning(v: Seq<TokView>, i: int)
    requires
        0 <= i <= v.len(),
    ensures
        flags_before(v, i).0 == opened_before(v, i, XMLSimpToken::TagWpBeg, XMLSimpToken::TagWpEnd),
        flags_before(v, i).1 == opened_before(v, i, XMLSimpToken::TagWtBeg, XMLSimpToken::TagWtEnd),
    decreases i,
{
    if i > 0 {
        lemma_flags_meaning(v, i - 1);
        lemma_opened_step(v, i, XMLSimpToken::TagWpBeg, XMLSimpToken::TagWpEnd);
        lemma_opened_step(v, i, XMLSimpToken::TagWtBeg, XMLSimpToken::TagWtEnd);
    } else {
        assert(!opened_before(v, 0, XMLSimpToken::TagWpBeg, XMLSimpToken::TagWpEnd));
        assert(!opened_before(v, 0, XMLSimpToken::TagWtBeg, XMLSimpToken::TagWtEnd));
    }
}

/// Law: a text is counted (by `zi_sum`, and for the paragraphs) exactly when
/// it lies after a `<w:p>` with no `</w:p>` between and after a `<w:t>`
/// with no `</w:t>` between.
pub proof fn lemma_counted_meaning(v: Seq<TokView>, i: int)
    requires
        0 <= i < v.len(),
    ensures
        counted(v, i) <==> (v[i].0 == XMLSimpToken::Text && opened_before(
            v,
            i,
            XMLSimpToken::TagWpBeg,
            XMLSimpToken::TagWpEnd,
        ) && opened_before(v, i, XMLSimpToken::TagWtBeg, XMLSimpToken::TagWtEnd)),
{
    lemma_flags_meaning(v, i);
}

/// Law: a decimal digit is exactly one of `0` to `9`: every such marker is
/// accepted, nothing else is.
pub proof fn lemma_digit_meaning(m: char)
    ensures
        is_digit(m) <==> (m == '0' || m == '1' || m == '2' || m == '3' || m == '4' || m == '5' || m
            == '6' || m == '7' || m == '8' || m == '9'),
{
}

/// Law: a character is shown plain when its marker is `0` or `1`, and
/// highlighted when its marker is any of `2` to `9`.
pub proof fn lemma_highlight_meaning(c: char, m: char)
    ensures
        (m == '0' || m == '1') ==> char_html(c, m) == seq![c],
        (m == '2' || m == '3' || m == '4' || m == '5' || m == '6' || m == '7' || m == '8' || m
            == '9') ==> char_html(c, m) == "<span style=\"color: #ff0000\">"@ + seq![c]
            + "◣</span>"@,
{
}

/// A `</w:p>` comes after token `i` and before token `n`.
pub open spec fn wp_end_between(v: Seq<TokView>, i: int, n: int) -> bool {
    exists|e: int| i < e < n && (#[trigger] v[e]).0 == XMLSimpToken::TagWpEnd
}

/// How the groups found among the first `n` tokens relate to the `</w:p>`
/// tags: every grouped text is followed by one; a counted text reached from a
/// grouped text without crossing one is in the same group; and a counted text
/// not followed by one is in the open group.
pub open spec fn groups_closing(v: Seq<TokView>, n: int, gs: Seq<Seq<usize>>, cur: Seq<usize>) -> bool {
    &&& forall|k: int, a: int|
        0 <= k < gs.len() && 0 <= a < gs[k].len() ==> wp_end_between(v, #[trigger] gs[k][a] as int, n)
    &&& forall|k: int, a: int, j: int|
        0 <= k < gs.len() && 0 <= a < gs[k].len() && gs[k][a] < j < n && #[trigger] counted(v, j)
            && none_between(v, #[trigger] gs[k][a] as int, j + 1, XMLSimpToken::TagWpEnd) ==> in_group(
            gs[k],
            j,
        )
    &&& forall|j: int|
        0 <= j < n && #[trigger] counted(v, j) && none_between(v, j, n, XMLSimpToken::TagWpEnd)
            ==> in_group(cur, j)
}

proof fn lemma_groups_upto_closing(v: Seq<TokView>, n: int)
    requires
        v.len() <= usize::MAX,
        0 <= n <= v.len(),
    ensures
        groups_closing(v, n, groups_upto(v, n).0, groups_upto(v, n).1),
    decreases n,
{
    if n > 0 {
        lemma_groups_upto_closing(v, n - 1);
        lemma_groups_upto_shape(v, n - 1);
        let (gs, cur) = groups_upto(v, n - 1);
        let gs2 = groups_upto(v, n).0;
        let cur2 = groups_upto(v, n).1;
        assert(groups_shape(v, n - 1, gs, cur));
        // every old grouped text keeps its closing tag
        assert forall|k: int, a: int| 0 <= k < gs.len() && 0 <= a < gs[k].len() implies wp_end_between(
            v,
            #[trigger] gs[k][a] as int,
            n,
        ) by {
            assert(wp_end_between(v, gs[k][a] as int, n - 1));
            let e = choose|e: int| gs[k][a] < e < n - 1 && (#[trigger] v[e]).0 == XMLSimpToken::TagWpEnd;
            assert(gs[k][a] < e < n);
        }
        // the same-group property of old groups
        assert forall|k: int, a: int, j: int|
            0 <= k < gs.len() && 0 <= a < gs[k].len() && gs[k][a] < j < n && #[trigger] counted(v, j)
                && none_between(
                v,
                #[trigger] gs[k][a] as int,
                j + 1,
                XMLSimpToken::TagWpEnd,
            ) implies in_group(gs[k], j) by {
            if j == n - 1 {
                assert(wp_end_between(v, gs[k][a] as int, n - 1));
                let e = choose|e: int|
                    gs[k][a] < e < n - 1 && (#[trigger] v[e]).0 == XMLSimpToken::TagWpEnd;
                assert(v[e].0 != XMLSimpToken::TagWpEnd);
            }
        }
        if v[n - 1].0 == XMLSimpToken::TagWpEnd {
            assert(!counted(v, n - 1));
            if cur.len() != 0 {
                assert(gs2 == gs.push(cur));
                assert forall|k: int, a: int|
                    0 <= k < gs2.len() && 0 <= a < gs2[k].len() implies wp_end_between(
                    v,
                    #[trigger] gs2[k][a] as int,
                    n,
                ) by {
                    if k < gs.len() {
                        assert(gs2[k] == gs[k]);
                    } else {
                        assert(gs2[k] == cur);
                        assert(cur[a] < n - 1);
                        assert(v[n - 1].0 == XMLSimpToken::TagWpEnd);
                    }
                }
                assert forall|k: int, a: int, j: int|
                    0 <= k < gs2.len() && 0 <= a < gs2[k].len() && gs2[k][a] < j < n
                        && #[trigger] counted(v, j) && none_between(
                        v,
                        #[trigger] gs2[k][a] as int,
                        j + 1,
                        XMLSimpToken::TagWpEnd,
                    ) implies in_group(gs2[k], j) by {
                    if k < gs.len() {
                        assert(gs2[k] == gs[k]);
                    } else {
                        assert(gs2[k] == cur);
                        assert(j < n - 1);
                        assert forall|e: int| j < e < n - 1 implies (#[trigger] v[e]).0
                            != XMLSimpToken::TagWpEnd by {
                            assert(cur[a] < e < n - 1);
                        }
                        assert(none_between(v, j, n - 1, XMLSimpToken::TagWpEnd));
                    }
                }
            } else {
                assert(gs2 == gs);
            }
            assert forall|j: int|
                0 <= j < n && #[trigger] counted(v, j) && none_between(
                    v,
                    j,
                    n,
                    XMLSimpToken::TagWpEnd,
                ) implies in_group(cur2, j) by {
                assert(j < n - 1);
                assert(v[n - 1].0 == XMLSimpToken::TagWpEnd);
            }
        } else if counted(v, n - 1) {
            assert(gs2 == gs);
            assert(cur2 == cur.push((n - 1) as usize));
            assert forall|j: int|
                0 <= j < n && #[trigger] counted(v, j) && none_between(
                    v,
                    j,
                    n,
                    XMLSimpToken::TagWpEnd,
                ) implies in_group(cur2, j) by {
                if j == n - 1 {
                    assert(cur2[cur.len() as int] as int == j);
                } else {
                    assert(none_between(v, j, n - 1, XMLSimpToken::TagWpEnd));
                    let t = choose|t: int| 0 <= t < cur.len() && cur[t] as int == j;
                    assert(cur2[t] == cur[t]);
                }
            }
        } else {
            assert(gs2 == gs);
            assert(cur2 == cur);
            assert forall|j: int|
                0 <= j < n && #[trigger] counted(v, j) && none_between(
                    v,
                    j,
                    n,
                    XMLSimpToken::TagWpEnd,
                ) implies in_group(cur2, j) by {
                assert(j < n - 1);
                assert(none_between(v, j, n - 1, XMLSimpToken::TagWpEnd));
            }
        }
    }
}

/// Law: a text belongs to one of the paragraphs found exactly when it is
/// counted and a `</w:p>` follows it.
pub proof fn lemma_grouped_meaning(v: Seq<TokView>, i: int)
    requires
        v.len() <= usize::MAX,
        0 <= i < v.len(),
    ensures
        (exists|k: int| 0 <= k < text_groups(v).len() && #[trigger] in_group(text_groups(v)[k], i))
            <==> (counted(v, i) && wp_end_between(v, i, v.len() as int)),
{
    lemma_groups_upto_closing(v, v.len() as int);
    lemma_groups_upto_shape(v, v.len() as int);
    let gs = text_groups(v);
    if exists|k: int| 0 <= k < gs.len() && #[trigger] in_group(gs[k], i) {
        let k = choose|k: int| 0 <= k < gs.len() && #[trigger] in_group(gs[k], i);
        let a = choose|a: int| 0 <= a < gs[k].len() && gs[k][a] as int == i;
        assert(wp_end_between(v, gs[k][a] as int, v.len() as int));
        assert(all_counted(v, gs[k]));
        assert(counted(v, gs[k][a] as int));
    }
    if counted(v, i) && wp_end_between(v, i, v.len() as int) {
        let e = choose|e: int| i < e < v.len() && (#[trigger] v[e]).0 == XMLSimpToken::TagWpEnd;
        lemma_counted_text_before_wp_end_is_grouped(v, i, e);
    }
}

/// Law: two counted texts with no `</w:p>` between them are in the same
/// paragraph: the texts of all runs of one `<w:p>` are converted together.
pub proof fn lemma_same_paragraph_same_group(v: Seq<TokView>, k: int, i: int, j: int)
    requires
        v.len() <= usize::MAX,
        0 <= k < text_groups(v).len(),
        in_group(text_groups(v)[k], i),
        i < j < v.len(),
        counted(v, j),
        none_between(v, i, j + 1, XMLSimpToken::TagWpEnd),
    ensures
        in_group(text_groups(v)[k], j),
{
    lemma_groups_upto_closing(v, v.len() as int);
    let gs = text_groups(v);
    let a = choose|a: int| 0 <= a < gs[k].len() && gs[k][a] as int == i;
    assert(gs[k][a] < j < v.len());
    assert(none_between(v, gs[k][a] as int, j + 1, XMLSimpToken::TagWpEnd));
}

/// Law: texts in two different paragraphs have a `</w:p>` between them.
pub proof fn lemma_paragraphs_split_at_wp_end(v: Seq<TokView>, k1: int, k2: int, i: int, j: int)
    requires
        v.len() <= usize::MAX,
        0 <= k1 < text_groups(v).len(),
        0 <= k2 < text_groups(v).len(),
        k1 != k2,
        in_group(text_groups(v)[k1], i),
        in_group(text_groups(v)[k2], j),
        i < j,
    ensures
        !none_between(v, i, j + 1, XMLSimpToken::TagWpEnd),
{
    let gs = text_groups(v);
    lemma_text_groups_shape(v);
    let b = choose|b: int| 0 <= b < gs[k2].len() && gs[k2][b] as int == j;
    assert(group_ok(v, gs[k2]));
    assert(j < v.len());
    assert(all_counted(v, gs[k2]));
    assert(counted(v, gs[k2][b] as int));
    if none_between(v, i, j + 1, XMLSimpToken::TagWpEnd) {
        lemma_same_paragraph_same_group(v, k1, i, j);
        let a = choose|a: int| 0 <= a < gs[k1].len() && gs[k1][a] as int == j;
        assert(gs[k1][a] != gs[k2][b]);
    }
}

/// The characters `s` each followed by its marker in `m`.
pub open spec fn interleave(s: Seq<char>, m: Seq<char>) -> Seq<char> {
    Seq::new(2 * s.len(), |i: int| if i % 2 == 0 { s[i / 2] } else { m[i / 2] })
}

/// Law: the converter's output read in pairs gives back the characters it
/// pairs with markers; its markers are acceptable exactly when each is one of
/// `0` to `9`; and with markers `0` or `1` only, its HTML is the characters.
pub proof fn lemma_pairs_meaning(s: Seq<char>, m: Seq<char>)
    requires
        m.len() == s.len(),
    ensures
        even_chars(interleave(s, m)) == s,
        marks_ok(interleave(s, m)) <==> (forall|i: int|
            0 <= i < s.len() ==> #[trigger] m[i] == '0' || m[i] == '1' || m[i] == '2' || m[i] == '3'
                || m[i] == '4' || m[i] == '5' || m[i] == '6' || m[i] == '7' || m[i] == '8' || m[i]
                == '9'),
        (forall|i: int| 0 <= i < s.len() ==> #[trigger] m[i] == '0' || m[i] == '1') ==> marked_html(
            interleave(s, m),
        ) == s,
{
    let r = interleave(s, m);
    assert(r.len() / 2 == s.len());
    assert forall|i: int| 0 <= i < s.len() implies r[2 * i] == s[i] && r[2 * i + 1] == m[i] by {
        assert((2 * i) % 2 == 0 && (2 * i) / 2 == i);
        assert((2 * i + 1) % 2 == 1 && (2 * i + 1) / 2 == i);
    }
    assert(even_chars(r) =~= s);
    if marks_ok(r) {
        assert forall|i: int| 0 <= i < s.len() implies #[trigger] m[i] == '0' || m[i] == '1' || m[i] == '2'
            || m[i] == '3' || m[i] == '4' || m[i] == '5' || m[i] == '6' || m[i] == '7' || m[i] == '8'
            || m[i] == '9' by {
            assert(is_digit(r[2 * i + 1]));
            lemma_digit_meaning(m[i]);
        }
    }
    if forall|i: int|
        0 <= i < s.len() ==> #[trigger] m[i] == '0' || m[i] == '1' || m[i] == '2' || m[i] == '3' || m[i]
            == '4' || m[i] == '5' || m[i] == '6' || m[i] == '7' || m[i] == '8' || m[i] == '9' {
        assert forall|i: int| 0 <= i < r.len() / 2 implies is_digit(#[trigger] r[2 * i + 1]) by {
            lemma_digit_meaning(m[i]);
        }
    }
    if forall|i: int| 0 <= i < s.len() ==> #[trigger] m[i] == '0' || m[i] == '1' {
        assert forall|i: int| 0 <= i < r.len() / 2 implies #[trigger] r[2 * i + 1] == '0' || r[2 * i
            + 1] == '1' by {}
        lemma_unmarked_html(r, s.len() as int);
        assert(even_chars(r).take(s.len() as int) =~= even_chars(r));
    }
}

} // verus!
