//! The text of a paragraph, and where its numbering comes from.

use crate::numbering;
use crate::styles;
use crate::styles::Styles;
use crate::subtree;
use crate::text;
use crate::xml;
use crate::xml::XmlTree;
use vstd::prelude::*;

verus! {

/// What a node adds to the text of its paragraph: a `t` its text, a `tab` or a
/// `br` a space, and any other node nothing.
pub open spec fn piece(node: xml::NodeView) -> Seq<char> {
    if node.tag == "t"@ {
        match node.text {
            Some(text) => text,
            None => Seq::empty(),
        }
    } else if node.tag == "tab"@ || node.tag == "br"@ {
        seq![' ']
    } else {
        Seq::empty()
    }
}

/// What the nodes from `from` up to `to` add, in document order.
pub open spec fn pieces(t: Seq<xml::NodeView>, from: int, to: int) -> Seq<char>
    decreases to - from,
{
    if from >= to {
        Seq::empty()
    } else {
        pieces(t, from, to - 1) + piece(t[to - 1])
    }
}

/// The text of a paragraph: what the nodes of its subtree add, trimmed.
pub open spec fn text_of(t: Seq<xml::NodeView>, i: int) -> Seq<char> {
    text::trimmed(pieces(t, i, i + t[i].size))
}

/// The text of a paragraph.
pub fn para_text(tree: &XmlTree, p: usize) -> (r: String)
    requires
        xml::well_formed(tree@),
        p < tree@.len(),
    ensures
        r@ == text_of(tree@, p as int),
{
    let n: usize = tree.nodes.len();
    assert(tree@[p as int].size == tree.nodes@[p as int].size);
    let end: usize = p + tree.nodes[p].size;
    let mut parts: Vec<char> = Vec::new();
    let mut i: usize = p;
    while i < end
        invariant
            xml::well_formed(tree@),
            p <= i <= end <= n == tree@.len() == tree.nodes@.len(),
            parts@ == pieces(tree@, p as int, i as int),
        decreases end - i,
    {
        let ghost before = parts@;
        let node = &tree.nodes[i];
        assert(tree@[i as int] == node@);
        let tag = node.tag.as_str();
        if text::same(tag, "t") {
            match &node.text {
                Some(s) => text::push_chars(&mut parts, s.as_str()),
                None => {},
            }
        } else if text::same(tag, "tab") || text::same(tag, "br") {
            parts.push(' ');
        }
        assert(parts@ == before + piece(tree@[i as int]));
        i += 1;
    }
    text::trim(&parts)
}

#[verifier::ext_equal]
pub struct NumPrView {
    pub num_id: Option<Seq<char>>,
    pub ilvl: u32,
    pub style: Option<Seq<char>>,
}

/// The id of the list that the style of a paragraph puts it into; `0` stands for
/// none.
pub open spec fn style_num_id(st: styles::StylesView, style: Option<Seq<char>>) -> Option<Seq<char>> {
    match style {
        Some(id) => if st.info.contains_key(id) && st.info[id].num_id != Some("0"@) {
            st.info[id].num_id
        } else {
            None
        },
        None => None,
    }
}

/// The `numPr` element of a paragraph itself.
pub open spec fn own_numpr(t: Seq<xml::NodeView>, i: int) -> Option<int> {
    xml::at_path(t, i, seq!["pPr"@, "numPr"@])
}

/// The `numId` that a paragraph itself has.
pub open spec fn own_num_id(t: Seq<xml::NodeView>, i: int) -> Option<Seq<char>> {
    match own_numpr(t, i) {
        Some(j) => xml::val_at(t, j, seq!["numId"@]),
        None => None,
    }
}

/// The id of the style of a paragraph.
pub open spec fn style_of(t: Seq<xml::NodeView>, i: int) -> Option<Seq<char>> {
    xml::val_at(t, i, seq!["pPr"@, "pStyle"@])
}

/// The numbering of a paragraph. A `numId` of its own decides, where `0` takes
/// the paragraph out of any list; without one the style decides.
pub open spec fn numpr_of(t: Seq<xml::NodeView>, i: int, st: styles::StylesView) -> NumPrView {
    let style = style_of(t, i);
    match own_num_id(t, i) {
        Some(num_id) => if num_id == "0"@ {
            NumPrView { num_id: None, ilvl: 0, style }
        } else {
            NumPrView {
                num_id: Some(num_id),
                ilvl: numbering::or_number(
                    xml::val_at(t, own_numpr(t, i)->0, seq!["ilvl"@]),
                    0,
                ),
                style,
            }
        },
        None => match style_num_id(st, style) {
            Some(num_id) => NumPrView { num_id: Some(num_id), ilvl: st.info[style->0].ilvl, style },
            None => NumPrView { num_id: None, ilvl: 0, style },
        },
    }
}

/// Finds out where the numbering of a paragraph comes from. Returns the id of its
/// list, its level there, and the id of its style.
pub fn para_numpr(tree: &XmlTree, p: usize, styles: &Styles) -> (r: (
    Option<String>,
    u32,
    Option<String>,
))
    requires
        xml::well_formed(tree@),
        p < tree@.len(),
    ensures
        numpr_of(tree@, p as int, styles@) == (NumPrView {
            num_id: xml::opt_view(r.0),
            ilvl: r.1,
            style: xml::opt_view(r.2),
        }),
{
    assert(xml::path_view(["pPr", "pStyle"]@) == seq!["pPr"@, "pStyle"@]);
    assert(xml::path_view(["pPr", "numPr"]@) == seq!["pPr"@, "numPr"@]);
    assert(xml::path_view(["numId"]@) == seq!["numId"@]);
    assert(xml::path_view(["ilvl"]@) == seq!["ilvl"@]);
    let style: Option<String> = match xml::path_val(tree, p, &["pPr", "pStyle"]) {
        Some(id) => Some(id.to_owned()),
        None => None,
    };
    match xml::find_path(tree, p, &["pPr", "numPr"]) {
        Some(j) => match xml::path_val(tree, j, &["numId"]) {
            Some(num_id) => {
                if text::same(num_id, "0") {
                    return (None, 0, style);
                }
                let ilvl: u32 = numbering::number_or(xml::path_val(tree, j, &["ilvl"]), 0);
                return (Some(num_id.to_owned()), ilvl, style);
            },
            None => {},
        },
        None => {},
    }
    let (num_id, ilvl): (Option<String>, u32) = match &style {
        Some(id) => match styles.info.get(id.as_str()) {
            Some(info) => match &info.num_id {
                Some(num_id) => if text::same(num_id.as_str(), "0") {
                    (None, 0)
                } else {
                    (Some(num_id.clone()), info.ilvl)
                },
                None => (None, 0),
            },
            None => (None, 0),
        },
        None => (None, 0),
    };
    (num_id, ilvl, style)
}

/// The numbering that a paragraph itself has comes before that of its style: the
/// styles make no difference to it.
pub proof fn own_numbering_comes_first(
    t: Seq<xml::NodeView>,
    i: int,
    some: styles::StylesView,
    other: styles::StylesView,
)
    requires
        own_num_id(t, i) is Some,
    ensures
        numpr_of(t, i, some) == numpr_of(t, i, other),
{
}

/// A `numId` of zero takes a paragraph out of any list, whatever its style says.
pub proof fn zero_takes_out_of_the_list(t: Seq<xml::NodeView>, i: int, st: styles::StylesView)
    requires
        own_num_id(t, i) == Some("0"@),
    ensures
        numpr_of(t, i, st).num_id is None,
{
}

/// A paragraph without a `numId` of its own is in the list that its style names,
/// at the level that its style names; in none where the style names none, or
/// names zero.
pub proof fn style_numbers_the_rest(t: Seq<xml::NodeView>, i: int, st: styles::StylesView)
    requires
        own_num_id(t, i) is None,
    ensures
        ({
            let numpr = numpr_of(t, i, st);
            match style_of(t, i) {
                Some(id) => if st.info.contains_key(id) && st.info[id].num_id is Some
                    && st.info[id].num_id != Some("0"@) {
                    numpr.num_id == st.info[id].num_id && numpr.ilvl == st.info[id].ilvl
                } else {
                    numpr.num_id is None
                },
                None => numpr.num_id is None,
            }
        }),
{
}

/// No paragraph is ever put into the list of id zero.
pub proof fn zero_is_no_list(t: Seq<xml::NodeView>, i: int, st: styles::StylesView)
    ensures
        numpr_of(t, i, st).num_id != Some("0"@),
{
}

/// The text of a paragraph neither starts nor ends with white space.
pub proof fn text_is_trimmed(t: Seq<xml::NodeView>, i: int)
    ensures
        text_of(t, i).len() > 0 ==> !text::white_space(text_of(t, i)[0]) && !text::white_space(
            text_of(t, i).last(),
        ),
{
    text::trimming_removes_exactly_outer_white_space(pieces(t, i, i + t[i].size));
}

proof fn same_pieces(
    t: Seq<xml::NodeView>,
    i: int,
    u: Seq<xml::NodeView>,
    j: int,
    n: nat,
)
    requires
        xml::well_formed(t),
        xml::well_formed(u),
        subtree::same_subtree(t, i, u, j),
        n <= t[i].size,
    ensures
        pieces(t, i, i + n) == pieces(u, j, j + n),
    decreases n,
{
    if n > 0 {
        same_pieces(t, i, u, j, (n - 1) as nat);
        subtree::same_nodes(t, i, u, j, n - 1);
    }
}

/// The text and the numbering of a paragraph depend on the paragraph and on the
/// styles alone, not on where it stands.
pub proof fn same_paragraphs_read_the_same(
    t: Seq<xml::NodeView>,
    i: int,
    u: Seq<xml::NodeView>,
    j: int,
    st: styles::StylesView,
)
    requires
        xml::well_formed(t),
        xml::well_formed(u),
        subtree::same_subtree(t, i, u, j),
    ensures
        text_of(t, i) == text_of(u, j),
        style_of(t, i) == style_of(u, j),
        numpr_of(t, i, st) == numpr_of(u, j, st),
{
    subtree::same_nodes(t, i, u, j, 0);
    same_pieces(t, i, u, j, t[i].size);
    subtree::same_path(t, i, u, j, seq!["pPr"@, "pStyle"@]);
    subtree::same_path(t, i, u, j, seq!["pPr"@, "numPr"@]);
    match (own_numpr(t, i), own_numpr(u, j)) {
        (Some(a), Some(b)) => {
            subtree::same_path(t, a, u, b, seq!["numId"@]);
            subtree::same_path(t, a, u, b, seq!["ilvl"@]);
        },
        _ => {},
    }
}

/// The text between two nodes stays as it is when nodes that add nothing to it are
/// taken out.
pub proof fn pieces_without(t: Seq<xml::NodeView>, cut: Set<int>, from: int, to: int)
    requires
        0 <= from <= to <= t.len(),
        forall|k: int|
            from <= k < to && #[trigger] subtree::gone(t, cut, k) ==> piece(t[k]).len() == 0,
    ensures
        pieces(
            subtree::pruned(t, cut),
            subtree::rank(t, cut, from),
            subtree::rank(t, cut, to),
        ) == pieces(t, from, to),
    decreases to - from,
{
    if from < to {
        let k = to - 1;
        pieces_without(t, cut, from, k);
        if subtree::gone(t, cut, k) {
            assert(pieces(t, from, k) + piece(t[k]) == pieces(t, from, k));
        } else {
            subtree::kept_node(t, cut, k);
            subtree::rank_grows(t, cut, from, k);
        }
    }
}

// ---------------------------------------------------------------------------
// What paragraphs say
// ---------------------------------------------------------------------------

/// A `t` adds its text whole, a `tab` and a `br` add one space, and every other node adds
/// nothing.
pub proof fn runs_are_added_whole(node: xml::NodeView)
    ensures
        node.tag == "t"@ && node.text is Some ==> Some(piece(node)) == node.text,
        node.tag == "t"@ && node.text is None ==> piece(node).len() == 0,
        node.tag == "tab"@ || node.tag == "br"@ ==> piece(node) == seq![' '],
        node.tag != "t"@ && node.tag != "tab"@ && node.tag != "br"@ ==> piece(node).len() == 0,
{
    reveal_strlit("t");
    reveal_strlit("tab");
    reveal_strlit("br");
    assert("t"@.len() == 1);
    assert("tab"@.len() == 3);
    assert("br"@.len() == 2);
}

/// The texts of nodes side by side are joined as they are, with nothing between.
pub proof fn runs_are_joined_in_order(t: Seq<xml::NodeView>, from: int, mid: int, to: int)
    requires
        from <= mid <= to,
    ensures
        pieces(t, from, to) == pieces(t, from, mid) + pieces(t, mid, to),
        pieces(t, from, from) == Seq::<char>::empty(),
        pieces(t, from, from + 1) == piece(t[from]),
    decreases to - mid,
{
    assert(pieces(t, from, from) == Seq::<char>::empty());
    assert(pieces(t, from, from + 1) == pieces(t, from, from) + piece(t[from]));
    if mid < to {
        runs_are_joined_in_order(t, from, mid, to - 1);
    }
    assert(pieces(t, from, to) == pieces(t, from, mid) + pieces(t, mid, to));
}

/// The text of a paragraph is all that the nodes of its subtree add, without the white
/// space at both ends and with everything else kept: where what they add is white space,
/// a text that neither starts nor ends with white space, and white space again, it is
/// that text.
pub proof fn only_outer_white_space_is_dropped(
    t: Seq<xml::NodeView>,
    i: int,
    before: Seq<char>,
    body: Seq<char>,
    after: Seq<char>,
)
    requires
        pieces(t, i, i + t[i].size) == before + body + after,
        forall|k: int| 0 <= k < before.len() ==> text::white_space(#[trigger] before[k]),
        forall|k: int| 0 <= k < after.len() ==> text::white_space(#[trigger] after[k]),
        body.len() > 0 ==> !text::white_space(body[0]) && !text::white_space(body.last()),
    ensures
        text_of(t, i) == body,
{
    trimmed_between(before, body, after);
}

proof fn trimmed_between(before: Seq<char>, body: Seq<char>, after: Seq<char>)
    requires
        forall|k: int| 0 <= k < before.len() ==> text::white_space(#[trigger] before[k]),
        forall|k: int| 0 <= k < after.len() ==> text::white_space(#[trigger] after[k]),
        body.len() > 0 ==> !text::white_space(body[0]) && !text::white_space(body.last()),
    ensures
        text::trimmed(before + body + after) == body,
    decreases before.len() + after.len(),
{
    let s = before + body + after;
    if body.len() == 0 && before.len() == 0 {
        assert(s == after);
        if after.len() > 0 {
            let rest = after.drop_first();
            assert forall|k: int| 0 <= k < rest.len() implies text::white_space(
                #[trigger] rest[k],
            ) by {
                assert(rest[k] == after[k + 1]);
            }
            trimmed_between(before, body, rest);
            assert(before + body + rest == s.drop_first());
            assert(text::white_space(after[0]));
        } else {
            assert(s == body);
        }
    } else if before.len() > 0 {
        let rest = before.drop_first();
        assert forall|k: int| 0 <= k < rest.len() implies text::white_space(#[trigger] rest[k]) by {
            assert(rest[k] == before[k + 1]);
        }
        trimmed_between(rest, body, after);
        assert(rest + body + after == s.drop_first());
        assert(text::white_space(before[0]));
        assert(s[0] == before[0]);
    } else {
        assert(s[0] == body[0]);
        assert(text::trimmed_start(s) == s);
        if after.len() > 0 {
            let rest = after.drop_last();
            assert forall|k: int| 0 <= k < rest.len() implies text::white_space(
                #[trigger] rest[k],
            ) by {
                assert(rest[k] == after[k]);
            }
            trimmed_between(before, body, rest);
            let shorter = before + body + rest;
            assert(shorter == s.drop_last());
            assert(shorter[0] == body[0]);
            assert(text::trimmed_start(shorter) == shorter);
            assert(text::white_space(after[after.len() - 1]));
            assert(s.last() == after.last());
        } else {
            assert(s == body);
        }
    }
}

/// The style of a paragraph is the value of `pStyle` in its `pPr`, whatever its numbering.
pub proof fn style_is_that_of_pstyle(t: Seq<xml::NodeView>, i: int, st: styles::StylesView)
    ensures
        numpr_of(t, i, st).style == xml::val_at(t, i, seq!["pPr"@, "pStyle"@]),
        style_of(t, i) == xml::val_at(t, i, seq!["pPr"@, "pStyle"@]),
{
}

/// A paragraph with `numPr` and a `numId` of its own, other than zero, is in the list of
/// that id, at the level of `ilvl`, or at the outermost one.
pub proof fn own_numbering_is_that_of_numpr(
    t: Seq<xml::NodeView>,
    i: int,
    st: styles::StylesView,
    numpr: int,
    num_id: Seq<char>,
)
    requires
        xml::at_path(t, i, seq!["pPr"@, "numPr"@]) == Some(numpr),
        xml::val_at(t, numpr, seq!["numId"@]) == Some(num_id),
        num_id != "0"@,
    ensures
        ({
            let ilvl = xml::val_at(t, numpr, seq!["ilvl"@]);
            &&& numpr_of(t, i, st).num_id == Some(num_id)
            &&& ilvl is Some && text::parsed_u32(ilvl->0) is Some ==> Some(
                numpr_of(t, i, st).ilvl,
            ) == text::parsed_u32(ilvl->0)
            &&& ilvl is None || text::parsed_u32(ilvl->0) is None ==> numpr_of(t, i, st).ilvl == 0
        }),
{
}

/// A paragraph has a `numId` of its own exactly where it has `numPr` with one.
pub proof fn own_num_id_is_that_of_numpr(t: Seq<xml::NodeView>, i: int)
    ensures
        match xml::at_path(t, i, seq!["pPr"@, "numPr"@]) {
            Some(numpr) => own_num_id(t, i) == xml::val_at(t, numpr, seq!["numId"@]),
            None => own_num_id(t, i) is None,
        },
{
}

/// A paragraph that is in no list has level zero.
pub proof fn unnumbered_paragraph_has_no_level(
    t: Seq<xml::NodeView>,
    i: int,
    st: styles::StylesView,
)
    ensures
        numpr_of(t, i, st).num_id is None ==> numpr_of(t, i, st).ilvl == 0,
{
}

} // verus!
