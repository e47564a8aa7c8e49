//! XML documents as plain values: the nodes of a document in document order, each
//! with the size of its subtree, and the few ways in which the converter looks
//! things up in them.

use crate::text::same;
use vstd::prelude::*;

verus! {

/// The errors of the XML parser.
#[verifier::external_type_specification]
#[verifier::external_body]
pub struct ExXmlError(roxmltree::Error);

/// One node of a document: the root, an element, a text, a comment or a
/// processing instruction.
#[derive(Debug)]
pub struct XmlNode {
    pub is_element: bool,
    /// The local name of an element; empty for any other node.
    pub tag: String,
    /// The content of a text or a comment; for an element, its text where that
    /// is what it starts with.
    pub text: Option<String>,
    /// Local names and values, in the order in which they are written.
    pub attributes: Vec<(String, String)>,
    /// The number of nodes in the subtree, this one counted.
    pub size: usize,
}

/// A document: its nodes in document order, the root first.
#[derive(Debug)]
pub struct XmlTree {
    pub nodes: Vec<XmlNode>,
}

#[verifier::ext_equal]
pub struct NodeView {
    pub is_element: bool,
    pub tag: Seq<char>,
    pub text: Option<Seq<char>>,
    pub attributes: Seq<(Seq<char>, Seq<char>)>,
    pub size: nat,
}

/// The characters of an optional string.
pub open spec fn opt_view(s: Option<String>) -> Option<Seq<char>> {
    match s {
        Some(s) => Some(s@),
        None => None,
    }
}

impl View for XmlNode {
    type V = NodeView;

    open spec fn view(&self) -> NodeView {
        NodeView {
            is_element: self.is_element,
            tag: self.tag@,
            text: opt_view(self.text),
            attributes: self.attributes@.map_values(|a: (String, String)| (a.0@, a.1@)),
            size: self.size as nat,
        }
    }
}

impl View for XmlTree {
    type V = Seq<NodeView>;

    open spec fn view(&self) -> Seq<NodeView> {
        self.nodes@.map_values(|n: XmlNode| n@)
    }
}

/// The subtree sizes describe a tree: there is a root, whose subtree is the
/// whole document, and of two subtrees either one holds the other or they have
/// no node in common.
pub open spec fn well_formed(t: Seq<NodeView>) -> bool {
    &&& t.len() > 0
    &&& t[0].size == t.len()
    &&& forall|i: int| 0 <= i < t.len() ==> 1 <= (#[trigger] t[i]).size <= t.len() - i
    &&& forall|i: int, j: int|
        #![trigger t[i], t[j]]
        0 <= i < j < t.len() && j < i + t[i].size ==> j + t[j].size <= i + t[i].size
}

/// What the XML parser makes of a text: the nodes of the document, or an error.
pub uninterp spec fn parsed_xml(xml: Seq<char>) -> Result<Seq<NodeView>, roxmltree::Error>;

/// `roxmltree::Document::parse`, with the document taken apart into plain values
/// by `descendants` and the accessors of its nodes. The result is a function of
/// the text, and the subtree sizes of a parsed document describe a tree. The parser
/// calls itself for each level of nesting, so that the stack bounds how deep a
/// document may be nested.
#[verifier::external_body]
pub(crate) fn parse_xml(xml: &str) -> (r: Result<XmlTree, roxmltree::Error>)
    ensures
        match r {
            Ok(tree) => parsed_xml(xml@) == Ok::<_, roxmltree::Error>(tree@) && well_formed(tree@),
            Err(e) => parsed_xml(xml@) == Err::<Seq<NodeView>, _>(e),
        },
{
    let doc = roxmltree::Document::parse(xml)?;
    let nodes = doc.descendants().map(|n| XmlNode {
        is_element: n.is_element(),
        tag: n.tag_name().name().to_string(),
        text: n.text().map(|t| t.to_string()),
        attributes: n.attributes().map(|a| (a.name().to_string(), a.value().to_string())).collect(),
        size: n.descendants().len(),
    }).collect();
    Ok(XmlTree { nodes })
}

// ---------------------------------------------------------------------------
// Attributes
// ---------------------------------------------------------------------------

/// A name without its prefix: what follows the last colon.
pub open spec fn local_part(name: Seq<char>) -> Seq<char>
    decreases name.len(),
{
    if name.len() == 0 || name.last() == ':' {
        Seq::empty()
    } else {
        local_part(name.drop_last()).push(name.last())
    }
}

/// Whether a name is `local`, with or without a prefix.
pub open spec fn names(name: Seq<char>, local: Seq<char>) -> bool {
    local_part(name) == local || name == local
}

/// The value of the first attribute of that name.
pub open spec fn first_named(
    attributes: Seq<(Seq<char>, Seq<char>)>,
    local: Seq<char>,
) -> Option<Seq<char>>
    decreases attributes.len(),
{
    if attributes.len() == 0 {
        None
    } else if names(attributes[0].0, local) {
        Some(attributes[0].1)
    } else {
        first_named(attributes.drop_first(), local)
    }
}

/// The value of an attribute of node `i`.
pub open spec fn attr_of(t: Seq<NodeView>, i: int, local: Seq<char>) -> Option<Seq<char>> {
    first_named(t[i].attributes, local)
}

/// Whether an attribute's name is `local`, with or without a prefix.
fn is_named(name: &str, local: &str) -> (r: bool)
    ensures
        r == names(name@, local@),
{
    let mut last = String::new();
    for c in it: name.chars()
        invariant
            it.seq() == name@,
            last@ == local_part(it.seq().take(it.index() as int)),
    {
        proof {
            let k = it.index() as int;
            assert(it.seq().take(k + 1).drop_last() == it.seq().take(k));
        }
        if c == ':' {
            last = String::new();
        } else {
            last.push(c);
        }
    }
    assert(name@.take(name@.len() as int) == name@);
    same(last.as_str(), local) || same(name, local)
}

/// The value of the first attribute of node `i` whose name is `local`, whatever
/// its prefix.
pub fn attr<'a>(tree: &'a XmlTree, i: usize, local: &str) -> (r: Option<&'a str>)
    requires
        i < tree@.len(),
    ensures
        match r {
            Some(v) => attr_of(tree@, i as int, local@) == Some(v@),
            None => attr_of(tree@, i as int, local@) is None,
        },
{
    let attributes = &tree.nodes[i].attributes;
    let ghost all = tree@[i as int].attributes;
    let mut k: usize = 0;
    assert(all.skip(0) == all);
    while k < attributes.len()
        invariant
            all == tree@[i as int].attributes,
            k <= attributes@.len() == all.len(),
            forall|j: int| 0 <= j < all.len() ==> #[trigger] all[j] == (attributes@[j].0@, attributes@[j].1@),
            first_named(all, local@) == first_named(all.skip(k as int), local@),
        decreases attributes@.len() - k,
    {
        let a = &attributes[k];
        assert(all.skip(k as int)[0] == all[k as int]);
        if is_named(a.0.as_str(), local) {
            return Some(a.1.as_str());
        }
        assert(all.skip(k as int).drop_first() == all.skip(k + 1));
        k += 1;
    }
    None
}

/// The local name of node `i`; empty where it is no element.
pub fn tag<'a>(tree: &'a XmlTree, i: usize) -> (r: &'a str)
    requires
        i < tree@.len(),
    ensures
        r@ == tree@[i as int].tag,
{
    tree.nodes[i].tag.as_str()
}

// ---------------------------------------------------------------------------
// Children
// ---------------------------------------------------------------------------

/// The nodes that stand side by side from `j` on, up to `end`: after each comes
/// the node that follows its subtree.
pub open spec fn siblings(t: Seq<NodeView>, j: int, end: int) -> Seq<int>
    decreases
        (if j < end {
            end - j
        } else {
            0
        }),
{
    if 0 <= j < end && j < t.len() && t[j].size > 0 {
        seq![j] + siblings(t, j + t[j].size, end)
    } else {
        Seq::empty()
    }
}

/// The children of node `i`, in document order.
pub open spec fn children_of(t: Seq<NodeView>, i: int) -> Seq<int> {
    siblings(t, i + 1, i + t[i].size)
}

pub open spec fn indices(s: Seq<usize>) -> Seq<int> {
    s.map_values(|k: usize| k as int)
}

/// The children of node `i`, in document order.
pub fn children(tree: &XmlTree, i: usize) -> (r: Vec<usize>)
    requires
        well_formed(tree@),
        i < tree@.len(),
    ensures
        indices(r@) == children_of(tree@, i as int),
        forall|k: int| 0 <= k < r@.len() ==> i < #[trigger] r@[k] < tree@.len(),
{
    let n: usize = tree.nodes.len();
    let ghost t = tree@;
    assert(t[i as int].size == tree.nodes@[i as int].size);
    let end: usize = i + tree.nodes[i].size;
    let mut out: Vec<usize> = Vec::new();
    let mut j: usize = i + 1;
    assert(indices(out@) + siblings(t, j as int, end as int) == children_of(t, i as int));
    while j < end
        invariant
            t == tree@,
            well_formed(t),
            n == t.len() == tree.nodes@.len(),
            i < j <= end <= n,
            end == i + t[i as int].size,
            indices(out@) + siblings(t, j as int, end as int) == children_of(t, i as int),
            forall|k: int| 0 <= k < out@.len() ==> i < #[trigger] out@[k] < n,
        decreases end - j,
    {
        let ghost before = out@;
        assert(t[j as int].size == tree.nodes@[j as int].size);
        assert(t[i as int].size >= 1);
        out.push(j);
        assert(indices(out@) == indices(before) + seq![j as int]);
        j += tree.nodes[j].size;
        assert(indices(out@) + siblings(t, j as int, end as int) == children_of(t, i as int));
    }
    assert(siblings(t, j as int, end as int) == Seq::<int>::empty());
    assert(indices(out@) == children_of(t, i as int));
    out
}

/// The first of some nodes that is an element of that name.
pub open spec fn first_element(t: Seq<NodeView>, nodes: Seq<int>, name: Seq<char>) -> Option<int>
    decreases nodes.len(),
{
    if nodes.len() == 0 {
        None
    } else if t[nodes[0]].is_element && t[nodes[0]].tag == name {
        Some(nodes[0])
    } else {
        first_element(t, nodes.drop_first(), name)
    }
}

/// The node that a path of element names leads to from node `i`: at each step
/// the first child of that name.
pub open spec fn at_path(t: Seq<NodeView>, i: int, path: Seq<Seq<char>>) -> Option<int>
    decreases path.len(),
{
    if path.len() == 0 {
        Some(i)
    } else {
        match first_element(t, children_of(t, i), path[0]) {
            Some(j) => at_path(t, j, path.drop_first()),
            None => None,
        }
    }
}

/// The first child of node `i` that is an element of that name.
fn find_child(tree: &XmlTree, i: usize, name: &str) -> (r: Option<usize>)
    requires
        well_formed(tree@),
        i < tree@.len(),
    ensures
        match r {
            Some(j) => j < tree@.len() && first_element(tree@, children_of(tree@, i as int), name@)
                == Some(j as int),
            None => first_element(tree@, children_of(tree@, i as int), name@) is None,
        },
{
    let nodes = children(tree, i);
    let ghost all = indices(nodes@);
    let mut k: usize = 0;
    assert(all.skip(0) == all);
    while k < nodes.len()
        invariant
            all == indices(nodes@),
            all == children_of(tree@, i as int),
            k <= nodes@.len(),
            forall|k: int| 0 <= k < nodes@.len() ==> (#[trigger] nodes@[k]) < tree@.len(),
            first_element(tree@, all, name@) == first_element(tree@, all.skip(k as int), name@),
        decreases nodes@.len() - k,
    {
        let j: usize = nodes[k];
        assert(all.skip(k as int)[0] == j);
        if tree.nodes[j].is_element && same(tag(tree, j), name) {
            return Some(j);
        }
        assert(all.skip(k as int).drop_first() == all.skip(k + 1));
        k += 1;
    }
    None
}

pub open spec fn path_view(path: Seq<&str>) -> Seq<Seq<char>> {
    path.map_values(|s: &str| s@)
}

/// Follows a path of element names from node `i`, such as `pPr`, `numPr`, `numId`.
pub fn find_path(tree: &XmlTree, i: usize, path: &[&str]) -> (r: Option<usize>)
    requires
        well_formed(tree@),
        i < tree@.len(),
    ensures
        match r {
            Some(j) => j < tree@.len() && at_path(tree@, i as int, path_view(path@)) == Some(j as int),
            None => at_path(tree@, i as int, path_view(path@)) is None,
        },
{
    let ghost all = path_view(path@);
    let mut cur: usize = i;
    let mut k: usize = 0;
    assert(all.skip(0) == all);
    while k < path.len()
        invariant
            all == path_view(path@),
            well_formed(tree@),
            k <= path@.len(),
            cur < tree@.len(),
            at_path(tree@, i as int, all) == at_path(tree@, cur as int, all.skip(k as int)),
        decreases path@.len() - k,
    {
        assert(all.skip(k as int)[0] == path@[k as int]@);
        assert(all.skip(k as int).drop_first() == all.skip(k + 1));
        match find_child(tree, cur, path[k]) {
            Some(j) => {
                cur = j;
            },
            None => {
                return None;
            },
        }
        k += 1;
    }
    Some(cur)
}

/// The `val` attribute of the node that a path leads to.
pub open spec fn val_at(t: Seq<NodeView>, i: int, path: Seq<Seq<char>>) -> Option<Seq<char>> {
    match at_path(t, i, path) {
        Some(j) => attr_of(t, j, "val"@),
        None => None,
    }
}

/// The `val` attribute of the node that a path leads to.
pub fn path_val<'a>(tree: &'a XmlTree, i: usize, path: &[&str]) -> (r: Option<&'a str>)
    requires
        well_formed(tree@),
        i < tree@.len(),
    ensures
        match r {
            Some(v) => val_at(tree@, i as int, path_view(path@)) == Some(v@),
            None => val_at(tree@, i as int, path_view(path@)) is None,
        },
{
    match find_path(tree, i, path) {
        Some(j) => attr(tree, j, "val"),
        None => None,
    }
}

// ---------------------------------------------------------------------------
// What looking things up means
// ---------------------------------------------------------------------------

/// The view of a document shows each node as it is.
pub proof fn nodes_are_shown_as_they_are(tree: XmlTree, i: int)
    requires
        0 <= i < tree.nodes@.len(),
    ensures
        tree@.len() == tree.nodes@.len(),
        ({
            let node = tree.nodes@[i];
            let shown = tree@[i];
            &&& shown.is_element == node.is_element
            &&& shown.tag == node.tag@
            &&& shown.size == node.size
            &&& match node.text {
                Some(text) => shown.text == Some(text@),
                None => shown.text is None,
            }
            &&& shown.attributes.len() == node.attributes@.len()
            &&& forall|k: int|
                0 <= k < node.attributes@.len() ==> (#[trigger] shown.attributes[k]).0
                    == node.attributes@[k].0@ && shown.attributes[k].1 == node.attributes@[k].1@
        }),
{
}

/// What follows the last colon of a name has no colon, and the name ends with it: it is
/// the name itself, or a prefix and a colon stand before it.
proof fn local_part_follows_the_last_colon(name: Seq<char>)
    ensures
        !local_part(name).contains(':'),
        local_part(name) == name || exists|prefix: Seq<char>|
            name == #[trigger] (prefix + seq![':'] + local_part(name)),
    decreases name.len(),
{
    if name.len() > 0 {
        let some = name.drop_last();
        let c = name.last();
        assert(name == some.push(c));
        if c == ':' {
            assert(name == some + seq![':'] + local_part(name));
        } else {
            local_part_follows_the_last_colon(some);
            let rest = local_part(some);
            assert forall|i: int| 0 <= i < rest.push(c).len() implies rest.push(c)[i] != ':' by {
                if i < rest.len() {
                    assert(rest.contains(rest[i]));
                }
            }
            if rest == some {
                assert(local_part(name) == name);
            } else {
                let prefix = choose|prefix: Seq<char>|
                    some == #[trigger] (prefix + seq![':'] + rest);
                assert(name == prefix + seq![':'] + local_part(name));
            }
        }
    }
}

proof fn local_part_of_prefixed(prefix: Seq<char>, local: Seq<char>)
    requires
        !local.contains(':'),
    ensures
        local_part(prefix + seq![':'] + local) == local,
        local_part(local) == local,
    decreases local.len(),
{
    let name = prefix + seq![':'] + local;
    if local.len() == 0 {
        assert(name.last() == ':');
    } else {
        let some = local.drop_last();
        let c = local.last();
        assert(local.contains(local[local.len() - 1]));
        assert forall|i: int| 0 <= i < some.len() implies some[i] != ':' by {
            assert(local.contains(local[i]));
        }
        local_part_of_prefixed(prefix, some);
        assert(name.drop_last() == prefix + seq![':'] + some);
        assert(some.push(c) == local);
    }
}

/// An attribute goes by a name without a colon exactly where it has that name, or that
/// name behind a prefix and a colon.
pub proof fn names_go_without_prefix(name: Seq<char>, local: Seq<char>)
    requires
        !local.contains(':'),
    ensures
        names(name, local) <==> name == local || exists|prefix: Seq<char>|
            name == #[trigger] (prefix + seq![':'] + local),
{
    local_part_follows_the_last_colon(name);
    if exists|prefix: Seq<char>| name == #[trigger] (prefix + seq![':'] + local) {
        let prefix = choose|prefix: Seq<char>| name == #[trigger] (prefix + seq![':'] + local);
        local_part_of_prefixed(prefix, local);
    }
}

/// An attribute goes by a name with a colon exactly where that is the whole of its name.
pub proof fn names_with_a_colon_are_whole(name: Seq<char>, local: Seq<char>)
    requires
        local.contains(':'),
    ensures
        names(name, local) <==> name == local,
{
    local_part_follows_the_last_colon(name);
}

/// The value of an attribute is that of the first attribute that goes by the name; there
/// is none exactly where no attribute does.
pub proof fn first_attribute_of_a_name_counts(t: Seq<NodeView>, i: int, local: Seq<char>)
    ensures
        forall|k: int|
            0 <= k < t[i].attributes.len() && names((#[trigger] t[i].attributes[k]).0, local) && (
            forall|j: int| 0 <= j < k ==> !names((#[trigger] t[i].attributes[j]).0, local))
                ==> attr_of(t, i, local) == Some(t[i].attributes[k].1),
        attr_of(t, i, local) is None <==> forall|k: int|
            0 <= k < t[i].attributes.len() ==> !names((#[trigger] t[i].attributes[k]).0, local),
{
    first_named_is_first(t[i].attributes, local);
}

proof fn first_named_is_first(attributes: Seq<(Seq<char>, Seq<char>)>, local: Seq<char>)
    ensures
        forall|k: int|
            0 <= k < attributes.len() && names((#[trigger] attributes[k]).0, local) && (forall|
                j: int,
            |
                0 <= j < k ==> !names((#[trigger] attributes[j]).0, local)) ==> first_named(
                attributes,
                local,
            ) == Some(attributes[k].1),
        first_named(attributes, local) is None <==> forall|k: int|
            0 <= k < attributes.len() ==> !names((#[trigger] attributes[k]).0, local),
    decreases attributes.len(),
{
    if attributes.len() > 0 {
        let rest = attributes.drop_first();
        first_named_is_first(rest, local);
        assert forall|k: int| 0 <= k < rest.len() implies #[trigger] rest[k] == attributes[k
            + 1] by {}
        if !names(attributes[0].0, local) {
            assert forall|k: int|
                0 <= k < attributes.len() && names((#[trigger] attributes[k]).0, local) && (
                forall|j: int| 0 <= j < k ==> !names((#[trigger] attributes[j]).0, local)) implies
                first_named(attributes, local) == Some(attributes[k].1) by {
                assert(rest[k - 1] == attributes[k]);
                assert forall|j: int| 0 <= j < k - 1 implies !names(
                    (#[trigger] rest[j]).0,
                    local,
                ) by {
                    assert(rest[j] == attributes[j + 1]);
                }
            }
            if first_named(attributes, local) is None {
                assert forall|k: int| 0 <= k < attributes.len() implies !names(
                    (#[trigger] attributes[k]).0,
                    local,
                ) by {
                    if k > 0 {
                        assert(rest[k - 1] == attributes[k]);
                    }
                }
            } else {
                let k = choose|k: int|
                    0 <= k < rest.len() && names((#[trigger] rest[k]).0, local);
                assert(names(attributes[k + 1].0, local));
            }
        } else {
            assert(names(attributes[0].0, local));
        }
    }
}

/// Whether node `c` is a child of node `i`: it is in the subtree of `i`, and in that of
/// no other node below `i`.
spec fn is_child(t: Seq<NodeView>, i: int, c: int) -> bool {
    &&& i < c < i + t[i].size
    &&& forall|w: int| i < w < c ==> w + (#[trigger] t[w]).size <= c
}

proof fn siblings_are_all_there(t: Seq<NodeView>, i: int, a: int)
    requires
        well_formed(t),
        0 <= i < t.len(),
        i < a <= i + t[i].size,
        forall|w: int| i < w < a ==> w + (#[trigger] t[w]).size <= a,
    ensures
        forall|c: int|
            #![trigger is_child(t, i, c)]
            #![trigger siblings(t, a, i + t[i].size).contains(c)]
            siblings(t, a, i + t[i].size).contains(c) <==> a <= c && is_child(t, i, c),
        forall|m: int, n: int|
            0 <= m < n < siblings(t, a, i + t[i].size).len() ==> #[trigger] siblings(
                t,
                a,
                i + t[i].size,
            )[m] < #[trigger] siblings(t, a, i + t[i].size)[n],
    decreases i + t[i].size - a,
{
    let end = i + t[i].size;
    let nodes = siblings(t, a, end);
    if a < end {
        let next = a + t[a].size;
        let rest = siblings(t, next, end);
        assert(t[a].size >= 1);
        assert(next <= end);
        assert(nodes == seq![a] + rest);
        assert forall|w: int| i < w < next implies w + (#[trigger] t[w]).size <= next by {
            if w > a {
                assert(t[w].size <= t.len() - w && t[a].size <= t.len() - a);
            }
        }
        siblings_are_all_there(t, i, next);
        assert forall|c: int| #[trigger] is_child(t, i, c) && a <= c implies nodes.contains(c) by {
            if c == a {
                assert(nodes[0] == a);
            } else {
                assert(a + t[a].size <= c);
                assert(rest.contains(c));
                let m = choose|m: int| 0 <= m < rest.len() && rest[m] == c;
                assert(nodes[m + 1] == c);
            }
        }
        assert forall|c: int| #[trigger] nodes.contains(c) implies a <= c && is_child(t, i, c) by {
            let m = choose|m: int| 0 <= m < nodes.len() && nodes[m] == c;
            if m > 0 {
                assert(rest[m - 1] == c);
                assert(rest.contains(c));
            } else {
                assert(nodes[0] == a);
                assert(is_child(t, i, a));
            }
        }
        assert forall|m: int, n: int| 0 <= m < n < nodes.len() implies #[trigger] nodes[m]
            < #[trigger] nodes[n] by {
            assert(nodes[n] == rest[n - 1]);
            assert(rest.contains(rest[n - 1]));
            assert(is_child(t, i, rest[n - 1]));
            if m > 0 {
                assert(nodes[m] == rest[m - 1]);
            }
        }
    } else {
        assert(nodes == Seq::<int>::empty());
        assert forall|c: int| nodes.contains(c) <==> a <= c && #[trigger] is_child(t, i, c) by {
            assert(!nodes.contains(c));
        }
    }
}

/// The children of a node are all the nodes of its subtree that stand in no smaller
/// subtree of it, in document order.
pub proof fn children_are_the_nodes_right_below(t: Seq<NodeView>, i: int, c: int)
    requires
        well_formed(t),
        0 <= i < t.len(),
    ensures
        children_of(t, i).contains(c) <==> i < c < i + t[i].size && forall|w: int|
            i < w < c ==> w + (#[trigger] t[w]).size <= c,
        forall|m: int, n: int|
            0 <= m < n < children_of(t, i).len() ==> #[trigger] children_of(t, i)[m]
                < #[trigger] children_of(t, i)[n],
{
    assert(t[i].size >= 1);
    siblings_are_all_there(t, i, i + 1);
    assert(children_of(t, i).contains(c) <==> is_child(t, i, c));
}

/// Of some nodes, the first element of a name is the one that has no other before it;
/// there is none exactly where no node is such an element.
pub proof fn first_element_has_none_before(t: Seq<NodeView>, nodes: Seq<int>, name: Seq<char>)
    ensures
        forall|k: int|
            0 <= k < nodes.len() && t[#[trigger] nodes[k]].is_element && t[nodes[k]].tag == name
                && (forall|j: int|
                0 <= j < k ==> !(t[#[trigger] nodes[j]].is_element && t[nodes[j]].tag == name))
                ==> first_element(t, nodes, name) == Some(nodes[k]),
        first_element(t, nodes, name) is None <==> forall|k: int|
            0 <= k < nodes.len() ==> !(t[#[trigger] nodes[k]].is_element && t[nodes[k]].tag
                == name),
    decreases nodes.len(),
{
    if nodes.len() > 0 {
        let rest = nodes.drop_first();
        first_element_has_none_before(t, rest, name);
        assert forall|k: int| 0 <= k < rest.len() implies #[trigger] rest[k] == nodes[k + 1] by {}
        let here = t[nodes[0]].is_element && t[nodes[0]].tag == name;
        if !here {
            assert forall|k: int|
                0 <= k < nodes.len() && t[#[trigger] nodes[k]].is_element && t[nodes[k]].tag
                    == name && (forall|j: int|
                    0 <= j < k ==> !(t[#[trigger] nodes[j]].is_element && t[nodes[j]].tag == name))
                implies first_element(t, nodes, name) == Some(nodes[k]) by {
                assert(rest[k - 1] == nodes[k]);
                assert forall|j: int| 0 <= j < k - 1 implies !(t[#[trigger] rest[j]].is_element
                    && t[rest[j]].tag == name) by {
                    assert(rest[j] == nodes[j + 1]);
                }
            }
            if first_element(t, nodes, name) is None {
                assert forall|k: int| 0 <= k < nodes.len() implies !(
                t[#[trigger] nodes[k]].is_element && t[nodes[k]].tag == name) by {
                    if k > 0 {
                        assert(rest[k - 1] == nodes[k]);
                    }
                }
            } else {
                let k = choose|k: int|
                    0 <= k < rest.len() && t[#[trigger] rest[k]].is_element && t[rest[k]].tag
                        == name;
                assert(t[nodes[k + 1]].is_element && t[nodes[k + 1]].tag == name);
            }
        } else {
            assert(t[nodes[0]].is_element && t[nodes[0]].tag == name);
        }
    }
}

/// A path is followed step by step: no step stays where it is, and one more step goes to
/// the first child element of its name from where the path has led.
pub proof fn paths_go_step_by_step(t: Seq<NodeView>, i: int, path: Seq<Seq<char>>, name: Seq<char>)
    ensures
        at_path(t, i, Seq::empty()) == Some(i),
        at_path(t, i, path.push(name)) == (match at_path(t, i, path) {
            Some(j) => first_element(t, children_of(t, j), name),
            None => None,
        }),
    decreases path.len(),
{
    let longer = path.push(name);
    if path.len() > 0 {
        assert(longer.drop_first() == path.drop_first().push(name));
        match first_element(t, children_of(t, i), path[0]) {
            Some(j) => paths_go_step_by_step(t, j, path.drop_first(), name),
            None => {},
        }
    } else {
        assert(longer.drop_first() == path);
        match first_element(t, children_of(t, i), name) {
            Some(j) => {
                assert(at_path(t, j, path) == Some(j));
            },
            None => {},
        }
    }
}

/// The value at the end of a path is the attribute `val` there.
pub proof fn values_are_val_attributes(t: Seq<NodeView>, i: int, path: Seq<Seq<char>>)
    ensures
        at_path(t, i, path) matches Some(j) ==> val_at(t, i, path) == attr_of(t, j, "val"@),
        at_path(t, i, path) is None ==> val_at(t, i, path) is None,
{
}

} // verus!
