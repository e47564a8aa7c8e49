//! The list definitions of `numbering.xml`: which abstract definition a list
//! refers to, and how each level of that definition is counted and written.

use crate::subtree;
use crate::text;
use crate::xml;
use crate::xml::XmlTree;
use std::collections::HashMap;
use vstd::hash_map::StringHashMap;
use vstd::prelude::*;

verus! {

broadcast use vstd::std_specs::hash::group_hash_axioms;

/// One level of a list.
#[derive(Debug)]
pub struct LvlDef {
    /// `numFmt`: `bullet`, `decimal`, `lowerLetter`, ...
    pub fmt: String,
    /// `lvlText`: the label, such as `%1.`, `(%1)` or `%1.%2.%3`.
    pub text: String,
    /// The first value of the counter.
    pub start: u32,
}

#[verifier::ext_equal]
pub struct LvlView {
    pub fmt: Seq<char>,
    pub text: Seq<char>,
    pub start: u32,
}

impl View for LvlDef {
    type V = LvlView;

    open spec fn view(&self) -> LvlView {
        LvlView { fmt: self.fmt@, text: self.text@, start: self.start }
    }
}

/// A level that nothing defines: a bullet.
pub open spec fn default_lvl() -> LvlView {
    LvlView { fmt: "bullet"@, text: Seq::empty(), start: 1 }
}

impl Default for LvlDef {
    fn default() -> (r: Self)
        ensures
            r@ == default_lvl(),
    {
        LvlDef { fmt: "bullet".to_owned(), text: String::new(), start: 1 }
    }
}

/// The list definitions of a document.
pub struct Numbering {
    /// From the id of a list to the id of its abstract definition.
    pub num_to_abs: StringHashMap<String>,
    /// From the id of an abstract definition to its levels.
    pub abstracts: StringHashMap<HashMap<u32, LvlDef>>,
}

/// The levels of an abstract definition.
pub open spec fn lvls_view(lvls: HashMap<u32, LvlDef>) -> Map<u32, LvlView> {
    lvls@.map_values(|l: LvlDef| l@)
}

#[verifier::ext_equal]
pub struct NumberingView {
    pub num_to_abs: Map<Seq<char>, Seq<char>>,
    pub abstracts: Map<Seq<char>, Map<u32, LvlView>>,
}

impl View for Numbering {
    type V = NumberingView;

    open spec fn view(&self) -> NumberingView {
        NumberingView {
            num_to_abs: self.num_to_abs@.map_values(|s: String| s@),
            abstracts: self.abstracts@.map_values(|l: HashMap<u32, LvlDef>| lvls_view(l)),
        }
    }
}

pub open spec fn empty_numbering() -> NumberingView {
    NumberingView { num_to_abs: Map::empty(), abstracts: Map::empty() }
}

impl Default for Numbering {
    fn default() -> (r: Self)
        ensures
            r@ == empty_numbering(),
    {
        let r = Numbering { num_to_abs: StringHashMap::new(), abstracts: StringHashMap::new() };
        assert(r@ == empty_numbering());
        r
    }
}

pub open spec fn or_text(v: Option<Seq<char>>, otherwise: Seq<char>) -> Seq<char> {
    match v {
        Some(v) => v,
        None => otherwise,
    }
}

/// The number that an attribute holds; `otherwise` where there is no attribute
/// or it holds no number.
pub open spec fn or_number(v: Option<Seq<char>>, otherwise: u32) -> u32 {
    match v {
        Some(v) => match text::parsed_u32(v) {
            Some(n) => n,
            None => otherwise,
        },
        None => otherwise,
    }
}

/// What a `lvl` element defines.
pub open spec fn lvl_of(t: Seq<xml::NodeView>, i: int) -> LvlView {
    LvlView {
        fmt: or_text(xml::val_at(t, i, seq!["numFmt"@]), "decimal"@),
        text: or_text(xml::val_at(t, i, seq!["lvlText"@]), "%1."@),
        start: or_number(xml::val_at(t, i, seq!["start"@]), 1),
    }
}

fn text_or(v: Option<&str>, otherwise: &str) -> (r: String)
    ensures
        r@ == (match v {
            Some(v) => v@,
            None => otherwise@,
        }),
{
    match v {
        Some(v) => v.to_owned(),
        None => otherwise.to_owned(),
    }
}

/// The number that an attribute holds, or `otherwise`.
pub fn number_or(v: Option<&str>, otherwise: u32) -> (r: u32)
    ensures
        r == or_number(
            (match v {
                Some(v) => Some(v@),
                None => None,
            }),
            otherwise,
        ),
{
    match v {
        Some(v) => match text::parse_u32(v) {
            Some(n) => n,
            None => otherwise,
        },
        None => otherwise,
    }
}

fn read_lvl(tree: &XmlTree, i: usize) -> (r: LvlDef)
    requires
        xml::well_formed(tree@),
        i < tree@.len(),
    ensures
        r@ == lvl_of(tree@, i as int),
{
    assert(xml::path_view(["numFmt"]@) == seq!["numFmt"@]);
    assert(xml::path_view(["lvlText"]@) == seq!["lvlText"@]);
    assert(xml::path_view(["start"]@) == seq!["start"@]);
    LvlDef {
        fmt: text_or(xml::path_val(tree, i, &["numFmt"]), "decimal"),
        text: text_or(xml::path_val(tree, i, &["lvlText"]), "%1."),
        start: number_or(xml::path_val(tree, i, &["start"]), 1),
    }
}

/// The levels that some nodes define. Of two definitions of one level the later
/// holds.
pub open spec fn lvls_among(t: Seq<xml::NodeView>, nodes: Seq<int>) -> Map<u32, LvlView>
    decreases nodes.len(),
{
    if nodes.len() == 0 {
        Map::empty()
    } else {
        let before = lvls_among(t, nodes.drop_last());
        let i = nodes.last();
        if t[i].tag == "lvl"@ {
            before.insert(or_number(xml::attr_of(t, i, "ilvl"@), 0), lvl_of(t, i))
        } else {
            before
        }
    }
}

/// The references from lists to abstract definitions in the first `n` nodes. Of
/// two references of one list the later holds.
pub open spec fn nums_upto(t: Seq<xml::NodeView>, n: nat) -> Map<Seq<char>, Seq<char>>
    decreases n,
{
    if n == 0 {
        Map::empty()
    } else {
        let before = nums_upto(t, (n - 1) as nat);
        let i = n - 1;
        let id = xml::attr_of(t, i, "numId"@);
        let abs = xml::val_at(t, i, seq!["abstractNumId"@]);
        if t[i].tag == "num"@ && id is Some && abs is Some {
            before.insert(id->0, abs->0)
        } else {
            before
        }
    }
}

/// The abstract definitions in the first `n` nodes. Of two definitions of one id
/// the later holds.
pub open spec fn abstracts_upto(t: Seq<xml::NodeView>, n: nat) -> Map<Seq<char>, Map<u32, LvlView>>
    decreases n,
{
    if n == 0 {
        Map::empty()
    } else {
        let before = abstracts_upto(t, (n - 1) as nat);
        let i = n - 1;
        let id = xml::attr_of(t, i, "abstractNumId"@);
        if t[i].tag == "abstractNum"@ && id is Some {
            before.insert(id->0, lvls_among(t, xml::children_of(t, i)))
        } else {
            before
        }
    }
}

/// The list definitions of a document.
pub open spec fn numbering_of(t: Seq<xml::NodeView>) -> NumberingView {
    NumberingView { num_to_abs: nums_upto(t, t.len()), abstracts: abstracts_upto(t, t.len()) }
}

/// The list definitions that the text of `numbering.xml` holds: none where it is
/// not XML.
pub open spec fn numbering_in(xml: Seq<char>) -> NumberingView {
    match xml::parsed_xml(xml) {
        Ok(t) => numbering_of(t),
        Err(_) => empty_numbering(),
    }
}

fn read_lvls(tree: &XmlTree, i: usize) -> (r: HashMap<u32, LvlDef>)
    requires
        xml::well_formed(tree@),
        i < tree@.len(),
    ensures
        lvls_view(r) == lvls_among(tree@, xml::children_of(tree@, i as int)),
{
    let nodes = xml::children(tree, i);
    let ghost all = xml::indices(nodes@);
    let mut lvls: HashMap<u32, LvlDef> = HashMap::new();
    let mut k: usize = 0;
    assert(lvls_view(lvls) == lvls_among(tree@, all.take(0)));
    while k < nodes.len()
        invariant
            xml::well_formed(tree@),
            all == xml::indices(nodes@),
            k <= nodes@.len(),
            forall|j: int| 0 <= j < nodes@.len() ==> (#[trigger] nodes@[j]) < tree@.len(),
            lvls_view(lvls) == lvls_among(tree@, all.take(k as int)),
        decreases nodes@.len() - k,
    {
        let j: usize = nodes[k];
        let ghost before = lvls;
        assert(all.take(k + 1).drop_last() == all.take(k as int));
        assert(all.take(k + 1).last() == j);
        if text::same(xml::tag(tree, j), "lvl") {
            let ilvl: u32 = number_or(xml::attr(tree, j, "ilvl"), 0);
            let lvl = read_lvl(tree, j);
            let ghost view = lvl@;
            lvls.insert(ilvl, lvl);
            assert(lvls_view(lvls) == lvls_view(before).insert(ilvl, view));
        }
        k += 1;
    }
    assert(all.take(nodes@.len() as int) == all);
    lvls
}

/// Reads the list definitions of a document.
pub fn read_numbering(tree: &XmlTree) -> (r: Numbering)
    requires
        xml::well_formed(tree@),
    ensures
        r@ == numbering_of(tree@),
{
    let n: usize = tree.nodes.len();
    let mut numbering = Numbering::default();
    let mut i: usize = 0;
    while i < n
        invariant
            xml::well_formed(tree@),
            i <= n == tree@.len(),
            numbering@ == (NumberingView {
                num_to_abs: nums_upto(tree@, i as nat),
                abstracts: Map::empty(),
            }),
        decreases n - i,
    {
        if text::same(xml::tag(tree, i), "num") {
            assert(xml::path_view(["abstractNumId"]@) == seq!["abstractNumId"@]);
            match (xml::attr(tree, i, "numId"), xml::path_val(tree, i, &["abstractNumId"])) {
                (Some(id), Some(abs)) => {
                    let ghost before = numbering@;
                    numbering.num_to_abs.insert(id.to_owned(), abs.to_owned());
                    assert(numbering@.num_to_abs == before.num_to_abs.insert(id@, abs@));
                },
                _ => {},
            }
        }
        i += 1;
    }
    i = 0;
    while i < n
        invariant
            xml::well_formed(tree@),
            i <= n == tree@.len(),
            numbering@ == (NumberingView {
                num_to_abs: nums_upto(tree@, tree@.len()),
                abstracts: abstracts_upto(tree@, i as nat),
            }),
        decreases n - i,
    {
        if text::same(xml::tag(tree, i), "abstractNum") {
            match xml::attr(tree, i, "abstractNumId") {
                Some(id) => {
                    let ghost before = numbering@;
                    let lvls = read_lvls(tree, i);
                    let ghost view = lvls_view(lvls);
                    numbering.abstracts.insert(id.to_owned(), lvls);
                    assert(numbering@.abstracts == before.abstracts.insert(id@, view));
                },
                None => {},
            }
        }
        i += 1;
    }
    numbering
}

/// Reads the list definitions that the text of `numbering.xml` holds.
pub fn parse_numbering(xml: &str) -> (r: Numbering)
    ensures
        r@ == numbering_in(xml@),
{
    match xml::parse_xml(xml) {
        Ok(tree) => read_numbering(&tree),
        Err(_) => Numbering::default(),
    }
}

/// Whether node `i` is a `num` element that refers the list of that id to an
/// abstract definition.
pub open spec fn defines_num(t: Seq<xml::NodeView>, i: int, id: Seq<char>) -> bool {
    &&& 0 <= i < t.len()
    &&& t[i].tag == "num"@
    &&& xml::attr_of(t, i, "numId"@) == Some(id)
    &&& xml::val_at(t, i, seq!["abstractNumId"@]) is Some
}

/// Whether node `i` is an `abstractNum` element of that id.
pub open spec fn defines_abstract(t: Seq<xml::NodeView>, i: int, id: Seq<char>) -> bool {
    &&& 0 <= i < t.len()
    &&& t[i].tag == "abstractNum"@
    &&& xml::attr_of(t, i, "abstractNumId"@) == Some(id)
}

/// Whether the `k`th of some nodes is a `lvl` element of that level.
pub open spec fn defines_lvl(t: Seq<xml::NodeView>, nodes: Seq<int>, k: int, ilvl: u32) -> bool {
    &&& 0 <= k < nodes.len()
    &&& t[nodes[k]].tag == "lvl"@
    &&& or_number(xml::attr_of(t, nodes[k], "ilvl"@), 0) == ilvl
}

/// A list is defined exactly where some `num` element refers it to an abstract
/// definition; the last such element says to which.
pub proof fn lists_come_from_num_elements(t: Seq<xml::NodeView>, id: Seq<char>)
    ensures
        numbering_of(t).num_to_abs.contains_key(id) <==> exists|i: int| defines_num(t, i, id),
        forall|i: int|
            #[trigger] defines_num(t, i, id) && (forall|j: int|
                i < j < t.len() ==> !defines_num(t, j, id)) ==> xml::val_at(
                t,
                i,
                seq!["abstractNumId"@],
            ) == Some(numbering_of(t).num_to_abs[id]),
{
    nums_come_from_elements(t, id, t.len());
}

proof fn nums_come_from_elements(t: Seq<xml::NodeView>, id: Seq<char>, n: nat)
    requires
        n <= t.len(),
    ensures
        nums_upto(t, n).contains_key(id) <==> exists|i: int| i < n && defines_num(t, i, id),
        forall|i: int|
            i < n && #[trigger] defines_num(t, i, id) && (forall|j: int|
                i < j < n ==> !defines_num(t, j, id)) ==> xml::val_at(t, i, seq!["abstractNumId"@])
                == Some(nums_upto(t, n)[id]),
    decreases n,
{
    if n > 0 {
        let m = (n - 1) as nat;
        nums_come_from_elements(t, id, m);
        let now = nums_upto(t, n);
        let before = nums_upto(t, m);
        if !defines_num(t, n - 1, id) {
            assert(now.contains_key(id) == before.contains_key(id));
            assert(now.contains_key(id) ==> now[id] == before[id]);
            if before.contains_key(id) {
                let i = choose|i: int| i < m && defines_num(t, i, id);
                assert(i < n && defines_num(t, i, id));
            }
        }
        assert forall|i: int|
            i < n && #[trigger] defines_num(t, i, id) && (forall|j: int|
                i < j < n ==> !defines_num(t, j, id)) implies xml::val_at(
            t,
            i,
            seq!["abstractNumId"@],
        ) == Some(now[id]) by {
            if i < n - 1 {
                assert(!defines_num(t, n - 1, id));
            }
        }
    }
}

/// An abstract definition is there exactly where some `abstractNum` element has
/// its id; the last such element gives the levels.
pub proof fn definitions_come_from_abstract_num_elements(t: Seq<xml::NodeView>, id: Seq<char>)
    ensures
        numbering_of(t).abstracts.contains_key(id) <==> exists|i: int| defines_abstract(t, i, id),
        forall|i: int|
            #[trigger] defines_abstract(t, i, id) && (forall|j: int|
                i < j < t.len() ==> !defines_abstract(t, j, id)) ==> numbering_of(t).abstracts[id]
                == lvls_among(t, xml::children_of(t, i)),
{
    abstracts_come_from_elements(t, id, t.len());
}

proof fn abstracts_come_from_elements(t: Seq<xml::NodeView>, id: Seq<char>, n: nat)
    requires
        n <= t.len(),
    ensures
        abstracts_upto(t, n).contains_key(id) <==> exists|i: int|
            i < n && defines_abstract(t, i, id),
        forall|i: int|
            i < n && #[trigger] defines_abstract(t, i, id) && (forall|j: int|
                i < j < n ==> !defines_abstract(t, j, id)) ==> abstracts_upto(t, n)[id]
                == lvls_among(t, xml::children_of(t, i)),
    decreases n,
{
    if n > 0 {
        let m = (n - 1) as nat;
        abstracts_come_from_elements(t, id, m);
        let now = abstracts_upto(t, n);
        let before = abstracts_upto(t, m);
        if !defines_abstract(t, n - 1, id) {
            assert(now.contains_key(id) == before.contains_key(id));
            assert(now.contains_key(id) ==> now[id] == before[id]);
            if before.contains_key(id) {
                let i = choose|i: int| i < m && defines_abstract(t, i, id);
                assert(i < n && defines_abstract(t, i, id));
            }
        }
        assert forall|i: int|
            i < n && #[trigger] defines_abstract(t, i, id) && (forall|j: int|
                i < j < n ==> !defines_abstract(t, j, id)) implies now[id] == lvls_among(
            t,
            xml::children_of(t, i),
        ) by {
            if i < n - 1 {
                assert(!defines_abstract(t, n - 1, id));
            }
        }
    }
}

/// A level is defined exactly where some `lvl` element among the children of the
/// abstract definition is of that level; the last such element says how.
pub proof fn levels_come_from_lvl_elements(t: Seq<xml::NodeView>, nodes: Seq<int>, ilvl: u32)
    ensures
        lvls_among(t, nodes).contains_key(ilvl) <==> exists|k: int| defines_lvl(t, nodes, k, ilvl),
        forall|k: int|
            #[trigger] defines_lvl(t, nodes, k, ilvl) && (forall|j: int|
                k < j < nodes.len() ==> !defines_lvl(t, nodes, j, ilvl)) ==> lvls_among(
                t,
                nodes,
            )[ilvl] == lvl_of(t, nodes[k]),
    decreases nodes.len(),
{
    if nodes.len() > 0 {
        let some = nodes.drop_last();
        let last = nodes.len() - 1;
        levels_come_from_lvl_elements(t, some, ilvl);
        let now = lvls_among(t, nodes);
        let before = lvls_among(t, some);
        assert forall|k: int| k < last implies defines_lvl(t, nodes, k, ilvl) == #[trigger] defines_lvl(
            t,
            some,
            k,
            ilvl,
        ) by {}
        if !defines_lvl(t, nodes, last, ilvl) {
            assert(now.contains_key(ilvl) == before.contains_key(ilvl));
            assert(now.contains_key(ilvl) ==> now[ilvl] == before[ilvl]);
            if before.contains_key(ilvl) {
                let k = choose|k: int| defines_lvl(t, some, k, ilvl);
                assert(defines_lvl(t, nodes, k, ilvl));
            }
            assert forall|k: int| #[trigger] defines_lvl(t, nodes, k, ilvl) implies defines_lvl(
                t,
                some,
                k,
                ilvl,
            ) by {}
        }
        assert forall|k: int|
            #[trigger] defines_lvl(t, nodes, k, ilvl) && (forall|j: int|
                k < j < nodes.len() ==> !defines_lvl(t, nodes, j, ilvl)) implies now[ilvl]
            == lvl_of(t, nodes[k]) by {
            if k < last {
                assert(!defines_lvl(t, nodes, last, ilvl));
                assert(defines_lvl(t, some, k, ilvl));
                assert forall|j: int| k < j < some.len() implies !defines_lvl(t, some, j, ilvl) by {
                    assert(!defines_lvl(t, nodes, j, ilvl));
                }
            }
        }
    }
}

/// Whether node `i` is an override of a level for one list: a `lvlOverride` element
/// that has no list definition of its own inside.
pub open spec fn is_override(t: Seq<xml::NodeView>, i: int) -> bool {
    &&& 0 <= i < t.len()
    &&& t[i].tag == "lvlOverride"@
    &&& forall|k: int|
        i <= k < i + t[i].size ==> (#[trigger] t[k]).tag != "num"@ && t[k].tag != "abstractNum"@
}

/// Overrides of a level are ignored: a document without them, or without some of
/// them, defines the same lists.
pub proof fn overrides_are_ignored(t: Seq<xml::NodeView>, overrides: Set<int>)
    requires
        xml::well_formed(t),
        forall|i: int| #[trigger] overrides.contains(i) ==> is_override(t, i),
    ensures
        numbering_of(subtree::pruned(t, overrides)) == numbering_of(t),
        forall|xml: Seq<char>, without: Seq<char>|
            #![trigger numbering_in(xml), numbering_in(without)]
            xml::parsed_xml(xml) == Ok::<_, roxmltree::Error>(t) && xml::parsed_xml(without)
                == Ok::<_, roxmltree::Error>(subtree::pruned(t, overrides)) ==> numbering_in(
                without,
            ) == numbering_in(xml),
{
    subtree::pruned_length(t, overrides, t.len() as int);
    nums_without(t, overrides, t.len());
    abstracts_without(t, overrides, t.len());
}

proof fn nums_without(t: Seq<xml::NodeView>, overrides: Set<int>, n: nat)
    requires
        xml::well_formed(t),
        forall|i: int| #[trigger] overrides.contains(i) ==> is_override(t, i),
        n <= t.len(),
    ensures
        nums_upto(subtree::pruned(t, overrides), subtree::rank(t, overrides, n as int) as nat)
            == nums_upto(t, n),
    decreases n,
{
    if n > 0 {
        let k = n - 1;
        subtree::rank_grows(t, overrides, k, k);
        nums_without(t, overrides, k as nat);
        if subtree::gone(t, overrides, k) {
            assert(t[k].tag != "num"@);
        } else {
            let path = seq!["abstractNumId"@];
            reveal_strlit("abstractNumId");
            reveal_strlit("lvlOverride");
            assert("abstractNumId"@.len() != "lvlOverride"@.len());
            subtree::kept_node(t, overrides, k);
            subtree::pruned_path(t, overrides, k, path);
        }
    }
}

proof fn abstracts_without(t: Seq<xml::NodeView>, overrides: Set<int>, n: nat)
    requires
        xml::well_formed(t),
        forall|i: int| #[trigger] overrides.contains(i) ==> is_override(t, i),
        n <= t.len(),
    ensures
        abstracts_upto(subtree::pruned(t, overrides), subtree::rank(t, overrides, n as int) as nat)
            == abstracts_upto(t, n),
    decreases n,
{
    if n > 0 {
        let k = n - 1;
        subtree::rank_grows(t, overrides, k, k);
        abstracts_without(t, overrides, k as nat);
        if subtree::gone(t, overrides, k) {
            assert(t[k].tag != "abstractNum"@);
        } else {
            let nodes = xml::children_of(t, k);
            subtree::kept_node(t, overrides, k);
            subtree::pruned_children(t, overrides, k);
            assert forall|m: int| 0 <= m < nodes.len() implies 0 <= #[trigger] nodes[m] < t.len()
                && (subtree::gone(t, overrides, nodes[m]) ==> overrides.contains(nodes[m])) by {
                subtree::child_goes_by_itself(t, overrides, k, m);
            }
            lvls_without(t, overrides, nodes);
        }
    }
}

proof fn lvls_without(t: Seq<xml::NodeView>, overrides: Set<int>, nodes: Seq<int>)
    requires
        xml::well_formed(t),
        forall|i: int| #[trigger] overrides.contains(i) ==> is_override(t, i),
        forall|m: int|
            0 <= m < nodes.len() ==> 0 <= #[trigger] nodes[m] < t.len() && (subtree::gone(
                t,
                overrides,
                nodes[m],
            ) ==> overrides.contains(nodes[m])),
    ensures
        lvls_among(subtree::pruned(t, overrides), subtree::survivors(t, overrides, nodes))
            == lvls_among(t, nodes),
    decreases nodes.len(),
{
    if nodes.len() > 0 {
        let some = nodes.drop_last();
        let i = nodes[nodes.len() - 1];
        assert forall|m: int| 0 <= m < some.len() implies 0 <= #[trigger] some[m] < t.len() && (
        subtree::gone(t, overrides, some[m]) ==> overrides.contains(some[m])) by {
            assert(some[m] == nodes[m]);
        }
        lvls_without(t, overrides, some);
        reveal_strlit("lvlOverride");
        reveal_strlit("lvl");
        reveal_strlit("numFmt");
        reveal_strlit("lvlText");
        reveal_strlit("start");
        if subtree::gone(t, overrides, i) {
            assert("lvl"@.len() != "lvlOverride"@.len());
        } else {
            assert("numFmt"@.len() != "lvlOverride"@.len());
            assert("lvlText"@.len() != "lvlOverride"@.len());
            assert("start"@.len() != "lvlOverride"@.len());
            subtree::kept_node(t, overrides, i);
            subtree::pruned_path(t, overrides, i, seq!["numFmt"@]);
            subtree::pruned_path(t, overrides, i, seq!["lvlText"@]);
            subtree::pruned_path(t, overrides, i, seq!["start"@]);
            let left = subtree::survivors(t, overrides, nodes);
            assert(left.drop_last() == subtree::survivors(t, overrides, some));
        }
    }
}

// ---------------------------------------------------------------------------
// What the definitions mean
// ---------------------------------------------------------------------------

/// An attribute that holds a number gives that number; one that does not, or is not
/// there, gives the default.
pub proof fn defaults_stand_in(v: Seq<char>, otherwise: u32, other: Seq<char>)
    ensures
        or_number(None, otherwise) == otherwise,
        text::parsed_u32(v) is None ==> or_number(Some(v), otherwise) == otherwise,
        forall|n: u32|
            text::parsed_u32(v) == Some(n) ==> #[trigger] or_number(Some(v), otherwise) == n,
        or_text(None, other) == other,
        or_text(Some(v), other) == v,
{
}

/// A level is what its element says: the number format of `numFmt`, or decimal; the label
/// of `lvlText`, or `%1.`; and the first value of `start`, or one.
pub proof fn levels_are_what_their_elements_say(t: Seq<xml::NodeView>, i: int)
    ensures
        ({
            let fmt = xml::val_at(t, i, seq!["numFmt"@]);
            let text = xml::val_at(t, i, seq!["lvlText"@]);
            let start = xml::val_at(t, i, seq!["start"@]);
            let lvl = lvl_of(t, i);
            &&& fmt is Some ==> Some(lvl.fmt) == fmt
            &&& fmt is None ==> lvl.fmt == "decimal"@
            &&& text is Some ==> Some(lvl.text) == text
            &&& text is None ==> lvl.text == "%1."@
            &&& start is Some && text::parsed_u32(start->0) is Some ==> Some(lvl.start)
                == text::parsed_u32(start->0)
            &&& start is None || text::parsed_u32(start->0) is None ==> lvl.start == 1
        }),
{
}

/// A `lvl` element is of the level that its `ilvl` names, or of the outermost one.
pub proof fn elements_name_their_level(
    t: Seq<xml::NodeView>,
    nodes: Seq<int>,
    k: int,
    ilvl: u32,
)
    requires
        0 <= k < nodes.len(),
        t[nodes[k]].tag == "lvl"@,
    ensures
        defines_lvl(t, nodes, k, ilvl) <==> (match xml::attr_of(t, nodes[k], "ilvl"@) {
            Some(v) => text::parsed_u32(v) == Some(ilvl) || (text::parsed_u32(v) is None && ilvl
                == 0),
            None => ilvl == 0,
        }),
{
}

/// A node refers a list to an abstract definition exactly where it is a `num` with the id
/// of the list and an `abstractNumId` below it that has a value; a node is an abstract
/// definition exactly where it is an `abstractNum` with that id.
pub proof fn definitions_are_num_and_abstract_num(t: Seq<xml::NodeView>, i: int, id: Seq<char>)
    requires
        0 <= i < t.len(),
    ensures
        defines_num(t, i, id) <==> t[i].tag == "num"@ && xml::attr_of(t, i, "numId"@) == Some(id)
            && xml::val_at(t, i, seq!["abstractNumId"@]) is Some,
        defines_abstract(t, i, id) <==> t[i].tag == "abstractNum"@ && xml::attr_of(
            t,
            i,
            "abstractNumId"@,
        ) == Some(id),
{
}

/// A text that is no XML defines no list; any other defines those of its document.
pub proof fn unreadable_definitions_define_nothing(xml: Seq<char>, id: Seq<char>)
    ensures
        xml::parsed_xml(xml) is Err ==> !numbering_in(xml).num_to_abs.contains_key(id)
            && !numbering_in(xml).abstracts.contains_key(id),
        xml::parsed_xml(xml) matches Ok(t) ==> numbering_in(xml) == numbering_of(t),
{
}

/// The view of the definitions shows them as they are.
pub proof fn definitions_are_shown_as_they_are(numbering: Numbering, lvl: LvlDef, id: Seq<char>)
    ensures
        lvl@.fmt == lvl.fmt@,
        lvl@.text == lvl.text@,
        lvl@.start == lvl.start,
        numbering@.num_to_abs.contains_key(id) == numbering.num_to_abs@.contains_key(id),
        numbering.num_to_abs@.contains_key(id) ==> numbering@.num_to_abs[id]
            == numbering.num_to_abs@[id]@,
        numbering@.abstracts.contains_key(id) == numbering.abstracts@.contains_key(id),
        forall|k: u32|
            numbering.abstracts@.contains_key(id) ==> (#[trigger] numbering@.abstracts[id].contains_key(
                k,
            ) == numbering.abstracts@[id]@.contains_key(k)) && (
            numbering.abstracts@[id]@.contains_key(k) ==> numbering@.abstracts[id][k]
                == numbering.abstracts@[id]@[k]@),
{
}

} // verus!
