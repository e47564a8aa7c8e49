//! The paragraph styles of `styles.xml`: which are headings, which belong to a
//! table of contents, and which number their paragraphs.

use crate::numbering;
use crate::text;
use crate::xml;
use crate::xml::XmlTree;
use vstd::hash_map::StringHashMap;
use vstd::prelude::*;

verus! {

/// The numbering that a style gives to its paragraphs.
#[derive(Debug)]
pub struct StyleInfo {
    pub num_id: Option<String>,
    pub ilvl: u32,
}

#[verifier::ext_equal]
pub struct StyleInfoView {
    pub num_id: Option<Seq<char>>,
    pub ilvl: u32,
}

impl View for StyleInfo {
    type V = StyleInfoView;

    open spec fn view(&self) -> StyleInfoView {
        StyleInfoView { num_id: xml::opt_view(self.num_id), ilvl: self.ilvl }
    }
}

impl Default for StyleInfo {
    fn default() -> (r: Self)
        ensures
            r@ == (StyleInfoView { num_id: None, ilvl: 0 }),
    {
        StyleInfo { num_id: None, ilvl: 0 }
    }
}

/// The styles of a document, by style id.
pub struct Styles {
    /// The level of each heading style, from one to nine.
    pub headings: StringHashMap<u32>,
    pub info: StringHashMap<StyleInfo>,
    /// The styles of a table of contents.
    pub toc: Vec<String>,
}

#[verifier::ext_equal]
pub struct StylesView {
    pub headings: Map<Seq<char>, u32>,
    pub info: Map<Seq<char>, StyleInfoView>,
    pub toc: Seq<Seq<char>>,
}

impl View for Styles {
    type V = StylesView;

    open spec fn view(&self) -> StylesView {
        StylesView {
            headings: self.headings@,
            info: self.info@.map_values(|i: StyleInfo| i@),
            toc: self.toc@.map_values(|s: String| s@),
        }
    }
}

pub open spec fn no_styles() -> StylesView {
    StylesView { headings: Map::empty(), info: Map::empty(), toc: Seq::empty() }
}

impl Default for Styles {
    fn default() -> (r: Self)
        ensures
            r@ == no_styles(),
    {
        let r = Styles { headings: StringHashMap::new(), info: StringHashMap::new(), toc: Vec::new() };
        assert(r@ == no_styles());
        r
    }
}

/// The level of the heading style of that name, given in small letters:
/// `heading` and a number from one to nine.
pub open spec fn heading_level(name: Seq<char>) -> Option<u32> {
    if "heading "@.is_prefix_of(name) {
        match text::parsed_u32(name.skip("heading "@.len() as int)) {
            Some(level) => if 1 <= level <= 9 {
                Some(level)
            } else {
                None
            },
            None => None,
        }
    } else {
        None
    }
}

/// Whether the style of that name, given in small letters, is one of a table of
/// contents.
pub open spec fn is_toc_name(name: Seq<char>) -> bool {
    "toc"@.is_prefix_of(name)
}

/// The numbering that a `style` element gives to its paragraphs.
pub open spec fn style_info_of(t: Seq<xml::NodeView>, i: int) -> StyleInfoView {
    match xml::at_path(t, i, seq!["pPr"@, "numPr"@]) {
        Some(j) => StyleInfoView {
            num_id: xml::val_at(t, j, seq!["numId"@]),
            ilvl: numbering::or_number(xml::val_at(t, j, seq!["ilvl"@]), 0),
        },
        None => StyleInfoView { num_id: None, ilvl: 0 },
    }
}

/// The name of a `style` element, in small letters.
pub open spec fn style_name_of(t: Seq<xml::NodeView>, i: int) -> Seq<char> {
    text::lowercase(numbering::or_text(xml::val_at(t, i, seq!["name"@]), Seq::empty()))
}

/// The styles with one more.
pub open spec fn with_style(
    styles: StylesView,
    id: Seq<char>,
    name: Seq<char>,
    info: StyleInfoView,
) -> StylesView {
    StylesView {
        headings: match heading_level(name) {
            Some(level) => styles.headings.insert(id, level),
            None => styles.headings,
        },
        info: styles.info.insert(id, info),
        toc: if is_toc_name(name) {
            styles.toc.push(id)
        } else {
            styles.toc
        },
    }
}

/// The styles that the first `n` nodes of a document define.
pub open spec fn styles_upto(t: Seq<xml::NodeView>, n: nat) -> StylesView
    decreases n,
{
    if n == 0 {
        no_styles()
    } else {
        let before = styles_upto(t, (n - 1) as nat);
        let i = n - 1;
        let id = xml::attr_of(t, i, "styleId"@);
        if t[i].tag == "style"@ && id is Some {
            with_style(before, id->0, style_name_of(t, i), style_info_of(t, i))
        } else {
            before
        }
    }
}

/// The styles that a document defines.
pub open spec fn styles_of(t: Seq<xml::NodeView>) -> StylesView {
    styles_upto(t, t.len())
}

/// The styles that the text of `styles.xml` holds: none where it is not XML.
pub open spec fn styles_in(xml: Seq<char>) -> StylesView {
    match xml::parsed_xml(xml) {
        Ok(t) => styles_of(t),
        Err(_) => no_styles(),
    }
}

/// What follows `prefix` in a text that starts with it.
fn strip_prefix(s: &str, prefix: &str) -> (r: Option<String>)
    ensures
        match r {
            Some(rest) => prefix@.is_prefix_of(s@) && rest@ == s@.skip(prefix@.len() as int),
            None => !prefix@.is_prefix_of(s@),
        },
{
    let chars = text::chars_of(s);
    let start = text::chars_of(prefix);
    let n: usize = start.len();
    if chars.len() < n {
        return None;
    }
    let mut k: usize = 0;
    while k < n
        invariant
            chars@ == s@,
            start@ == prefix@,
            k <= n == start@.len() <= chars@.len(),
            forall|j: int| 0 <= j < k ==> chars@[j] == #[trigger] start@[j],
        decreases n - k,
    {
        if chars[k] != start[k] {
            return None;
        }
        k += 1;
    }
    let len: usize = chars.len();
    assert(prefix@ == s@.subrange(0, n as int));
    assert(s@.skip(n as int) == chars@.subrange(n as int, len as int));
    Some(text::string_of(&chars, n, len))
}

fn read_style_info(tree: &XmlTree, i: usize) -> (r: StyleInfo)
    requires
        xml::well_formed(tree@),
        i < tree@.len(),
    ensures
        r@ == style_info_of(tree@, i as int),
{
    assert(xml::path_view(["pPr", "numPr"]@) == seq!["pPr"@, "numPr"@]);
    assert(xml::path_view(["numId"]@) == seq!["numId"@]);
    assert(xml::path_view(["ilvl"]@) == seq!["ilvl"@]);
    match xml::find_path(tree, i, &["pPr", "numPr"]) {
        Some(j) => StyleInfo {
            num_id: match xml::path_val(tree, j, &["numId"]) {
                Some(id) => Some(id.to_owned()),
                None => None,
            },
            ilvl: numbering::number_or(xml::path_val(tree, j, &["ilvl"]), 0),
        },
        None => StyleInfo::default(),
    }
}

/// Reads the styles that a document defines.
pub fn read_styles(tree: &XmlTree) -> (r: Styles)
    requires
        xml::well_formed(tree@),
    ensures
        r@ == styles_of(tree@),
{
    let n: usize = tree.nodes.len();
    let mut styles = Styles::default();
    let mut i: usize = 0;
    while i < n
        invariant
            xml::well_formed(tree@),
            i <= n == tree@.len(),
            styles@ == styles_upto(tree@, i as nat),
        decreases n - i,
    {
        if text::same(xml::tag(tree, i), "style") {
            match xml::attr(tree, i, "styleId") {
                Some(id) => {
                    let ghost before = styles@;
                    assert(xml::path_view(["name"]@) == seq!["name"@]);
                    let name = text::to_lowercase(
                        match xml::path_val(tree, i, &["name"]) {
                            Some(name) => name,
                            None => "",
                        },
                    );
                    proof {
                        reveal_strlit("");
                        assert(""@ == Seq::<char>::empty());
                        assert(name@ == style_name_of(tree@, i as int));
                    }
                    match strip_prefix(name.as_str(), "heading ") {
                        Some(rest) => match text::parse_u32(rest.as_str()) {
                            Some(level) => {
                                if 1 <= level && level <= 9 {
                                    styles.headings.insert(id.to_owned(), level);
                                }
                            },
                            None => {},
                        },
                        None => {},
                    }
                    if strip_prefix(name.as_str(), "toc").is_some() {
                        styles.toc.push(id.to_owned());
                    }
                    let info = read_style_info(tree, i);
                    let ghost view = info@;
                    styles.info.insert(id.to_owned(), info);
                    assert(styles@ == with_style(before, id@, name@, view));
                },
                None => {},
            }
        }
        i += 1;
    }
    styles
}

/// Reads the styles that the text of `styles.xml` holds.
pub fn parse_styles(xml: &str) -> (r: Styles)
    ensures
        r@ == styles_in(xml@),
{
    match xml::parse_xml(xml) {
        Ok(tree) => read_styles(&tree),
        Err(_) => Styles::default(),
    }
}

/// Whether node `i` is a `style` element of that id.
pub open spec fn defines_style(t: Seq<xml::NodeView>, i: int, id: Seq<char>) -> bool {
    &&& 0 <= i < t.len()
    &&& t[i].tag == "style"@
    &&& xml::attr_of(t, i, "styleId"@) == Some(id)
}

/// Whether node `i` is a `style` element of that id with the name of a heading.
pub open spec fn defines_heading(t: Seq<xml::NodeView>, i: int, id: Seq<char>) -> bool {
    defines_style(t, i, id) && heading_level(style_name_of(t, i)) is Some
}

/// Whether node `i` is a `style` element of that id with a name of a table of
/// contents.
pub open spec fn defines_toc(t: Seq<xml::NodeView>, i: int, id: Seq<char>) -> bool {
    defines_style(t, i, id) && is_toc_name(style_name_of(t, i))
}

/// A style name that is `heading` and a number from one to nine, in small or
/// capital letters, is that of a heading of that level.
pub proof fn heading_names_give_their_level(name: Seq<char>, level: u32)
    requires
        1 <= level <= 9,
        text::lowercase(name) == "heading "@ + text::decimal(level as nat),
    ensures
        heading_level(text::lowercase(name)) == Some(level),
        !is_toc_name(text::lowercase(name)),
{
    let low = text::lowercase(name);
    text::decimal_parses(level);
    reveal_strlit("heading ");
    reveal_strlit("toc");
    assert(low.skip("heading "@.len() as int) == text::decimal(level as nat));
    assert("heading "@.is_prefix_of(low)) by {
        assert("heading "@ == low.subrange(0, "heading "@.len() as int));
    }
    assert(low[0] == 'h');
    assert("toc"@[0] == 't');
}

/// A style is a heading exactly where some definition of it has the name of a
/// heading; the last such definition gives the level.
pub proof fn headings_come_from_style_names(t: Seq<xml::NodeView>, id: Seq<char>)
    ensures
        styles_of(t).headings.contains_key(id) <==> exists|i: int| defines_heading(t, i, id),
        forall|i: int|
            #[trigger] defines_heading(t, i, id) && (forall|j: int|
                i < j < t.len() ==> !defines_heading(t, j, id)) ==> heading_level(
                style_name_of(t, i),
            ) == Some(styles_of(t).headings[id]),
{
    headings_upto(t, id, t.len());
}

proof fn headings_upto(t: Seq<xml::NodeView>, id: Seq<char>, n: nat)
    requires
        n <= t.len(),
    ensures
        styles_upto(t, n).headings.contains_key(id) <==> exists|i: int|
            i < n && defines_heading(t, i, id),
        forall|i: int|
            i < n && #[trigger] defines_heading(t, i, id) && (forall|j: int|
                i < j < n ==> !defines_heading(t, j, id)) ==> heading_level(style_name_of(t, i))
                == Some(styles_upto(t, n).headings[id]),
    decreases n,
{
    if n > 0 {
        let m = (n - 1) as nat;
        headings_upto(t, id, m);
        let now = styles_upto(t, n).headings;
        let before = styles_upto(t, m).headings;
        if defines_heading(t, n - 1, id) {
            assert(heading_level(style_name_of(t, n - 1)) == Some(now[id]));
        } else {
            assert(now.contains_key(id) == before.contains_key(id));
            assert(now.contains_key(id) ==> now[id] == before[id]);
            if before.contains_key(id) {
                let i = choose|i: int| i < m && defines_heading(t, i, id);
                assert(i < n && defines_heading(t, i, id));
            }
        }
        assert forall|i: int|
            i < n && #[trigger] defines_heading(t, i, id) && (forall|j: int|
                i < j < n ==> !defines_heading(t, j, id)) implies heading_level(
            style_name_of(t, i),
        ) == Some(now[id]) by {
            if i < n - 1 {
                assert(!defines_heading(t, n - 1, id));
            }
        }
    }
}

/// Every heading style has a level from one to nine.
pub proof fn heading_levels_are_one_to_nine(t: Seq<xml::NodeView>)
    ensures
        forall|id: Seq<char>| #[trigger]
            styles_of(t).headings.contains_key(id) ==> 1 <= styles_of(t).headings[id] <= 9,
{
    levels_upto(t, t.len());
}

proof fn levels_upto(t: Seq<xml::NodeView>, n: nat)
    ensures
        forall|id: Seq<char>| #[trigger]
            styles_upto(t, n).headings.contains_key(id) ==> 1 <= styles_upto(t, n).headings[id]
                <= 9,
    decreases n,
{
    if n > 0 {
        levels_upto(t, (n - 1) as nat);
        let now = styles_upto(t, n).headings;
        let before = styles_upto(t, (n - 1) as nat).headings;
        assert forall|id: Seq<char>| #[trigger] now.contains_key(id) implies 1 <= now[id] <= 9 by {
            assert(before.contains_key(id) ==> 1 <= before[id] <= 9);
        }
    }
}

/// A style belongs to a table of contents exactly where some definition of it has
/// a name that starts with `toc`.
pub proof fn toc_styles_come_from_style_names(t: Seq<xml::NodeView>, id: Seq<char>)
    ensures
        styles_of(t).toc.contains(id) <==> exists|i: int| defines_toc(t, i, id),
{
    toc_upto(t, id, t.len());
}

proof fn toc_upto(t: Seq<xml::NodeView>, id: Seq<char>, n: nat)
    requires
        n <= t.len(),
    ensures
        styles_upto(t, n).toc.contains(id) <==> exists|i: int| i < n && defines_toc(t, i, id),
    decreases n,
{
    if n > 0 {
        let m = (n - 1) as nat;
        toc_upto(t, id, m);
        let now = styles_upto(t, n).toc;
        let before = styles_upto(t, m).toc;
        if defines_toc(t, n - 1, id) {
            assert(now[now.len() - 1] == id);
        } else {
            if before.contains(id) {
                let k = choose|k: int| 0 <= k < before.len() && before[k] == id;
                assert(now[k] == id);
                let i = choose|i: int| i < m && defines_toc(t, i, id);
                assert(i < n && defines_toc(t, i, id));
            }
            if now.contains(id) {
                let k = choose|k: int| 0 <= k < now.len() && now[k] == id;
                assert(before[k] == id);
            }
        }
    }
}

// ---------------------------------------------------------------------------
// What style names and elements mean
// ---------------------------------------------------------------------------

/// A name, in small letters, is that of a heading exactly where it is `heading`, a space
/// and a number from one to nine, and gives that number.
pub proof fn heading_names_are_heading_and_number(name: Seq<char>, rest: Seq<char>)
    ensures
        heading_level("heading "@ + rest) is Some <==> text::parsed_u32(rest) is Some && 1
            <= text::parsed_u32(rest)->0 <= 9,
        heading_level("heading "@ + rest) is Some ==> heading_level("heading "@ + rest)
            == text::parsed_u32(rest),
        heading_level(name) is Some ==> exists|tail: Seq<char>|
            name == #[trigger] ("heading "@ + tail),
{
    let full = "heading "@ + rest;
    let n = "heading "@.len() as int;
    assert(full.skip(n) == rest);
    assert("heading "@ == full.subrange(0, n));
    if heading_level(name) is Some {
        assert(name == "heading "@ + name.skip(n));
    }
}

/// A name, in small letters, is one of a table of contents exactly where it starts with
/// `toc`.
pub proof fn toc_names_start_with_toc(name: Seq<char>)
    ensures
        is_toc_name(name) <==> name.len() >= 3 && name[0] == 't' && name[1] == 'o' && name[2]
            == 'c',
{
    reveal_strlit("toc");
    assert("toc"@.len() == 3);
    if name.len() >= 3 {
        let start = name.subrange(0, 3);
        assert(start[0] == name[0] && start[1] == name[1] && start[2] == name[2]);
        if name[0] == 't' && name[1] == 'o' && name[2] == 'c' {
            assert("toc"@ == start);
        }
    }
}

/// The name of a style is the value of its `name` element in small letters; a style
/// without one has the empty name.
pub proof fn style_names_are_lowered(t: Seq<xml::NodeView>, i: int)
    ensures
        forall|name: Seq<char>|
            xml::val_at(t, i, seq!["name"@]) == Some(name) ==> style_name_of(t, i)
                == #[trigger] text::lowercase(name),
        xml::val_at(t, i, seq!["name"@]) is None ==> style_name_of(t, i).len() == 0,
{
    assert(text::is_ascii_text(Seq::<char>::empty()));
}

/// The numbering of a style is that of `numPr` in its `pPr`: the list of `numId`, and the
/// level of `ilvl`, or the outermost one. A style without `numPr` gives none.
pub proof fn style_numbering_is_that_of_numpr(t: Seq<xml::NodeView>, i: int)
    ensures
        match xml::at_path(t, i, seq!["pPr"@, "numPr"@]) {
            Some(j) => {
                let ilvl = xml::val_at(t, j, seq!["ilvl"@]);
                &&& style_info_of(t, i).num_id == xml::val_at(t, j, seq!["numId"@])
                &&& ilvl is Some && text::parsed_u32(ilvl->0) is Some ==> Some(
                    style_info_of(t, i).ilvl,
                ) == text::parsed_u32(ilvl->0)
                &&& ilvl is None || text::parsed_u32(ilvl->0) is None ==> style_info_of(t, i).ilvl
                    == 0
            },
            None => style_info_of(t, i).num_id is None && style_info_of(t, i).ilvl == 0,
        },
{
}

/// A style is known exactly where some element defines it, and its numbering is that of
/// the last such element.
pub proof fn style_numbering_comes_from_the_last_element(t: Seq<xml::NodeView>, id: Seq<char>)
    ensures
        styles_of(t).info.contains_key(id) <==> exists|i: int| defines_style(t, i, id),
        forall|i: int|
            #[trigger] defines_style(t, i, id) && (forall|j: int|
                i < j < t.len() ==> !defines_style(t, j, id)) ==> styles_of(t).info[id]
                == style_info_of(t, i),
{
    infos_upto(t, id, t.len());
}

proof fn infos_upto(t: Seq<xml::NodeView>, id: Seq<char>, n: nat)
    requires
        n <= t.len(),
    ensures
        styles_upto(t, n).info.contains_key(id) <==> exists|i: int|
            i < n && defines_style(t, i, id),
        forall|i: int|
            i < n && #[trigger] defines_style(t, i, id) && (forall|j: int|
                i < j < n ==> !defines_style(t, j, id)) ==> styles_upto(t, n).info[id]
                == style_info_of(t, i),
    decreases n,
{
    if n > 0 {
        let m = (n - 1) as nat;
        infos_upto(t, id, m);
        let now = styles_upto(t, n).info;
        let before = styles_upto(t, m).info;
        if !defines_style(t, n - 1, id) {
            assert(now.contains_key(id) == before.contains_key(id));
            assert(now.contains_key(id) ==> now[id] == before[id]);
            if before.contains_key(id) {
                let i = choose|i: int| i < m && defines_style(t, i, id);
                assert(i < n && defines_style(t, i, id));
            }
        }
        assert forall|i: int|
            i < n && #[trigger] defines_style(t, i, id) && (forall|j: int|
                i < j < n ==> !defines_style(t, j, id)) implies now[id] == style_info_of(t, i) by {
            if i < n - 1 {
                assert(!defines_style(t, n - 1, id));
            }
        }
    }
}

/// A node defines a style exactly where it is a `style` with that id; the style is a
/// heading by it where its name is that of a heading, and one of a table of contents where
/// its name starts with `toc`.
pub proof fn styles_are_style_elements(t: Seq<xml::NodeView>, i: int, id: Seq<char>)
    requires
        0 <= i < t.len(),
    ensures
        defines_style(t, i, id) <==> t[i].tag == "style"@ && xml::attr_of(t, i, "styleId"@) == Some(
            id,
        ),
        defines_heading(t, i, id) <==> defines_style(t, i, id) && heading_level(style_name_of(t, i))
            is Some,
        defines_toc(t, i, id) <==> defines_style(t, i, id) && "toc"@.is_prefix_of(
            style_name_of(t, i),
        ),
{
}

/// A text that is no XML defines no style; any other defines those of its document.
pub proof fn unreadable_styles_define_nothing(xml: Seq<char>, id: Seq<char>)
    ensures
        xml::parsed_xml(xml) is Err ==> !styles_in(xml).headings.contains_key(id) && !styles_in(
            xml,
        ).info.contains_key(id) && !styles_in(xml).toc.contains(id),
        xml::parsed_xml(xml) matches Ok(t) ==> styles_in(xml) == styles_of(t),
{
}

/// The view of the styles shows them as they are.
pub proof fn styles_are_shown_as_they_are(styles: Styles, info: StyleInfo, id: Seq<char>, k: int)
    ensures
        info@.ilvl == info.ilvl,
        info.num_id matches Some(num_id) ==> info@.num_id == Some(num_id@),
        info.num_id is None ==> info@.num_id is None,
        styles@.headings == styles.headings@,
        styles@.info.contains_key(id) == styles.info@.contains_key(id),
        styles.info@.contains_key(id) ==> styles@.info[id] == styles.info@[id]@,
        styles@.toc.len() == styles.toc@.len(),
        0 <= k < styles.toc@.len() ==> styles@.toc[k] == styles.toc@[k]@,
{
}

} // verus!
