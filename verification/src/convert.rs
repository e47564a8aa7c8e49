//! From the parts of a DOCX file to Markdown.

use crate::archive;
use crate::archive::Entry;
use crate::counters;
use crate::counters::CounterState;
use crate::numbering;
use crate::numbering::Numbering;
use crate::paragraph;
use crate::styles;
use crate::styles::Styles;
use crate::subtree;
use crate::table;
use crate::text;
use crate::xml;
use crate::xml::XmlTree;
use vstd::prelude::*;
use zip::result::ZipError;

verus! {

/// How to convert.
#[derive(Debug)]
pub struct ConvertOptions {
    /// Whether the paragraphs of a table of contents are kept; by default they
    /// are left out.
    pub keep_toc: bool,
}

impl Default for ConvertOptions {
    fn default() -> (r: Self)
        ensures
            !r.keep_toc,
    {
        ConvertOptions { keep_toc: false }
    }
}

impl Clone for ConvertOptions {
    fn clone(&self) -> (r: Self)
        ensures
            r == *self,
    {
        ConvertOptions { keep_toc: self.keep_toc }
    }
}

/// Why a document could not be converted.
#[derive(Debug)]
pub enum ConvertError {
    /// The bytes are no ZIP archive.
    Archive(ZipError),
    /// The archive has no `word/document.xml` that can be opened.
    MissingDocument(ZipError),
    /// `word/document.xml` cannot be read as text.
    UnreadableDocument(std::io::Error),
    /// `word/document.xml` is not XML.
    MalformedDocument(roxmltree::Error),
    /// `word/document.xml` has no `body`.
    NoBody,
}

/// A document and all that its conversion depends on.
#[verifier::ext_equal]
pub struct DocView {
    pub nodes: Seq<xml::NodeView>,
    pub styles: styles::StylesView,
    pub numbering: numbering::NumberingView,
    pub keep_toc: bool,
}

/// What a block element of the body contributes: the Markdown text, and the
/// counters after it.
pub struct Block {
    pub md: Seq<char>,
    pub counters: Map<Seq<char>, Seq<u32>>,
}

/// The level of the heading that a style stands for.
pub open spec fn heading_of(st: styles::StylesView, style: Option<Seq<char>>) -> Option<u32> {
    match style {
        Some(id) => if st.headings.contains_key(id) {
            Some(st.headings[id])
        } else {
            None
        },
        None => None,
    }
}

/// Whether a style is one of a table of contents.
pub open spec fn is_toc(st: styles::StylesView, style: Option<Seq<char>>) -> bool {
    match style {
        Some(id) => st.toc.contains(id),
        None => false,
    }
}

/// A heading: one hash for each level, at most six, then its number if it has
/// one, and its text.
pub open spec fn heading_text(level: u32, label: Option<Seq<char>>, body: Seq<char>) -> Seq<char> {
    let hashes = text::repeated(
        "#"@,
        if level < 6 {
            level as nat
        } else {
            6
        },
    );
    let number = match label {
        Some(l) => if l.len() > 0 {
            l + " "@
        } else {
            Seq::empty()
        },
        None => Seq::empty(),
    };
    hashes + " "@ + number + body + "\n\n"@
}

/// A list item: two spaces for each level, a dash or its number, and its text.
pub open spec fn item_text(ilvl: u32, label: Option<Seq<char>>, body: Seq<char>) -> Seq<char> {
    let marker = match label {
        Some(l) => l + " "@,
        None => "- "@,
    };
    text::repeated("  "@, ilvl as nat) + marker + body + "\n"@
}

/// What a paragraph contributes.
pub open spec fn paragraph_block(
    d: DocView,
    i: int,
    counters: Map<Seq<char>, Seq<u32>>,
) -> Block {
    let body = paragraph::text_of(d.nodes, i);
    let numpr = paragraph::numpr_of(d.nodes, i, d.styles);
    if body.len() == 0 || (!d.keep_toc && is_toc(d.styles, numpr.style)) {
        Block { md: Seq::empty(), counters }
    } else {
        let label = match numpr.num_id {
            Some(id) => counters::label(d.numbering, counters, id, numpr.ilvl),
            None => None,
        };
        let after = match numpr.num_id {
            Some(id) => counters::counted(d.numbering, counters, id, numpr.ilvl),
            None => counters,
        };
        match heading_of(d.styles, numpr.style) {
            Some(level) => Block { md: heading_text(level, label, body), counters: after },
            None => if numpr.num_id is Some {
                Block { md: item_text(numpr.ilvl, label, body), counters: after }
            } else {
                Block { md: body + "\n\n"@, counters }
            },
        }
    }
}

/// What a table contributes.
pub open spec fn table_block(d: DocView, i: int, counters: Map<Seq<char>, Seq<u32>>) -> Block {
    let md = table::table_text(table::rows_of(d.nodes, i));
    Block {
        md: if md.len() > 0 {
            md + "\n\n"@
        } else {
            md
        },
        counters,
    }
}

/// What a node of the body contributes. Only paragraphs and tables do.
pub open spec fn block(d: DocView, i: int, counters: Map<Seq<char>, Seq<u32>>) -> Block {
    if d.nodes[i].is_element && d.nodes[i].tag == "tbl"@ {
        table_block(d, i, counters)
    } else if d.nodes[i].is_element && d.nodes[i].tag == "p"@ {
        paragraph_block(d, i, counters)
    } else {
        Block { md: Seq::empty(), counters }
    }
}

/// What some nodes contribute, one after the other.
pub open spec fn blocks(
    d: DocView,
    nodes: Seq<int>,
    counters: Map<Seq<char>, Seq<u32>>,
) -> Block
    decreases nodes.len(),
{
    if nodes.len() == 0 {
        Block { md: Seq::empty(), counters }
    } else {
        let before = blocks(d, nodes.drop_last(), counters);
        let last = block(d, nodes.last(), before.counters);
        Block { md: before.md + last.md, counters: last.counters }
    }
}

/// The first node from `i` on that has that name.
pub open spec fn first_tagged(t: Seq<xml::NodeView>, i: int, name: Seq<char>) -> Option<int>
    decreases t.len() - i,
{
    if i >= t.len() {
        None
    } else if t[i].tag == name {
        Some(i)
    } else {
        first_tagged(t, i + 1, name)
    }
}

/// The Markdown text of a document; none where it has no body.
pub open spec fn markdown_of(d: DocView) -> Option<Seq<char>> {
    match first_tagged(d.nodes, 0, "body"@) {
        Some(body) => Some(blocks(d, xml::children_of(d.nodes, body), Map::empty()).md),
        None => None,
    }
}

/// The outcome of a conversion from the texts of the three parts.
pub open spec fn xml_outcome(
    document_xml: Seq<char>,
    styles_xml: Seq<char>,
    numbering_xml: Seq<char>,
    keep_toc: bool,
) -> Result<Seq<char>, ConvertError> {
    match xml::parsed_xml(document_xml) {
        Ok(nodes) => match markdown_of(
            DocView {
                nodes,
                styles: styles::styles_in(styles_xml),
                numbering: numbering::numbering_in(numbering_xml),
                keep_toc,
            },
        ) {
            Some(md) => Ok(md),
            None => Err(ConvertError::NoBody),
        },
        Err(e) => Err(ConvertError::MalformedDocument(e)),
    }
}

/// The text of an entry; empty where there is none or it cannot be read.
pub open spec fn entry_or_empty(entry: archive::EntryText) -> Seq<char> {
    match entry {
        Ok(Ok(text)) => text,
        _ => Seq::empty(),
    }
}

/// The outcome of a conversion from what the entries of the three parts hold.
pub open spec fn entries_outcome(
    document: archive::EntryText,
    styles: archive::EntryText,
    numbering: archive::EntryText,
    keep_toc: bool,
) -> Result<Seq<char>, ConvertError> {
    match document {
        Ok(Ok(document_xml)) => xml_outcome(
            document_xml,
            entry_or_empty(styles),
            entry_or_empty(numbering),
            keep_toc,
        ),
        Ok(Err(e)) => Err(ConvertError::UnreadableDocument(e)),
        Err(e) => Err(ConvertError::MissingDocument(e)),
    }
}

/// The outcome of a conversion from the bytes of a DOCX file.
pub open spec fn bytes_outcome(bytes: Seq<u8>, keep_toc: bool) -> Result<Seq<char>, ConvertError> {
    match archive::opened(bytes) {
        Ok(entries) => entries_outcome(
            entries["word/document.xml"@],
            entries["word/styles.xml"@],
            entries["word/numbering.xml"@],
            keep_toc,
        ),
        Err(e) => Err(ConvertError::Archive(e)),
    }
}

/// Appends a heading.
fn push_heading(md: &mut String, level: u32, label: &Option<String>, body: &str)
    ensures
        final(md)@ == old(md)@ + heading_text(level, xml::opt_view(*label), body@),
{
    let ghost before = md@;
    let n: usize = if level < 6 {
        level as usize
    } else {
        6
    };
    text::push_repeated(md, "#", n);
    md.push_str(" ");
    match label {
        Some(label) => {
            if !label.as_str().is_empty() {
                md.push_str(label.as_str());
                md.push_str(" ");
            }
        },
        None => {},
    }
    md.push_str(body);
    md.push_str("\n\n");
    assert(md@ == before + heading_text(level, xml::opt_view(*label), body@));
}

/// Appends a list item.
fn push_item(md: &mut String, ilvl: u32, label: &Option<String>, body: &str)
    ensures
        final(md)@ == old(md)@ + item_text(ilvl, xml::opt_view(*label), body@),
{
    let ghost before = md@;
    text::push_repeated(md, "  ", ilvl as usize);
    match label {
        Some(label) => {
            md.push_str(label.as_str());
            md.push_str(" ");
        },
        None => {
            md.push_str("- ");
        },
    }
    md.push_str(body);
    md.push_str("\n");
    assert(md@ == before + item_text(ilvl, xml::opt_view(*label), body@));
}

/// Appends what a paragraph contributes and counts it.
#[verifier::rlimit(40)]
#[verifier::spinoff_prover]
fn push_paragraph(
    md: &mut String,
    state: &mut CounterState,
    tree: &XmlTree,
    i: usize,
    styles: &Styles,
    options: &ConvertOptions,
    Ghost(d): Ghost<DocView>,
)
    requires
        xml::well_formed(tree@),
        i < tree@.len(),
        d == (DocView {
            nodes: tree@,
            styles: styles@,
            numbering: old(state)@.numbering,
            keep_toc: options.keep_toc,
        }),
    ensures
        final(state)@.numbering == old(state)@.numbering,
        final(state)@.counters == paragraph_block(d, i as int, old(state)@.counters).counters,
        final(md)@ == old(md)@ + paragraph_block(d, i as int, old(state)@.counters).md,
{
    let ghost before = md@;
    let ghost this = paragraph_block(d, i as int, state@.counters);
    assert(before + Seq::<char>::empty() == before);
    let body = paragraph::para_text(tree, i);
    if body.as_str().is_empty() {
        return;
    }
    let (num_id, ilvl, style) = paragraph::para_numpr(tree, i, styles);
    let mut heading: Option<u32> = None;
    match &style {
        Some(id) => {
            if !options.keep_toc && has_toc(styles, id) {
                return;
            }
            match styles.headings.get(id.as_str()) {
                Some(level) => {
                    heading = Some(*level);
                },
                None => {},
            }
        },
        None => {},
    }
    assert(heading == heading_of(d.styles, xml::opt_view(style)));
    let label: Option<String> = match &num_id {
        Some(id) => {
            let (bullet, label) = state.resolve(id.as_str(), ilvl);
            if bullet {
                None
            } else {
                Some(label)
            }
        },
        None => None,
    };
    match heading {
        Some(level) => push_heading(md, level, &label, body.as_str()),
        None => if num_id.is_some() {
            push_item(md, ilvl, &label, body.as_str());
        } else {
            md.push_str(body.as_str());
            md.push_str("\n\n");
            assert(md@ == before + this.md);
        },
    }
}

/// Whether a style is one of a table of contents.
fn has_toc(styles: &Styles, id: &String) -> (r: bool)
    ensures
        r == styles@.toc.contains(id@),
{
    let ghost all = styles@.toc;
    let mut k: usize = 0;
    while k < styles.toc.len()
        invariant
            all == styles@.toc,
            k <= styles.toc@.len() == all.len(),
            forall|j: int| 0 <= j < k ==> #[trigger] all[j] != id@,
        decreases styles.toc@.len() - k,
    {
        assert(all[k as int] == styles.toc@[k as int]@);
        if text::same(styles.toc[k].as_str(), id.as_str()) {
            return true;
        }
        k += 1;
    }
    false
}

/// The first node that has that name.
fn find_tagged(tree: &XmlTree, name: &str) -> (r: Option<usize>)
    ensures
        match r {
            Some(i) => i < tree@.len() && first_tagged(tree@, 0, name@) == Some(i as int),
            None => first_tagged(tree@, 0, name@) is None,
        },
{
    let n: usize = tree.nodes.len();
    let mut i: usize = 0;
    while i < n
        invariant
            i <= n == tree@.len(),
            first_tagged(tree@, 0, name@) == first_tagged(tree@, i as int, name@),
        decreases n - i,
    {
        if text::same(xml::tag(tree, i), name) {
            return Some(i);
        }
        i += 1;
    }
    None
}

/// Converts a document to Markdown.
#[verifier::rlimit(40)]
#[verifier::spinoff_prover]
pub fn convert_tree(
    tree: &XmlTree,
    styles: &Styles,
    numbering: &Numbering,
    options: &ConvertOptions,
) -> (r: Result<String, ConvertError>)
    requires
        xml::well_formed(tree@),
    ensures
        ({
            let md = markdown_of(
                DocView {
                    nodes: tree@,
                    styles: styles@,
                    numbering: numbering@,
                    keep_toc: options.keep_toc,
                },
            );
            match r {
                Ok(text) => md == Some(text@),
                Err(e) => md is None && e == ConvertError::NoBody,
            }
        }),
{
    let ghost d = DocView {
        nodes: tree@,
        styles: styles@,
        numbering: numbering@,
        keep_toc: options.keep_toc,
    };
    let body: usize = match find_tagged(tree, "body") {
        Some(i) => i,
        None => {
            return Err(ConvertError::NoBody);
        },
    };
    let nodes = xml::children(tree, body);
    let ghost all = xml::indices(nodes@);
    let ghost start: Map<Seq<char>, Seq<u32>> = Map::empty();
    let mut state = CounterState::new(numbering);
    let mut md = String::new();
    let mut k: usize = 0;
    while k < nodes.len()
        invariant
            xml::well_formed(tree@),
            d == (DocView {
                nodes: tree@,
                styles: styles@,
                numbering: numbering@,
                keep_toc: options.keep_toc,
            }),
            all == xml::indices(nodes@),
            k <= nodes@.len(),
            forall|j: int| 0 <= j < nodes@.len() ==> (#[trigger] nodes@[j]) < tree@.len(),
            state@.numbering == numbering@,
            md@ == blocks(d, all.take(k as int), start).md,
            state@.counters == blocks(d, all.take(k as int), start).counters,
        decreases nodes@.len() - k,
    {
        let i: usize = nodes[k];
        let ghost before = md@;
        let ghost this = block(d, i as int, state@.counters);
        assert(all.take(k + 1).drop_last() == all.take(k as int));
        assert(all.take(k + 1).last() == i);
        assert(tree@[i as int].is_element == tree.nodes@[i as int].is_element);
        if tree.nodes[i].is_element {
            if text::same(xml::tag(tree, i), "tbl") {
                let table = table::table_md(tree, i);
                if !table.as_str().is_empty() {
                    md.push_str(table.as_str());
                    md.push_str("\n\n");
                }
            } else if text::same(xml::tag(tree, i), "p") {
                push_paragraph(&mut md, &mut state, tree, i, styles, options, Ghost(d));
            }
        }
        assert(md@ == before + this.md);
        k += 1;
    }
    assert(all.take(nodes@.len() as int) == all);
    Ok(md)
}

/// Converts a document from the texts of its parts: `word/document.xml`,
/// `word/styles.xml` and `word/numbering.xml`.
pub fn convert_xml(
    document_xml: &str,
    styles_xml: &str,
    numbering_xml: &str,
    options: &ConvertOptions,
) -> (r: Result<String, ConvertError>)
    ensures
        match r {
            Ok(md) => xml_outcome(document_xml@, styles_xml@, numbering_xml@, options.keep_toc)
                == Ok::<_, ConvertError>(md@),
            Err(e) => xml_outcome(document_xml@, styles_xml@, numbering_xml@, options.keep_toc)
                == Err::<Seq<char>, _>(e),
        },
{
    let tree = match xml::parse_xml(document_xml) {
        Ok(tree) => tree,
        Err(e) => {
            return Err(ConvertError::MalformedDocument(e));
        },
    };
    let styles = styles::parse_styles(styles_xml);
    let numbering = numbering::parse_numbering(numbering_xml);
    convert_tree(&tree, &styles, &numbering, options)
}

/// The text of an entry; empty where there is none or it cannot be read.
fn text_or_empty(entry: Entry) -> (r: String)
    ensures
        r@ == entry_or_empty(archive::entry_view(entry)),
{
    match entry {
        Ok(Ok(text)) => text,
        _ => String::new(),
    }
}

/// Converts a document from what reading the entries of its parts gave. The
/// document itself has to be there; styles and list definitions may be missing.
pub fn convert_entries(
    document: Entry,
    styles: Entry,
    numbering: Entry,
    options: &ConvertOptions,
) -> (r: Result<String, ConvertError>)
    ensures
        ({
            let outcome = entries_outcome(
                archive::entry_view(document),
                archive::entry_view(styles),
                archive::entry_view(numbering),
                options.keep_toc,
            );
            match r {
                Ok(md) => outcome == Ok::<_, ConvertError>(md@),
                Err(e) => outcome == Err::<Seq<char>, _>(e),
            }
        }),
{
    match document {
        Ok(Ok(document_xml)) => {
            let styles_xml = text_or_empty(styles);
            let numbering_xml = text_or_empty(numbering);
            convert_xml(document_xml.as_str(), styles_xml.as_str(), numbering_xml.as_str(), options)
        },
        Ok(Err(e)) => Err(ConvertError::UnreadableDocument(e)),
        Err(e) => Err(ConvertError::MissingDocument(e)),
    }
}

/// Converts the bytes of a DOCX file.
pub fn convert_bytes(bytes: &[u8], options: &ConvertOptions) -> (r: Result<String, ConvertError>)
    ensures
        match r {
            Ok(md) => bytes_outcome(bytes@, options.keep_toc) == Ok::<_, ConvertError>(md@),
            Err(e) => bytes_outcome(bytes@, options.keep_toc) == Err::<Seq<char>, _>(e),
        },
{
    let mut docx = match archive::open_archive(bytes) {
        Ok(docx) => docx,
        Err(e) => {
            return Err(ConvertError::Archive(e));
        },
    };
    let document = archive::read_entry(&mut docx, "word/document.xml");
    let numbering = archive::read_entry(&mut docx, "word/numbering.xml");
    let styles = archive::read_entry(&mut docx, "word/styles.xml");
    convert_entries(document, styles, numbering, options)
}

/// What an error says of itself. That a document cannot be read as text is left
/// to the error of the stream to say.
pub open spec fn error_message(e: ConvertError) -> Option<Seq<char>> {
    match e {
        ConvertError::Archive(_) => Some("无法作为 zip 打开 DOCX"@),
        ConvertError::MissingDocument(_) => Some("DOCX 中缺少 word/document.xml"@),
        ConvertError::UnreadableDocument(_) => None,
        ConvertError::MalformedDocument(_) => Some("document.xml 解析失败"@),
        ConvertError::NoBody => Some("document.xml 中没有 body"@),
    }
}

impl ConvertError {
    /// What went wrong, for people to read; the cause, where there is one, is in
    /// the error itself.
    pub fn message(&self) -> (r: Option<String>)
        ensures
            xml::opt_view(r) == error_message(*self),
    {
        match self {
            ConvertError::Archive(_) => Some("无法作为 zip 打开 DOCX".to_owned()),
            ConvertError::MissingDocument(_) => Some("DOCX 中缺少 word/document.xml".to_owned()),
            ConvertError::UnreadableDocument(_) => None,
            ConvertError::MalformedDocument(_) => Some("document.xml 解析失败".to_owned()),
            ConvertError::NoBody => Some("document.xml 中没有 body".to_owned()),
        }
    }
}

// ---------------------------------------------------------------------------
// What holds of every document
// ---------------------------------------------------------------------------

/// By default a paragraph of a table of contents is left out, and it is not
/// counted.
pub proof fn toc_is_left_out(d: DocView, i: int, counters: Map<Seq<char>, Seq<u32>>)
    requires
        !d.keep_toc,
        is_toc(d.styles, paragraph::style_of(d.nodes, i)),
    ensures
        paragraph_block(d, i, counters).md == Seq::<char>::empty(),
        paragraph_block(d, i, counters).counters == counters,
{
}

/// Where the table of contents is kept, its styles are styles like any other: a
/// document is converted as if none of them were one of a table of contents.
pub proof fn kept_toc_is_like_any_text(d: DocView)
    requires
        d.keep_toc,
    ensures
        markdown_of(d) == markdown_of(
            DocView {
                styles: styles::StylesView { toc: Seq::empty(), ..d.styles },
                keep_toc: false,
                ..d
            },
        ),
{
    let plain = DocView {
        styles: styles::StylesView { toc: Seq::empty(), ..d.styles },
        keep_toc: false,
        ..d
    };
    match first_tagged(d.nodes, 0, "body"@) {
        Some(body) => kept_toc_blocks(d, plain, xml::children_of(d.nodes, body), Map::empty()),
        None => {},
    }
}

proof fn kept_toc_blocks(
    d: DocView,
    plain: DocView,
    nodes: Seq<int>,
    counters: Map<Seq<char>, Seq<u32>>,
)
    requires
        d.keep_toc,
        plain == (DocView {
            styles: styles::StylesView { toc: Seq::empty(), ..d.styles },
            keep_toc: false,
            ..d
        }),
    ensures
        blocks(d, nodes, counters) == blocks(plain, nodes, counters),
    decreases nodes.len(),
{
    if nodes.len() > 0 {
        kept_toc_blocks(d, plain, nodes.drop_last(), counters);
        let i = nodes.last();
        assert(paragraph::numpr_of(d.nodes, i, d.styles) == paragraph::numpr_of(
            d.nodes,
            i,
            plain.styles,
        ));
        let before = blocks(d, nodes.drop_last(), counters).counters;
        assert(paragraph_block(d, i, before) == paragraph_block(plain, i, before));
    }
}

/// An empty paragraph leaves no trace: it adds nothing and is not counted.
pub proof fn empty_paragraph_leaves_no_trace(
    d: DocView,
    i: int,
    counters: Map<Seq<char>, Seq<u32>>,
)
    requires
        paragraph::text_of(d.nodes, i).len() == 0,
    ensures
        paragraph_block(d, i, counters).md == Seq::<char>::empty(),
        paragraph_block(d, i, counters).counters == counters,
{
}

/// The text of every other paragraph stands in the Markdown text, whole and
/// unchanged, and nothing but line ends follows it.
pub proof fn paragraph_text_is_kept(d: DocView, i: int, counters: Map<Seq<char>, Seq<u32>>)
    requires
        paragraph::text_of(d.nodes, i).len() > 0,
        d.keep_toc || !is_toc(d.styles, paragraph::style_of(d.nodes, i)),
    ensures
        exists|before: Seq<char>, after: Seq<char>|
            #![trigger before + paragraph::text_of(d.nodes, i) + after]
            {
                &&& paragraph_block(d, i, counters).md == before + paragraph::text_of(d.nodes, i)
                    + after
                &&& after == "\n"@ || after == "\n\n"@
            },
{
    let body = paragraph::text_of(d.nodes, i);
    let md = paragraph_block(d, i, counters).md;
    let numpr = paragraph::numpr_of(d.nodes, i, d.styles);
    let after = if heading_of(d.styles, numpr.style) is None && numpr.num_id is Some {
        "\n"@
    } else {
        "\n\n"@
    };
    let before = md.take(md.len() - body.len() - after.len());
    assert(md == before + body + after);
}

/// The label of a paragraph: that of its list item; none where it is in no list or
/// is a bullet.
pub open spec fn label_of(
    d: DocView,
    i: int,
    counters: Map<Seq<char>, Seq<u32>>,
) -> Option<Seq<char>> {
    let numpr = paragraph::numpr_of(d.nodes, i, d.styles);
    match numpr.num_id {
        Some(id) => counters::label(d.numbering, counters, id, numpr.ilvl),
        None => None,
    }
}

/// A paragraph of a heading style becomes a heading of that level, at most the
/// sixth. Its number comes before the text, where it has one that is no bullet and
/// not empty.
#[verifier::spinoff_prover]
pub proof fn heading_style_makes_a_heading(
    d: DocView,
    i: int,
    counters: Map<Seq<char>, Seq<u32>>,
    level: u32,
)
    requires
        paragraph::text_of(d.nodes, i).len() > 0,
        d.keep_toc || !is_toc(d.styles, paragraph::style_of(d.nodes, i)),
        heading_of(d.styles, paragraph::style_of(d.nodes, i)) == Some(level),
    ensures
        ({
            let md = paragraph_block(d, i, counters).md;
            let body = paragraph::text_of(d.nodes, i);
            let n = if level < 6 {
                level as int
            } else {
                6
            };
            &&& md.len() > n
            &&& forall|k: int| 0 <= k < n ==> #[trigger] md[k] == '#'
            &&& md[n] == ' '
            &&& match label_of(d, i, counters) {
                Some(number) => if number.len() > 0 {
                    md.skip(n + 1) == number + " "@ + body + "\n\n"@
                } else {
                    md.skip(n + 1) == body + "\n\n"@
                },
                None => md.skip(n + 1) == body + "\n\n"@,
            }
        }),
{
    let n: nat = if level < 6 {
        level as nat
    } else {
        6
    };
    let md = paragraph_block(d, i, counters).md;
    reveal_strlit("#");
    reveal_strlit(" ");
    assert("#"@ == seq!['#']);
    text::repeated_char('#', n);
    let body = paragraph::text_of(d.nodes, i);
    let rest = md.skip((n + 1) as int);
    match label_of(d, i, counters) {
        Some(number) => if number.len() > 0 {
            assert(rest == number + " "@ + body + "\n\n"@);
        } else {
            assert(rest == body + "\n\n"@);
        },
        None => {
            assert(rest == body + "\n\n"@);
        },
    }
}

/// A paragraph that is taken out of its list by a `numId` of zero, and that is no
/// heading, becomes plain text and counts nothing.
pub proof fn cancelled_numbering_makes_plain_text(
    d: DocView,
    i: int,
    counters: Map<Seq<char>, Seq<u32>>,
)
    requires
        paragraph::own_num_id(d.nodes, i) == Some("0"@),
        paragraph::text_of(d.nodes, i).len() > 0,
        d.keep_toc || !is_toc(d.styles, paragraph::style_of(d.nodes, i)),
        heading_of(d.styles, paragraph::style_of(d.nodes, i)) is None,
    ensures
        paragraph_block(d, i, counters).md == paragraph::text_of(d.nodes, i) + "\n\n"@,
        paragraph_block(d, i, counters).counters == counters,
{
}

/// A paragraph of a list that is no heading becomes an item of that list: indented
/// by two spaces for each level, with its number, or with a dash where it is a
/// bullet; and it is counted.
#[verifier::spinoff_prover]
pub proof fn list_paragraph_makes_an_item(
    d: DocView,
    i: int,
    counters: Map<Seq<char>, Seq<u32>>,
    num_id: Seq<char>,
    ilvl: u32,
)
    requires
        paragraph::text_of(d.nodes, i).len() > 0,
        d.keep_toc || !is_toc(d.styles, paragraph::style_of(d.nodes, i)),
        heading_of(d.styles, paragraph::style_of(d.nodes, i)) is None,
        paragraph::numpr_of(d.nodes, i, d.styles).num_id == Some(num_id),
        paragraph::numpr_of(d.nodes, i, d.styles).ilvl == ilvl,
    ensures
        ({
            let md = paragraph_block(d, i, counters).md;
            let body = paragraph::text_of(d.nodes, i);
            &&& md.len() > 2 * ilvl
            &&& forall|k: int| 0 <= k < 2 * ilvl ==> #[trigger] md[k] == ' '
            &&& match counters::label(d.numbering, counters, num_id, ilvl) {
                Some(number) => md.skip(2 * ilvl) == number + " "@ + body + "\n"@,
                None => md.skip(2 * ilvl) == "- "@ + body + "\n"@,
            }
        }),
        paragraph_block(d, i, counters).counters == counters::counted(
            d.numbering,
            counters,
            num_id,
            ilvl,
        ),
{
    item_text_is_indented(
        ilvl,
        counters::label(d.numbering, counters, num_id, ilvl),
        paragraph::text_of(d.nodes, i),
    );
}

proof fn item_text_is_indented(ilvl: u32, label: Option<Seq<char>>, body: Seq<char>)
    ensures
        ({
            let md = item_text(ilvl, label, body);
            &&& md.len() > 2 * ilvl
            &&& forall|k: int| 0 <= k < 2 * ilvl ==> #[trigger] md[k] == ' '
            &&& match label {
                Some(number) => md.skip(2 * ilvl) == number + " "@ + body + "\n"@,
                None => md.skip(2 * ilvl) == "- "@ + body + "\n"@,
            }
        }),
{
    let indent = text::repeated("  "@, ilvl as nat);
    let rest = match label {
        Some(number) => number + " "@ + body + "\n"@,
        None => "- "@ + body + "\n"@,
    };
    let md = item_text(ilvl, label, body);
    reveal_strlit("\n");
    spaces_in_pairs(ilvl as nat);
    assert(md == indent + rest);
    assert(md.skip(2 * ilvl) == rest);
}

proof fn spaces_in_pairs(n: nat)
    ensures
        text::repeated("  "@, n) == Seq::new(2 * n, |k: int| ' '),
    decreases n,
{
    reveal_strlit("  ");
    if n > 0 {
        spaces_in_pairs((n - 1) as nat);
    }
    assert(text::repeated("  "@, n) == Seq::new(2 * n, |k: int| ' '));
}

/// A table counts nothing, so that a list goes on after it.
pub proof fn tables_do_not_count(d: DocView, i: int, counters: Map<Seq<char>, Seq<u32>>)
    requires
        d.nodes[i].tag == "tbl"@,
    ensures
        block(d, i, counters).counters == counters,
{
    reveal_strlit("tbl");
    reveal_strlit("p");
    assert("tbl"@.len() != "p"@.len());
}

/// A document is converted block by block, in order: what comes first does not
/// depend on what follows, and what follows depends on what came first through the
/// counters alone.
pub proof fn conversion_goes_block_by_block(
    d: DocView,
    first: Seq<int>,
    then: Seq<int>,
    counters: Map<Seq<char>, Seq<u32>>,
)
    ensures
        ({
            let head = blocks(d, first, counters);
            let tail = blocks(d, then, head.counters);
            let whole = blocks(d, first + then, counters);
            whole.md == head.md + tail.md && whole.counters == tail.counters
        }),
    decreases then.len(),
{
    let head = blocks(d, first, counters);
    if then.len() == 0 {
        assert(first + then == first);
        assert(head.md + Seq::<char>::empty() == head.md);
    } else {
        conversion_goes_block_by_block(d, first, then.drop_last(), counters);
        assert((first + then).drop_last() == first + then.drop_last());
        let some = blocks(d, then.drop_last(), head.counters);
        let last = block(d, then.last(), some.counters);
        assert(head.md + (some.md + last.md) == head.md + some.md + last.md);
    }
}

/// Whether a node of the body is skipped: a node other than a paragraph or a table;
/// a paragraph without text; a table without rows; and, unless the table of contents
/// is kept, a paragraph of it.
pub open spec fn is_skipped(d: DocView, i: int) -> bool {
    if d.nodes[i].is_element && d.nodes[i].tag == "tbl"@ {
        table::rows_of(d.nodes, i).len() == 0
    } else if d.nodes[i].is_element && d.nodes[i].tag == "p"@ {
        paragraph::text_of(d.nodes, i).len() == 0 || (!d.keep_toc && is_toc(
            d.styles,
            paragraph::style_of(d.nodes, i),
        ))
    } else {
        true
    }
}

/// Those of some nodes that are not skipped.
pub open spec fn not_skipped(d: DocView, nodes: Seq<int>) -> Seq<int>
    decreases nodes.len(),
{
    if nodes.len() == 0 {
        Seq::empty()
    } else if is_skipped(d, nodes.last()) {
        not_skipped(d, nodes.drop_last())
    } else {
        not_skipped(d, nodes.drop_last()).push(nodes.last())
    }
}

/// Skipped nodes leave no trace: without them the others contribute the same.
pub proof fn skipped_nodes_leave_no_trace(
    d: DocView,
    nodes: Seq<int>,
    counters: Map<Seq<char>, Seq<u32>>,
)
    ensures
        blocks(d, not_skipped(d, nodes), counters) == blocks(d, nodes, counters),
    decreases nodes.len(),
{
    if nodes.len() > 0 {
        let some = nodes.drop_last();
        let before = blocks(d, some, counters);
        skipped_nodes_leave_no_trace(d, some, counters);
        if is_skipped(d, nodes.last()) {
            assert(block(d, nodes.last(), before.counters).md == Seq::<char>::empty());
            assert(before.md + Seq::<char>::empty() == before.md);
        } else {
            assert(not_skipped(d, nodes).drop_last() == not_skipped(d, some));
        }
    }
}

#[verifier::rlimit(40)]
#[verifier::spinoff_prover]
proof fn same_node_contributes_the_same(
    d: DocView,
    i: int,
    e: DocView,
    j: int,
    counters: Map<Seq<char>, Seq<u32>>,
)
    requires
        xml::well_formed(d.nodes),
        xml::well_formed(e.nodes),
        e == (DocView { nodes: e.nodes, ..d }),
        subtree::same_subtree(d.nodes, i, e.nodes, j),
    ensures
        block(d, i, counters) == block(e, j, counters),
{
    subtree::same_nodes(d.nodes, i, e.nodes, j, 0);
    table::same_tables_read_the_same(d.nodes, i, e.nodes, j);
    paragraph::same_paragraphs_read_the_same(d.nodes, i, e.nodes, j, d.styles);
}

/// Nodes with the same subtrees contribute the same, in whatever document they stand.
#[verifier::spinoff_prover]
pub proof fn same_nodes_contribute_the_same(
    d: DocView,
    nodes: Seq<int>,
    e: DocView,
    others: Seq<int>,
    counters: Map<Seq<char>, Seq<u32>>,
)
    requires
        xml::well_formed(d.nodes),
        xml::well_formed(e.nodes),
        e == (DocView { nodes: e.nodes, ..d }),
        subtree::alike(d.nodes, nodes, e.nodes, others),
    ensures
        blocks(d, nodes, counters) == blocks(e, others, counters),
    decreases nodes.len(),
{
    if nodes.len() > 0 {
        let n = nodes.len() - 1;
        let i = nodes[n];
        let j = others[n];
        let some = nodes.drop_last();
        let more = others.drop_last();
        assert forall|k: int| 0 <= k < some.len() implies subtree::same_subtree(
            d.nodes,
            some[k],
            e.nodes,
            more[k],
        ) by {
            assert(some[k] == nodes[k]);
        }
        same_nodes_contribute_the_same(d, some, e, more, counters);
        assert(subtree::same_subtree(d.nodes, i, e.nodes, j));
        same_node_contributes_the_same(d, i, e, j, blocks(d, some, counters).counters);
    }
}

/// Two documents whose bodies differ in skipped nodes alone, with the same styles, list
/// definitions and options, give the same Markdown text.
pub proof fn skipped_elements_can_be_left_out(d: DocView, body: int, e: DocView, other: int)
    requires
        xml::well_formed(d.nodes),
        xml::well_formed(e.nodes),
        e == (DocView { nodes: e.nodes, ..d }),
        first_tagged(d.nodes, 0, "body"@) == Some(body),
        first_tagged(e.nodes, 0, "body"@) == Some(other),
        subtree::alike(
            d.nodes,
            not_skipped(d, xml::children_of(d.nodes, body)),
            e.nodes,
            not_skipped(e, xml::children_of(e.nodes, other)),
        ),
    ensures
        markdown_of(d) == markdown_of(e),
{
    let nodes = xml::children_of(d.nodes, body);
    let others = xml::children_of(e.nodes, other);
    skipped_nodes_leave_no_trace(d, nodes, Map::empty());
    skipped_nodes_leave_no_trace(e, others, Map::empty());
    same_nodes_contribute_the_same(
        d,
        not_skipped(d, nodes),
        e,
        not_skipped(e, others),
        Map::empty(),
    );
}

/// Whether a body, the children of node `longer` of one document, starts with the same
/// children as another, those of node `body`.
pub open spec fn body_starts_with(d: DocView, body: int, e: DocView, longer: int) -> bool {
    let nodes = xml::children_of(d.nodes, body);
    let all = xml::children_of(e.nodes, longer);
    nodes.len() <= all.len() && subtree::alike(
        d.nodes,
        nodes,
        e.nodes,
        all.take(nodes.len() as int),
    )
}

/// Appending to a body only appends to the Markdown text.
#[verifier::rlimit(40)]
#[verifier::spinoff_prover]
pub proof fn appending_to_a_body_appends(d: DocView, body: int, e: DocView, longer: int)
    requires
        xml::well_formed(d.nodes),
        xml::well_formed(e.nodes),
        e == (DocView { nodes: e.nodes, ..d }),
        first_tagged(d.nodes, 0, "body"@) == Some(body),
        first_tagged(e.nodes, 0, "body"@) == Some(longer),
        body_starts_with(d, body, e, longer),
    ensures
        markdown_of(d) matches Some(md) && markdown_of(e) matches Some(whole) && md.is_prefix_of(
            whole,
        ),
{
    let nodes = xml::children_of(d.nodes, body);
    let all = xml::children_of(e.nodes, longer);
    let n = nodes.len() as int;
    same_nodes_contribute_the_same(d, nodes, e, all.take(n), Map::empty());
    assert(all == all.take(n) + all.skip(n));
    conversion_goes_block_by_block(e, all.take(n), all.skip(n), Map::empty());
    let md = blocks(d, nodes, Map::empty()).md;
    let whole = blocks(e, all, Map::empty()).md;
    assert(md == whole.subrange(0, md.len() as int));
}

/// Whether a node of the body is a paragraph in a list.
pub open spec fn is_numbered(d: DocView, i: int) -> bool {
    &&& d.nodes[i].is_element
    &&& d.nodes[i].tag == "p"@
    &&& paragraph::numpr_of(d.nodes, i, d.styles).num_id is Some
}

#[verifier::spinoff_prover]
proof fn unnumbered_nodes_count_nothing(
    d: DocView,
    nodes: Seq<int>,
    counters: Map<Seq<char>, Seq<u32>>,
)
    requires
        forall|k: int| 0 <= k < nodes.len() ==> !is_numbered(d, #[trigger] nodes[k]),
    ensures
        blocks(d, nodes, counters).counters == counters,
    decreases nodes.len(),
{
    if nodes.len() > 0 {
        let some = nodes.drop_last();
        assert forall|k: int| 0 <= k < some.len() implies !is_numbered(d, #[trigger] some[k]) by {
            assert(some[k] == nodes[k]);
        }
        unnumbered_nodes_count_nothing(d, some, counters);
        assert(!is_numbered(d, nodes[nodes.len() - 1]));
    }
}

/// Where the first part of a body has no paragraph in a list, the Markdown text is that
/// of the first part, converted on its own, followed by that of the rest, converted on
/// its own.
#[verifier::rlimit(40)]
#[verifier::spinoff_prover]
pub proof fn unnumbered_beginning_adds_up(
    d: DocView,
    body: int,
    rest: DocView,
    rest_body: int,
    e: DocView,
    whole_body: int,
)
    requires
        xml::well_formed(d.nodes),
        xml::well_formed(rest.nodes),
        xml::well_formed(e.nodes),
        rest == (DocView { nodes: rest.nodes, ..d }),
        e == (DocView { nodes: e.nodes, ..d }),
        first_tagged(d.nodes, 0, "body"@) == Some(body),
        first_tagged(rest.nodes, 0, "body"@) == Some(rest_body),
        first_tagged(e.nodes, 0, "body"@) == Some(whole_body),
        body_starts_with(d, body, e, whole_body),
        subtree::alike(
            rest.nodes,
            xml::children_of(rest.nodes, rest_body),
            e.nodes,
            xml::children_of(e.nodes, whole_body).skip(
                xml::children_of(d.nodes, body).len() as int,
            ),
        ),
        forall|k: int|
            0 <= k < xml::children_of(d.nodes, body).len() ==> !is_numbered(
                d,
                #[trigger] xml::children_of(d.nodes, body)[k],
            ),
    ensures
        markdown_of(d) matches Some(first) && markdown_of(rest) matches Some(second)
            && markdown_of(e) == Some(first + second),
{
    let nodes = xml::children_of(d.nodes, body);
    let all = xml::children_of(e.nodes, whole_body);
    let n = nodes.len() as int;
    let more = xml::children_of(rest.nodes, rest_body);
    same_nodes_contribute_the_same(d, nodes, e, all.take(n), Map::empty());
    same_nodes_contribute_the_same(rest, more, e, all.skip(n), Map::empty());
    unnumbered_nodes_count_nothing(d, nodes, Map::empty());
    assert(all == all.take(n) + all.skip(n));
    conversion_goes_block_by_block(e, all.take(n), all.skip(n), Map::empty());
}

/// Styles or list definitions that are missing from an archive, or cannot be read,
/// are the same as empty ones; only the document itself has to be there.
pub proof fn only_the_document_has_to_be_there(
    bytes: Seq<u8>,
    keep_toc: bool,
    entries: Map<Seq<char>, archive::EntryText>,
    document_xml: Seq<char>,
)
    requires
        archive::opened(bytes) == Ok::<_, ZipError>(entries),
        entries["word/document.xml"@] == Ok::<_, ZipError>(Ok::<_, std::io::Error>(document_xml)),
    ensures
        bytes_outcome(bytes, keep_toc) == xml_outcome(
            document_xml,
            (match entries["word/styles.xml"@] {
                Ok(Ok(styles_xml)) => styles_xml,
                _ => Seq::empty(),
            }),
            (match entries["word/numbering.xml"@] {
                Ok(Ok(numbering_xml)) => numbering_xml,
                _ => Seq::empty(),
            }),
            keep_toc,
        ),
{
}

/// A conversion from the texts of the parts succeeds exactly where the document is
/// XML and has a body; styles and list definitions never make it fail.
pub proof fn success_depends_on_the_document_alone(
    document_xml: Seq<char>,
    styles_xml: Seq<char>,
    numbering_xml: Seq<char>,
    keep_toc: bool,
)
    ensures
        xml_outcome(document_xml, styles_xml, numbering_xml, keep_toc) is Ok <==> (
        xml::parsed_xml(document_xml) matches Ok(nodes) && exists|i: int|
            0 <= i < nodes.len() && (#[trigger] nodes[i]).tag == "body"@),
{
    match xml::parsed_xml(document_xml) {
        Ok(nodes) => first_tagged_finds(nodes, 0, "body"@),
        Err(_) => {},
    }
}

proof fn first_tagged_finds(t: Seq<xml::NodeView>, i: int, name: Seq<char>)
    requires
        0 <= i <= t.len(),
    ensures
        first_tagged(t, i, name) is Some <==> exists|j: int|
            i <= j < t.len() && (#[trigger] t[j]).tag == name,
    decreases t.len() - i,
{
    if i < t.len() {
        first_tagged_finds(t, i + 1, name);
    }
}

// ---------------------------------------------------------------------------
// What becomes of each part of a document
// ---------------------------------------------------------------------------

/// A style is one of a table of contents exactly where it is in the list of those styles,
/// wherever in that list; and it stands for a heading exactly where it has a level, which
/// is that of the heading.
pub proof fn styles_decide_by_id(st: styles::StylesView, id: Seq<char>)
    ensures
        is_toc(st, Some(id)) <==> exists|k: int|
            0 <= k < st.toc.len() && #[trigger] st.toc[k] == id,
        !is_toc(st, None),
        st.headings.contains_key(id) ==> heading_of(st, Some(id)) == Some(st.headings[id]),
        !st.headings.contains_key(id) ==> heading_of(st, Some(id)) is None,
        heading_of(st, None) is None,
{
}

/// A paragraph is left out, and not counted, where any element of the styles gives its
/// style a name that starts with `toc`, unless the table of contents is kept.
pub proof fn paragraphs_of_toc_styles_are_left_out(
    d: DocView,
    i: int,
    counters: Map<Seq<char>, Seq<u32>>,
    t: Seq<xml::NodeView>,
    j: int,
    id: Seq<char>,
)
    requires
        d.styles == styles::styles_of(t),
        !d.keep_toc,
        xml::val_at(d.nodes, i, seq!["pPr"@, "pStyle"@]) == Some(id),
        0 <= j < t.len(),
        t[j].tag == "style"@,
        xml::attr_of(t, j, "styleId"@) == Some(id),
        "toc"@.is_prefix_of(styles::style_name_of(t, j)),
    ensures
        paragraph_block(d, i, counters).md.len() == 0,
        paragraph_block(d, i, counters).counters == counters,
{
    styles::toc_styles_come_from_style_names(t, id);
    assert(styles::defines_toc(t, j, id));
}

/// A paragraph with text is never left out where no element of the styles gives its style a
/// name that starts with `toc`, or where the table of contents is kept.
pub proof fn other_paragraphs_are_not_left_out(
    d: DocView,
    i: int,
    counters: Map<Seq<char>, Seq<u32>>,
    t: Seq<xml::NodeView>,
)
    requires
        d.styles == styles::styles_of(t),
        paragraph::text_of(d.nodes, i).len() > 0,
        d.keep_toc || forall|j: int|
            0 <= j < t.len() && (#[trigger] t[j]).tag == "style"@ && xml::attr_of(t, j, "styleId"@)
                is Some && xml::attr_of(t, j, "styleId"@) == xml::val_at(
                d.nodes,
                i,
                seq!["pPr"@, "pStyle"@],
            ) ==> !"toc"@.is_prefix_of(styles::style_name_of(t, j)),
    ensures
        exists|before: Seq<char>, after: Seq<char>|
            #![trigger before + paragraph::text_of(d.nodes, i) + after]
            {
                &&& paragraph_block(d, i, counters).md == before + paragraph::text_of(d.nodes, i)
                    + after
                &&& after == "\n"@ || after == "\n\n"@
            },
{
    match paragraph::style_of(d.nodes, i) {
        Some(id) => {
            if !d.keep_toc {
                styles::toc_styles_come_from_style_names(t, id);
                assert forall|j: int| !styles::defines_toc(t, j, id) by {
                    if 0 <= j < t.len() {
                        assert(t[j].tag == "style"@ || t[j].tag != "style"@);
                    }
                }
            }
        },
        None => {},
    }
    paragraph_text_is_kept(d, i, counters);
}

/// A heading is counted where it is in a list, and its label is that of the list.
pub proof fn headings_are_counted(
    d: DocView,
    i: int,
    counters: Map<Seq<char>, Seq<u32>>,
    level: u32,
)
    requires
        paragraph::text_of(d.nodes, i).len() > 0,
        d.keep_toc || !is_toc(d.styles, paragraph::style_of(d.nodes, i)),
        heading_of(d.styles, paragraph::style_of(d.nodes, i)) == Some(level),
    ensures
        ({
            let numpr = paragraph::numpr_of(d.nodes, i, d.styles);
            match numpr.num_id {
                Some(id) => {
                    &&& paragraph_block(d, i, counters).counters == counters::counted(
                        d.numbering,
                        counters,
                        id,
                        numpr.ilvl,
                    )
                    &&& label_of(d, i, counters) == counters::label(
                        d.numbering,
                        counters,
                        id,
                        numpr.ilvl,
                    )
                },
                None => {
                    &&& paragraph_block(d, i, counters).counters == counters
                    &&& label_of(d, i, counters) is None
                },
            }
        }),
{
}

/// A paragraph that is in no list and no heading is its text and an empty line, and counts
/// nothing.
pub proof fn other_paragraphs_are_plain_text(
    d: DocView,
    i: int,
    counters: Map<Seq<char>, Seq<u32>>,
)
    requires
        paragraph::text_of(d.nodes, i).len() > 0,
        d.keep_toc || !is_toc(d.styles, paragraph::style_of(d.nodes, i)),
        heading_of(d.styles, paragraph::style_of(d.nodes, i)) is None,
        paragraph::numpr_of(d.nodes, i, d.styles).num_id is None,
    ensures
        paragraph_block(d, i, counters).md == paragraph::text_of(d.nodes, i) + seq!['\n', '\n'],
        paragraph_block(d, i, counters).counters == counters,
{
    reveal_strlit("\n\n");
    assert("\n\n"@ == seq!['\n', '\n']);
}

/// Of the nodes of a body only elements named `tbl` and `p` contribute: a table with rows
/// its lines and an empty line; a table without rows nothing; and a paragraph what it is.
pub proof fn blocks_are_tables_and_paragraphs(
    d: DocView,
    i: int,
    counters: Map<Seq<char>, Seq<u32>>,
)
    ensures
        ({
            let node = d.nodes[i];
            let rows = table::rows_of(d.nodes, i);
            let part = block(d, i, counters);
            &&& node.is_element && node.tag == "tbl"@ && rows.len() > 0 ==> part.md
                == table::table_text(rows) + seq!['\n', '\n'] && part.counters == counters
            &&& node.is_element && node.tag == "tbl"@ && rows.len() == 0 ==> part.md.len() == 0
                && part.counters == counters
            &&& node.is_element && node.tag == "p"@ ==> part == paragraph_block(d, i, counters)
            &&& !node.is_element || (node.tag != "tbl"@ && node.tag != "p"@) ==> part.md.len() == 0
                && part.counters == counters
        }),
{
    reveal_strlit("\n\n");
    reveal_strlit("tbl");
    reveal_strlit("p");
    assert("\n\n"@ == seq!['\n', '\n']);
    assert("tbl"@.len() != "p"@.len());
    let rows = table::rows_of(d.nodes, i);
    table::width_is_that_of_the_longest_row(rows);
    table::tables_are_written_line_by_line(rows, table::width_of(rows));
}

/// One node contributes what it is, and none contribute nothing.
pub proof fn single_blocks_stand_for_themselves(
    d: DocView,
    i: int,
    counters: Map<Seq<char>, Seq<u32>>,
)
    ensures
        blocks(d, Seq::empty(), counters).md.len() == 0,
        blocks(d, Seq::empty(), counters).counters == counters,
        blocks(d, seq![i], counters).md == block(d, i, counters).md,
        blocks(d, seq![i], counters).counters == block(d, i, counters).counters,
{
    let one = seq![i];
    assert(one.drop_last() == Seq::<int>::empty());
    assert(Seq::<char>::empty() + block(d, i, counters).md == block(d, i, counters).md);
}

/// The Markdown text of a document is what the children of the first node named `body`
/// contribute, from no counters on; a document without such a node has none.
pub proof fn first_body_is_converted(d: DocView, body: int)
    ensures
        0 <= body < d.nodes.len() && d.nodes[body].tag == "body"@ && (forall|k: int|
            0 <= k < body ==> (#[trigger] d.nodes[k]).tag != "body"@) ==> markdown_of(d) == Some(
            blocks(d, xml::children_of(d.nodes, body), Map::empty()).md,
        ),
        (forall|k: int| 0 <= k < d.nodes.len() ==> (#[trigger] d.nodes[k]).tag != "body"@)
            ==> markdown_of(d) is None,
{
    first_tagged_is_first(d.nodes, 0, body, "body"@);
}

proof fn first_tagged_is_first(t: Seq<xml::NodeView>, i: int, k: int, name: Seq<char>)
    requires
        0 <= i <= t.len(),
    ensures
        i <= k < t.len() && t[k].tag == name && (forall|j: int|
            i <= j < k ==> (#[trigger] t[j]).tag != name) ==> first_tagged(t, i, name) == Some(k),
        (forall|j: int| i <= j < t.len() ==> (#[trigger] t[j]).tag != name) ==> first_tagged(
            t,
            i,
            name,
        ) is None,
    decreases t.len() - i,
{
    if i < t.len() {
        first_tagged_is_first(t, i + 1, k, name);
    }
}

/// A conversion from texts gives the Markdown text of the document with the styles and list
/// definitions of the other two; it fails with the error of the parser where the document
/// is no XML, and for want of a body where it has none.
pub proof fn texts_are_converted_or_refused(
    document_xml: Seq<char>,
    styles_xml: Seq<char>,
    numbering_xml: Seq<char>,
    keep_toc: bool,
)
    ensures
        match xml::parsed_xml(document_xml) {
            Err(e) => xml_outcome(document_xml, styles_xml, numbering_xml, keep_toc) == Err::<
                Seq<char>,
                _,
            >(ConvertError::MalformedDocument(e)),
            Ok(nodes) => {
                let md = markdown_of(
                    DocView {
                        nodes,
                        styles: styles::styles_in(styles_xml),
                        numbering: numbering::numbering_in(numbering_xml),
                        keep_toc,
                    },
                );
                &&& md is Some ==> xml_outcome(document_xml, styles_xml, numbering_xml, keep_toc)
                    == Ok::<_, ConvertError>(md->0)
                &&& md is None ==> xml_outcome(document_xml, styles_xml, numbering_xml, keep_toc)
                    == Err::<Seq<char>, _>(ConvertError::NoBody)
            },
        },
{
}

/// A conversion from bytes fails with the error of the archive where they are none, and with
/// the error of the document's entry where that cannot be opened or read; each of these
/// errors is told apart.
pub proof fn bytes_are_refused_with_their_error(bytes: Seq<u8>, keep_toc: bool)
    ensures
        match archive::opened(bytes) {
            Err(e) => bytes_outcome(bytes, keep_toc) == Err::<Seq<char>, _>(
                ConvertError::Archive(e),
            ),
            Ok(entries) => match entries["word/document.xml"@] {
                Err(e) => bytes_outcome(bytes, keep_toc) == Err::<Seq<char>, _>(
                    ConvertError::MissingDocument(e),
                ),
                Ok(Err(e)) => bytes_outcome(bytes, keep_toc) == Err::<Seq<char>, _>(
                    ConvertError::UnreadableDocument(e),
                ),
                Ok(Ok(document_xml)) => bytes_outcome(bytes, keep_toc) == xml_outcome(
                    document_xml,
                    (match entries["word/styles.xml"@] {
                        Ok(Ok(styles_xml)) => styles_xml,
                        _ => Seq::empty(),
                    }),
                    (match entries["word/numbering.xml"@] {
                        Ok(Ok(numbering_xml)) => numbering_xml,
                        _ => Seq::empty(),
                    }),
                    keep_toc,
                ),
            },
        },
{
}

/// A conversion from entries fails with the error of the document's entry, and takes styles
/// and list definitions that cannot be read for empty.
pub proof fn entries_are_converted_or_refused(
    document: archive::EntryText,
    styles: archive::EntryText,
    numbering: archive::EntryText,
    keep_toc: bool,
)
    ensures
        match document {
            Err(e) => entries_outcome(document, styles, numbering, keep_toc) == Err::<
                Seq<char>,
                _,
            >(ConvertError::MissingDocument(e)),
            Ok(Err(e)) => entries_outcome(document, styles, numbering, keep_toc) == Err::<
                Seq<char>,
                _,
            >(ConvertError::UnreadableDocument(e)),
            Ok(Ok(document_xml)) => entries_outcome(document, styles, numbering, keep_toc)
                == xml_outcome(
                document_xml,
                (match styles {
                    Ok(Ok(styles_xml)) => styles_xml,
                    _ => Seq::empty(),
                }),
                (match numbering {
                    Ok(Ok(numbering_xml)) => numbering_xml,
                    _ => Seq::empty(),
                }),
                keep_toc,
            ),
        },
{
}

/// Each error says what went wrong; only that a document cannot be read is left to its cause.
pub proof fn errors_say_what_went_wrong(e: ConvertError)
    ensures
        e is Archive ==> error_message(e) == Some("无法作为 zip 打开 DOCX"@),
        e is MissingDocument ==> error_message(e) == Some("DOCX 中缺少 word/document.xml"@),
        e is UnreadableDocument ==> error_message(e) is None,
        e is MalformedDocument ==> error_message(e) == Some("document.xml 解析失败"@),
        e is NoBody ==> error_message(e) == Some("document.xml 中没有 body"@),
{
}

/// Which nodes of a body are skipped and which are in a list, told by what they are.
pub proof fn skipped_and_numbered_nodes(d: DocView, i: int)
    ensures
        ({
            let node = d.nodes[i];
            let p = node.is_element && node.tag == "p"@;
            let tbl = node.is_element && node.tag == "tbl"@;
            let style = xml::val_at(d.nodes, i, seq!["pPr"@, "pStyle"@]);
            &&& is_skipped(d, i) <==> (!p && !tbl) || (tbl && table::rows_of(d.nodes, i).len() == 0)
                || (p && paragraph::text_of(d.nodes, i).len() == 0) || (p && !d.keep_toc && style
                is Some && d.styles.toc.contains(style->0))
            &&& is_numbered(d, i) <==> p && paragraph::numpr_of(d.nodes, i, d.styles).num_id is Some
        }),
{
    reveal_strlit("tbl");
    reveal_strlit("p");
    assert("tbl"@.len() != "p"@.len());
}

} // verus!
