//! Tables: the rows and cells of a `tbl` element, as a Markdown table.

use crate::paragraph;
use crate::styles;
use crate::subtree;
use crate::text;
use crate::xml;
use crate::xml::XmlTree;
use vstd::prelude::*;

verus! {

/// Those of some nodes that have that name.
pub open spec fn tagged(t: Seq<xml::NodeView>, nodes: Seq<int>, name: Seq<char>) -> Seq<int>
    decreases nodes.len(),
{
    if nodes.len() == 0 {
        Seq::empty()
    } else if t[nodes.last()].tag == name {
        tagged(t, nodes.drop_last(), name).push(nodes.last())
    } else {
        tagged(t, nodes.drop_last(), name)
    }
}

/// The children of node `i` that have that name.
pub open spec fn children_tagged(t: Seq<xml::NodeView>, i: int, name: Seq<char>) -> Seq<int> {
    tagged(t, xml::children_of(t, i), name)
}

/// The text of a cell with its bars escaped.
pub open spec fn escaped(s: Seq<char>) -> Seq<char> {
    text::replaced(s, seq!['|'], seq!['\\', '|'])
}

/// The content of a cell: the text of its first paragraph.
pub open spec fn cell_of(t: Seq<xml::NodeView>, tc: int) -> Seq<char> {
    let paragraphs = children_tagged(t, tc, "p"@);
    if paragraphs.len() > 0 {
        escaped(paragraph::text_of(t, paragraphs[0]))
    } else {
        Seq::empty()
    }
}

/// The cells of a row.
pub open spec fn cells_of(t: Seq<xml::NodeView>, tr: int) -> Seq<Seq<char>> {
    children_tagged(t, tr, "tc"@).map_values(|tc: int| cell_of(t, tc))
}

/// The rows of a table.
pub open spec fn rows_of(t: Seq<xml::NodeView>, tbl: int) -> Seq<Seq<Seq<char>>> {
    children_tagged(t, tbl, "tr"@).map_values(|tr: int| cells_of(t, tr))
}

/// The number of cells in the longest row.
pub open spec fn width_of(rows: Seq<Seq<Seq<char>>>) -> nat
    decreases rows.len(),
{
    if rows.len() == 0 {
        0
    } else {
        let before = width_of(rows.drop_last());
        if rows.last().len() > before {
            rows.last().len()
        } else {
            before
        }
    }
}

/// A row filled up to the width of its table with empty cells.
pub open spec fn padded(cells: Seq<Seq<char>>, width: nat) -> Seq<Seq<char>> {
    Seq::new(
        width,
        |j: int|
            if j < cells.len() {
                cells[j]
            } else {
                Seq::empty()
            },
    )
}

/// The line of a row.
pub open spec fn row_line(cells: Seq<Seq<char>>, width: nat) -> Seq<char> {
    "| "@ + text::joined(padded(cells, width), " | "@) + " |"@
}

/// The line that sets the head of a table apart.
pub open spec fn rule_line(width: nat) -> Seq<char> {
    text::repeated("|---"@, width) + "|"@
}

/// The lines of a table: the first row, the rule, and the other rows.
pub open spec fn table_lines(rows: Seq<Seq<Seq<char>>>, width: nat) -> Seq<Seq<char>> {
    if rows.len() == 0 {
        Seq::empty()
    } else {
        seq![row_line(rows[0], width), rule_line(width)] + rows.drop_first().map_values(
            |cells: Seq<Seq<char>>| row_line(cells, width),
        )
    }
}

/// A table in Markdown; nothing for a table without rows.
pub open spec fn table_text(rows: Seq<Seq<Seq<char>>>) -> Seq<char> {
    text::joined(table_lines(rows, width_of(rows)), seq!['\n'])
}

pub open spec fn row_view(row: Seq<String>) -> Seq<Seq<char>> {
    row.map_values(|s: String| s@)
}

pub open spec fn rows_view(rows: Seq<Vec<String>>) -> Seq<Seq<Seq<char>>> {
    rows.map_values(|r: Vec<String>| row_view(r@))
}

/// The children of node `i` that have that name.
fn find_tagged(tree: &XmlTree, i: usize, name: &str) -> (r: Vec<usize>)
    requires
        xml::well_formed(tree@),
        i < tree@.len(),
    ensures
        xml::indices(r@) == children_tagged(tree@, i as int, name@),
        forall|k: int| 0 <= k < r@.len() ==> (#[trigger] r@[k]) < tree@.len(),
{
    let nodes = xml::children(tree, i);
    let ghost all = xml::indices(nodes@);
    let mut out: Vec<usize> = Vec::new();
    let mut k: usize = 0;
    assert(xml::indices(out@) == tagged(tree@, all.take(0), name@));
    while k < nodes.len()
        invariant
            all == xml::indices(nodes@),
            k <= nodes@.len(),
            forall|j: int| 0 <= j < nodes@.len() ==> (#[trigger] nodes@[j]) < tree@.len(),
            forall|j: int| 0 <= j < out@.len() ==> (#[trigger] out@[j]) < tree@.len(),
            xml::indices(out@) == tagged(tree@, all.take(k as int), name@),
        decreases nodes@.len() - k,
    {
        let j: usize = nodes[k];
        let ghost before = out@;
        assert(all.take(k + 1).drop_last() == all.take(k as int));
        assert(all.take(k + 1).last() == j);
        if text::same(xml::tag(tree, j), name) {
            out.push(j);
            assert(xml::indices(out@) == xml::indices(before).push(j as int));
        }
        k += 1;
    }
    assert(all.take(nodes@.len() as int) == all);
    out
}

fn read_cell(tree: &XmlTree, tc: usize) -> (r: String)
    requires
        xml::well_formed(tree@),
        tc < tree@.len(),
    ensures
        r@ == cell_of(tree@, tc as int),
{
    let paragraphs = find_tagged(tree, tc, "p");
    if paragraphs.len() == 0 {
        return String::new();
    }
    let p: usize = paragraphs[0];
    assert(xml::indices(paragraphs@)[0] == p);
    let plain = paragraph::para_text(tree, p);
    let mut bar: Vec<char> = Vec::new();
    bar.push('|');
    proof {
        reveal_strlit("\\|");
        assert(bar@ == seq!['|']);
        assert("\\|"@ == seq!['\\', '|']);
    }
    let chars = text::replace(&text::chars_of(plain.as_str()), &bar, "\\|");
    let n: usize = chars.len();
    assert(chars@.subrange(0, n as int) == chars@);
    text::string_of(&chars, 0, n)
}

fn read_row(tree: &XmlTree, tr: usize) -> (r: Vec<String>)
    requires
        xml::well_formed(tree@),
        tr < tree@.len(),
    ensures
        row_view(r@) == cells_of(tree@, tr as int),
{
    let cells = find_tagged(tree, tr, "tc");
    let ghost all = cells_of(tree@, tr as int);
    let mut out: Vec<String> = Vec::new();
    let mut k: usize = 0;
    while k < cells.len()
        invariant
            xml::well_formed(tree@),
            xml::indices(cells@) == children_tagged(tree@, tr as int, "tc"@),
            all == cells_of(tree@, tr as int),
            k <= cells@.len() == all.len(),
            forall|j: int| 0 <= j < cells@.len() ==> (#[trigger] cells@[j]) < tree@.len(),
            row_view(out@) == all.take(k as int),
        decreases cells@.len() - k,
    {
        let ghost before = out@;
        let tc: usize = cells[k];
        assert(xml::indices(cells@)[k as int] == tc);
        let cell = read_cell(tree, tc);
        assert(cell@ == all[k as int]);
        out.push(cell);
        assert(row_view(out@) == row_view(before).push(cell@));
        k += 1;
    }
    assert(all.take(cells@.len() as int) == all);
    out
}

/// Appends the line of a row.
fn push_row(out: &mut String, row: &Vec<String>, width: usize)
    ensures
        final(out)@ == old(out)@ + row_line(row_view(row@), width as nat),
{
    let ghost before = out@;
    let ghost cells = padded(row_view(row@), width as nat);
    out.push_str("| ");
    let mut j: usize = 0;
    assert(out@ == before + ("| "@ + text::joined(cells.take(0), " | "@)));
    while j < width
        invariant
            j <= width,
            cells == padded(row_view(row@), width as nat),
            out@ == before + ("| "@ + text::joined(cells.take(j as int), " | "@)),
        decreases width - j,
    {
        proof {
            text::joined_push(cells.take(j as int), cells[j as int], " | "@);
            assert(cells.take(j as int).push(cells[j as int]) == cells.take(j + 1));
        }
        if j > 0 {
            out.push_str(" | ");
        }
        if j < row.len() {
            assert(cells[j as int] == row@[j as int]@);
            out.push_str(row[j].as_str());
        }
        j += 1;
        assert(out@ == before + ("| "@ + text::joined(cells.take(j as int), " | "@)));
    }
    assert(cells.take(width as int) == cells);
    out.push_str(" |");
    assert(out@ == before + row_line(row_view(row@), width as nat));
}

/// Writes rows of cells as a Markdown table.
pub fn render_table(rows: &Vec<Vec<String>>) -> (r: String)
    ensures
        r@ == table_text(rows_view(rows@)),
{
    let ghost all = rows_view(rows@);
    let mut width: usize = 0;
    let mut i: usize = 0;
    while i < rows.len()
        invariant
            all == rows_view(rows@),
            i <= rows@.len(),
            width == width_of(all.take(i as int)),
        decreases rows@.len() - i,
    {
        assert(all.take(i + 1).drop_last() == all.take(i as int));
        assert(all.take(i + 1).last() == row_view(rows@[i as int]@));
        if rows[i].len() > width {
            width = rows[i].len();
        }
        i += 1;
    }
    assert(all.take(rows@.len() as int) == all);
    let ghost sep = seq!['\n'];
    let mut out = String::new();
    i = 0;
    while i < rows.len()
        invariant
            all == rows_view(rows@),
            sep == seq!['\n'],
            i <= rows@.len(),
            out@ == text::joined(table_lines(all.take(i as int), width as nat), sep),
        decreases rows@.len() - i,
    {
        let ghost before = out@;
        let ghost w = width as nat;
        let ghost done = table_lines(all.take(i as int), w);
        let ghost line = row_line(all[i as int], w);
        assert(all[i as int] == row_view(rows@[i as int]@));
        proof {
            text::joined_push(done, line, sep);
        }
        if i > 0 {
            out.push('\n');
            assert(out@ == before + sep);
        }
        push_row(&mut out, &rows[i], width);
        if i == 0 {
            proof {
                text::joined_push(done.push(line), rule_line(w), sep);
                assert(done.push(line).push(rule_line(w)) == table_lines(all.take(1), w));
            }
            out.push('\n');
            text::push_repeated(&mut out, "|---", width);
            out.push_str("|");
            assert(out@ == line + sep + rule_line(w));
        } else {
            assert(done.push(line) == table_lines(all.take(i + 1), w));
            assert(out@ == before + sep + line);
        }
        i += 1;
    }
    out
}

/// A table in Markdown.
pub fn table_md(tree: &XmlTree, tbl: usize) -> (r: String)
    requires
        xml::well_formed(tree@),
        tbl < tree@.len(),
    ensures
        r@ == table_text(rows_of(tree@, tbl as int)),
{
    let trs = find_tagged(tree, tbl, "tr");
    let ghost all = rows_of(tree@, tbl as int);
    let mut rows: Vec<Vec<String>> = Vec::new();
    let mut k: usize = 0;
    while k < trs.len()
        invariant
            xml::well_formed(tree@),
            xml::indices(trs@) == children_tagged(tree@, tbl as int, "tr"@),
            all == rows_of(tree@, tbl as int),
            k <= trs@.len() == all.len(),
            forall|j: int| 0 <= j < trs@.len() ==> (#[trigger] trs@[j]) < tree@.len(),
            rows_view(rows@) == all.take(k as int),
        decreases trs@.len() - k,
    {
        let ghost before = rows@;
        let tr: usize = trs[k];
        assert(xml::indices(trs@)[k as int] == tr);
        let row = read_row(tree, tr);
        let ghost view = row_view(row@);
        assert(view == all[k as int]);
        rows.push(row);
        assert(rows_view(rows@) == rows_view(before).push(view));
        k += 1;
    }
    assert(all.take(trs@.len() as int) == all);
    render_table(&rows)
}

/// No row is longer than the table is wide, and some row is as long, or the table
/// has no cells.
pub proof fn width_is_that_of_the_longest_row(rows: Seq<Seq<Seq<char>>>)
    ensures
        forall|k: int| 0 <= k < rows.len() ==> (#[trigger] rows[k]).len() <= width_of(rows),
        width_of(rows) == 0 || exists|k: int|
            0 <= k < rows.len() && (#[trigger] rows[k]).len() == width_of(rows),
    decreases rows.len(),
{
    if rows.len() > 0 {
        let some = rows.drop_last();
        width_is_that_of_the_longest_row(some);
        assert forall|k: int| 0 <= k < rows.len() implies (#[trigger] rows[k]).len() <= width_of(
            rows,
        ) by {
            if k < some.len() {
                assert(some[k] == rows[k]);
            }
        }
        if rows.last().len() > width_of(some) {
            assert(rows[rows.len() - 1].len() == width_of(rows));
        } else if width_of(some) > 0 {
            let k = choose|k: int|
                0 <= k < some.len() && (#[trigger] some[k]).len() == width_of(some);
            assert(rows[k].len() == width_of(rows));
        }
    }
}

/// Every row of a table is shown with all of its cells, in order, and with as many
/// cells as the table is wide; those that a row lacks are empty.
pub proof fn rows_keep_their_cells(rows: Seq<Seq<Seq<char>>>, k: int)
    requires
        0 <= k < rows.len(),
    ensures
        ({
            let cells = padded(rows[k], width_of(rows));
            &&& cells.len() == width_of(rows)
            &&& cells.take(rows[k].len() as int) == rows[k]
            &&& forall|j: int|
                rows[k].len() <= j < cells.len() ==> #[trigger] cells[j] == Seq::<char>::empty()
        }),
{
    width_is_that_of_the_longest_row(rows);
    assert(padded(rows[k], width_of(rows)).take(rows[k].len() as int) == rows[k]);
}

/// A table has a line for each row and one more, the rule, which stands second.
pub proof fn table_has_a_line_for_each_row(rows: Seq<Seq<Seq<char>>>, width: nat)
    requires
        rows.len() > 0,
    ensures
        table_lines(rows, width).len() == rows.len() + 1,
        table_lines(rows, width)[0] == row_line(rows[0], width),
        table_lines(rows, width)[1] == rule_line(width),
        forall|k: int|
            1 <= k < rows.len() ==> #[trigger] table_lines(rows, width)[k + 1] == row_line(
                rows[k],
                width,
            ),
{
}

/// A bar in a cell always has a backslash before it, so that it does not end the
/// cell.
pub proof fn bars_in_cells_are_escaped(s: Seq<char>, i: int)
    requires
        0 <= i < escaped(s).len(),
        escaped(s)[i] == '|',
    ensures
        i > 0 && escaped(s)[i - 1] == '\\',
    decreases s.len(),
{
    let bar = seq!['|'];
    if s.len() > 0 {
        assert(s.take(1) == seq![s[0]]);
        let rest = escaped(s.skip(1));
        if s[0] == '|' {
            assert(s.take(1) == bar);
            assert(escaped(s) == seq!['\\', '|'] + rest);
            if i >= 2 {
                bars_in_cells_are_escaped(s.skip(1), i - 2);
            }
        } else {
            assert(s.take(1)[0] != bar[0]);
            assert(escaped(s) == seq![s[0]] + rest);
            if i >= 1 {
                bars_in_cells_are_escaped(s.skip(1), i - 1);
            }
        }
    }
}

proof fn same_tagged(
    t: Seq<xml::NodeView>,
    nodes: Seq<int>,
    u: Seq<xml::NodeView>,
    others: Seq<int>,
    name: Seq<char>,
)
    requires
        xml::well_formed(t),
        xml::well_formed(u),
        subtree::alike(t, nodes, u, others),
    ensures
        subtree::alike(t, tagged(t, nodes, name), u, tagged(u, others, name)),
    decreases nodes.len(),
{
    if nodes.len() > 0 {
        let n = nodes.len() - 1;
        assert(subtree::same_subtree(t, nodes[n], u, others[n]));
        subtree::same_nodes(t, nodes[n], u, others[n], 0);
        let some = nodes.drop_last();
        let more = others.drop_last();
        assert forall|k: int| 0 <= k < some.len() implies subtree::same_subtree(
            t,
            some[k],
            u,
            more[k],
        ) by {
            assert(some[k] == nodes[k]);
        }
        same_tagged(t, some, u, more, name);
    }
}

proof fn same_children_tagged(
    t: Seq<xml::NodeView>,
    i: int,
    u: Seq<xml::NodeView>,
    j: int,
    name: Seq<char>,
)
    requires
        xml::well_formed(t),
        xml::well_formed(u),
        subtree::same_subtree(t, i, u, j),
    ensures
        subtree::alike(t, children_tagged(t, i, name), u, children_tagged(u, j, name)),
{
    subtree::same_children(t, i, u, j);
    same_tagged(t, xml::children_of(t, i), u, xml::children_of(u, j), name);
}

/// The rows of a table depend on the table alone, not on where it stands.
pub proof fn same_tables_read_the_same(
    t: Seq<xml::NodeView>,
    i: int,
    u: Seq<xml::NodeView>,
    j: int,
)
    requires
        xml::well_formed(t),
        xml::well_formed(u),
        subtree::same_subtree(t, i, u, j),
    ensures
        rows_of(t, i) == rows_of(u, j),
{
    let rows = children_tagged(t, i, "tr"@);
    let others = children_tagged(u, j, "tr"@);
    same_children_tagged(t, i, u, j, "tr"@);
    assert forall|k: int| 0 <= k < rows.len() implies cells_of(t, rows[k]) == cells_of(
        u,
        others[k],
    ) by {
        same_cells(t, rows[k], u, others[k]);
    }
    assert(rows_of(t, i) == rows_of(u, j));
}

proof fn same_cells(t: Seq<xml::NodeView>, i: int, u: Seq<xml::NodeView>, j: int)
    requires
        xml::well_formed(t),
        xml::well_formed(u),
        subtree::same_subtree(t, i, u, j),
    ensures
        cells_of(t, i) == cells_of(u, j),
{
    let cells = children_tagged(t, i, "tc"@);
    let others = children_tagged(u, j, "tc"@);
    same_children_tagged(t, i, u, j, "tc"@);
    assert forall|k: int| 0 <= k < cells.len() implies cell_of(t, cells[k]) == cell_of(
        u,
        others[k],
    ) by {
        let a = cells[k];
        let b = others[k];
        same_children_tagged(t, a, u, b, "p"@);
        let paragraphs = children_tagged(t, a, "p"@);
        if paragraphs.len() > 0 {
            paragraph::same_paragraphs_read_the_same(
                t,
                paragraphs[0],
                u,
                children_tagged(u, b, "p"@)[0],
                styles::no_styles(),
            );
        }
    }
    assert(cells_of(t, i) == cells_of(u, j));
}

/// Whether the table has a cell `c` in a row `r`.
pub open spec fn has_cell(t: Seq<xml::NodeView>, tbl: int, r: int, c: int) -> bool {
    let rows = children_tagged(t, tbl, "tr"@);
    0 <= r < rows.len() && 0 <= c < children_tagged(t, rows[r], "tc"@).len()
}

/// The paragraphs of cell `c` in row `r` of the table.
pub open spec fn paragraphs_at(t: Seq<xml::NodeView>, tbl: int, r: int, c: int) -> Seq<int> {
    children_tagged(t, children_tagged(t, children_tagged(t, tbl, "tr"@)[r], "tc"@)[c], "p"@)
}

/// Whether node `i` is a paragraph of a cell of the table, but not its first.
pub open spec fn is_later_paragraph(t: Seq<xml::NodeView>, tbl: int, i: int) -> bool {
    exists|r: int, c: int| #[trigger]
        has_cell(t, tbl, r, c) && paragraphs_at(t, tbl, r, c).contains(i) && i != paragraphs_at(
            t,
            tbl,
            r,
            c,
        )[0]
}

/// Whether node `i` is a list marker in the table: a `numPr` element, which holds no
/// text.
pub open spec fn is_list_marker(t: Seq<xml::NodeView>, tbl: int, i: int) -> bool {
    &&& tbl < i < tbl + t[tbl].size
    &&& t[i].tag == "numPr"@
    &&& forall|k: int| i <= k < i + t[i].size ==> paragraph::piece(#[trigger] t[k]).len() == 0
}

proof fn tagged_child(t: Seq<xml::NodeView>, nodes: Seq<int>, name: Seq<char>, m: int) -> (k: int)
    requires
        0 <= m < tagged(t, nodes, name).len(),
    ensures
        0 <= k < nodes.len(),
        tagged(t, nodes, name)[m] == nodes[k],
        t[nodes[k]].tag == name,
    decreases nodes.len(),
{
    let last = nodes.len() - 1;
    if t[nodes.last()].tag == name && m == tagged(t, nodes.drop_last(), name).len() {
        last
    } else {
        tagged_child(t, nodes.drop_last(), name, m)
    }
}

/// Of two children of one name whose subtrees share node `x`, both are the same.
proof fn tagged_are_apart(
    t: Seq<xml::NodeView>,
    i: int,
    name: Seq<char>,
    m: int,
    n: int,
    x: int,
)
    requires
        xml::well_formed(t),
        0 <= i < t.len(),
        0 <= m < children_tagged(t, i, name).len(),
        0 <= n < children_tagged(t, i, name).len(),
    ensures
        ({
            let a = children_tagged(t, i, name)[m];
            let b = children_tagged(t, i, name)[n];
            &&& i < a < i + t[i].size <= t.len()
            &&& a + t[a].size <= i + t[i].size
            &&& t[a].tag == name
            &&& a <= x < a + t[a].size && b <= x < b + t[b].size ==> a == b
        }),
{
    let j = tagged_child(t, xml::children_of(t, i), name, m);
    let k = tagged_child(t, xml::children_of(t, i), name, n);
    subtree::children_are_apart(t, i, j, k, x);
}

proof fn tagged_without(t: Seq<xml::NodeView>, cut: Set<int>, nodes: Seq<int>, name: Seq<char>)
    requires
        forall|m: int| 0 <= m < nodes.len() ==> 0 <= #[trigger] nodes[m] < t.len(),
    ensures
        tagged(subtree::pruned(t, cut), subtree::survivors(t, cut, nodes), name)
            == subtree::survivors(t, cut, tagged(t, nodes, name)),
    decreases nodes.len(),
{
    if nodes.len() > 0 {
        let some = nodes.drop_last();
        let last = nodes[nodes.len() - 1];
        assert forall|m: int| 0 <= m < some.len() implies 0 <= #[trigger] some[m] < t.len() by {
            assert(some[m] == nodes[m]);
        }
        tagged_without(t, cut, some, name);
        if !subtree::gone(t, cut, last) {
            subtree::kept_node(t, cut, last);
            let left = subtree::survivors(t, cut, nodes);
            assert(left.drop_last() == subtree::survivors(t, cut, some));
        }
        if t[last].tag == name {
            let found = tagged(t, nodes, name);
            assert(found.drop_last() == tagged(t, some, name));
            assert(found.last() == last);
        }
    }
}

/// The children of one name of a node that stays are those that stay, and each of
/// them goes only where it is in `cut` itself.
proof fn children_tagged_without(
    t: Seq<xml::NodeView>,
    cut: Set<int>,
    i: int,
    name: Seq<char>,
)
    requires
        xml::well_formed(t),
        0 <= i < t.len(),
        !subtree::gone(t, cut, i),
    ensures
        children_tagged(subtree::pruned(t, cut), subtree::rank(t, cut, i), name)
            == subtree::survivors(t, cut, children_tagged(t, i, name)),
        forall|m: int|
            0 <= m < children_tagged(t, i, name).len() && subtree::gone(
                t,
                cut,
                #[trigger] children_tagged(t, i, name)[m],
            ) ==> cut.contains(children_tagged(t, i, name)[m]),
{
    let nodes = xml::children_of(t, i);
    let found = children_tagged(t, i, name);
    subtree::pruned_children(t, cut, i);
    assert forall|m: int| 0 <= m < nodes.len() implies 0 <= #[trigger] nodes[m] < t.len() by {
        subtree::children_are_apart(t, i, m, m, i);
    }
    tagged_without(t, cut, nodes, name);
    assert forall|m: int|
        0 <= m < found.len() && subtree::gone(t, cut, #[trigger] found[m]) implies cut.contains(
        found[m],
    ) by {
        let k = tagged_child(t, nodes, name, m);
        subtree::child_goes_by_itself(t, cut, i, k);
    }
}

/// What may be taken out of a table without a trace: paragraphs after the first of a
/// cell, and list markers.
pub open spec fn leaves_no_trace(t: Seq<xml::NodeView>, tbl: int, cut: Set<int>) -> bool {
    forall|i: int| #[trigger]
        cut.contains(i) ==> is_later_paragraph(t, tbl, i) || is_list_marker(t, tbl, i)
}

/// A paragraph of a cell is a `p` in the subtree of that cell.
proof fn paragraph_is_in_its_cell(t: Seq<xml::NodeView>, tbl: int, r: int, c: int, m: int)
    requires
        xml::well_formed(t),
        0 <= tbl < t.len(),
        has_cell(t, tbl, r, c),
        0 <= m < paragraphs_at(t, tbl, r, c).len(),
    ensures
        ({
            let tr = children_tagged(t, tbl, "tr"@)[r];
            let tc = children_tagged(t, tr, "tc"@)[c];
            let i = paragraphs_at(t, tbl, r, c)[m];
            &&& tbl < tr < tc < i < tc + t[tc].size <= tr + t[tr].size <= tbl + t[tbl].size
                <= t.len()
            &&& t[i].tag == "p"@
            &&& i + t[i].size <= tc + t[tc].size
        }),
{
    let tr = children_tagged(t, tbl, "tr"@)[r];
    let tc = children_tagged(t, tr, "tc"@)[c];
    tagged_are_apart(t, tbl, "tr"@, r, r, tbl);
    tagged_are_apart(t, tr, "tc"@, c, c, tbl);
    tagged_are_apart(t, tc, "p"@, m, m, tbl);
}

proof fn cut_is_inside(t: Seq<xml::NodeView>, tbl: int, cut: Set<int>, i: int)
    requires
        xml::well_formed(t),
        0 <= tbl < t.len(),
        leaves_no_trace(t, tbl, cut),
        cut.contains(i),
    ensures
        tbl < i < tbl + t[tbl].size,
        t[i].tag != "tr"@,
        t[i].tag != "tc"@,
{
    reveal_strlit("tr");
    reveal_strlit("tc");
    reveal_strlit("p");
    reveal_strlit("numPr");
    assert("p"@.len() != "tr"@.len());
    assert("p"@.len() != "tc"@.len());
    assert("numPr"@.len() != "tr"@.len());
    assert("numPr"@.len() != "tc"@.len());
    if is_later_paragraph(t, tbl, i) {
        let (r, c) = choose|r: int, c: int| #[trigger]
            has_cell(t, tbl, r, c) && paragraphs_at(t, tbl, r, c).contains(i) && i
                != paragraphs_at(t, tbl, r, c)[0];
        let m = choose|m: int|
            0 <= m < paragraphs_at(t, tbl, r, c).len() && paragraphs_at(t, tbl, r, c)[m] == i;
        paragraph_is_in_its_cell(t, tbl, r, c, m);
    }
}

/// A paragraph after the first of a cell is not in the subtree of the first paragraph
/// of any cell.
proof fn first_paragraph_has_no_later(
    t: Seq<xml::NodeView>,
    tbl: int,
    r: int,
    c: int,
    i: int,
)
    requires
        xml::well_formed(t),
        0 <= tbl < t.len(),
        has_cell(t, tbl, r, c),
        paragraphs_at(t, tbl, r, c).len() > 0,
        is_later_paragraph(t, tbl, i),
    ensures
        ({
            let first = paragraphs_at(t, tbl, r, c)[0];
            !(first <= i < first + t[first].size)
        }),
{
    let first = paragraphs_at(t, tbl, r, c)[0];
    let (s, d) = choose|s: int, d: int| #[trigger]
        has_cell(t, tbl, s, d) && paragraphs_at(t, tbl, s, d).contains(i) && i != paragraphs_at(
            t,
            tbl,
            s,
            d,
        )[0];
    let m = choose|m: int|
        0 <= m < paragraphs_at(t, tbl, s, d).len() && paragraphs_at(t, tbl, s, d)[m] == i;
    if first <= i < first + t[first].size {
        paragraph_is_in_its_cell(t, tbl, r, c, 0);
        paragraph_is_in_its_cell(t, tbl, s, d, m);
        let tr = children_tagged(t, tbl, "tr"@)[r];
        tagged_are_apart(t, tbl, "tr"@, r, s, i);
        assert(children_tagged(t, tbl, "tr"@)[s] == tr);
        let tc = children_tagged(t, tr, "tc"@)[c];
        tagged_are_apart(t, tr, "tc"@, c, d, i);
        assert(children_tagged(t, tr, "tc"@)[d] == tc);
        assert(t[i].size >= 1);
        tagged_are_apart(t, tc, "p"@, 0, m, i);
    }
}

proof fn cell_without(t: Seq<xml::NodeView>, tbl: int, cut: Set<int>, r: int, c: int)
    requires
        xml::well_formed(t),
        0 <= tbl < t.len(),
        leaves_no_trace(t, tbl, cut),
        has_cell(t, tbl, r, c),
        !subtree::gone(t, cut, children_tagged(t, children_tagged(t, tbl, "tr"@)[r], "tc"@)[c]),
    ensures
        ({
            let tc = children_tagged(t, children_tagged(t, tbl, "tr"@)[r], "tc"@)[c];
            cell_of(subtree::pruned(t, cut), subtree::rank(t, cut, tc)) == cell_of(t, tc)
        }),
{
    let tr = children_tagged(t, tbl, "tr"@)[r];
    let tc = children_tagged(t, tr, "tc"@)[c];
    let u = subtree::pruned(t, cut);
    let paragraphs = paragraphs_at(t, tbl, r, c);
    tagged_are_apart(t, tbl, "tr"@, r, r, tbl);
    tagged_are_apart(t, tr, "tc"@, c, c, tbl);
    children_tagged_without(t, cut, tc, "p"@);
    if paragraphs.len() > 0 {
        let p = paragraphs[0];
        paragraph_is_in_its_cell(t, tbl, r, c, 0);
        assert(t[p].size >= 1);
        assert(!subtree::gone(t, cut, p)) by {
            if subtree::gone(t, cut, p) {
                assert(cut.contains(p));
                if is_later_paragraph(t, tbl, p) {
                    first_paragraph_has_no_later(t, tbl, r, c, p);
                }
                reveal_strlit("p");
                reveal_strlit("numPr");
                assert("p"@.len() != "numPr"@.len());
            }
        }
        subtree::survivors_first(t, cut, paragraphs);
        subtree::kept_node(t, cut, p);
        let end = p + t[p].size;
        assert forall|k: int|
            p <= k < end && #[trigger] subtree::gone(t, cut, k) implies paragraph::piece(
            t[k],
        ).len() == 0 by {
            let w = choose|w: int| #[trigger] cut.contains(w) && 0 <= w <= k < w + t[w].size;
            assert(p < w);
            if is_later_paragraph(t, tbl, w) {
                first_paragraph_has_no_later(t, tbl, r, c, w);
            }
        }
        paragraph::pieces_without(t, cut, p, end);
        subtree::rank_grows(t, cut, p, end);
        assert(paragraph::text_of(u, subtree::rank(t, cut, p)) == paragraph::text_of(t, p));
    }
}

/// A cell shows the text of its first paragraph and nothing else: a table without the
/// other paragraphs of its cells and without list markers, or without some of them,
/// is shown the same.
pub proof fn cells_show_their_first_paragraph_alone(
    t: Seq<xml::NodeView>,
    tbl: int,
    cut: Set<int>,
)
    requires
        xml::well_formed(t),
        0 <= tbl < t.len(),
        leaves_no_trace(t, tbl, cut),
    ensures
        ({
            let u = subtree::pruned(t, cut);
            let place = subtree::rank(t, cut, tbl);
            &&& u[place].tag == t[tbl].tag
            &&& rows_of(u, place) == rows_of(t, tbl)
            &&& table_text(rows_of(u, place)) == table_text(rows_of(t, tbl))
        }),
{
    let u = subtree::pruned(t, cut);
    let rows = children_tagged(t, tbl, "tr"@);
    assert forall|i: int| #[trigger] cut.contains(i) implies tbl < i && t[i].tag != "tr"@
        && t[i].tag != "tc"@ by {
        cut_is_inside(t, tbl, cut, i);
    }
    assert(!subtree::gone(t, cut, tbl));
    subtree::kept_node(t, cut, tbl);
    children_tagged_without(t, cut, tbl, "tr"@);
    assert forall|r: int| 0 <= r < rows.len() implies !subtree::gone(t, cut, #[trigger] rows[r])
        && cells_of(u, subtree::rank(t, cut, rows[r])) == cells_of(t, rows[r]) by {
        let tr = rows[r];
        tagged_are_apart(t, tbl, "tr"@, r, r, tbl);
        let cells = children_tagged(t, tr, "tc"@);
        children_tagged_without(t, cut, tr, "tc"@);
        assert forall|c: int| 0 <= c < cells.len() implies !subtree::gone(
            t,
            cut,
            #[trigger] cells[c],
        ) && cell_of(u, subtree::rank(t, cut, cells[c])) == cell_of(t, cells[c]) by {
            tagged_are_apart(t, tr, "tc"@, c, c, tbl);
            assert(has_cell(t, tbl, r, c));
            cell_without(t, tbl, cut, r, c);
        }
        subtree::all_survive(t, cut, cells);
        assert(cells_of(u, subtree::rank(t, cut, tr)) == cells_of(t, tr));
    }
    subtree::all_survive(t, cut, rows);
    assert(rows_of(u, subtree::rank(t, cut, tbl)) == rows_of(t, tbl));
}

// ---------------------------------------------------------------------------
// What a table shows
// ---------------------------------------------------------------------------

/// The children of one name are all the children that have that name, in document order.
pub proof fn children_of_a_name_are_all_of_them(
    t: Seq<xml::NodeView>,
    i: int,
    name: Seq<char>,
    c: int,
)
    requires
        xml::well_formed(t),
        0 <= i < t.len(),
    ensures
        children_tagged(t, i, name).contains(c) <==> xml::children_of(t, i).contains(c)
            && t[c].tag == name,
        forall|m: int, n: int|
            0 <= m < n < children_tagged(t, i, name).len() ==> #[trigger] children_tagged(
                t,
                i,
                name,
            )[m] < #[trigger] children_tagged(t, i, name)[n],
{
    xml::children_are_the_nodes_right_below(t, i, c);
    tagged_in_order(t, xml::children_of(t, i), name, c);
}

proof fn tagged_in_order(t: Seq<xml::NodeView>, nodes: Seq<int>, name: Seq<char>, c: int)
    requires
        forall|m: int, n: int|
            0 <= m < n < nodes.len() ==> #[trigger] nodes[m] < #[trigger] nodes[n],
    ensures
        tagged(t, nodes, name).contains(c) <==> nodes.contains(c) && t[c].tag == name,
        forall|m: int, n: int|
            0 <= m < n < tagged(t, nodes, name).len() ==> #[trigger] tagged(t, nodes, name)[m]
                < #[trigger] tagged(t, nodes, name)[n],
    decreases nodes.len(),
{
    let found = tagged(t, nodes, name);
    if nodes.len() > 0 {
        let some = nodes.drop_last();
        let last = nodes[nodes.len() - 1];
        assert forall|m: int, n: int| 0 <= m < n < some.len() implies #[trigger] some[m]
            < #[trigger] some[n] by {
            assert(some[m] == nodes[m] && some[n] == nodes[n]);
        }
        tagged_in_order(t, some, name, c);
        let before = tagged(t, some, name);
        assert(nodes == some.push(last));
        assert(nodes.contains(c) <==> some.contains(c) || c == last) by {
            if some.contains(c) {
                let m = choose|m: int| 0 <= m < some.len() && some[m] == c;
                assert(nodes[m] == c);
            }
            if nodes.contains(c) {
                let m = choose|m: int| 0 <= m < nodes.len() && nodes[m] == c;
                if m < some.len() {
                    assert(some[m] == c);
                }
            }
        }
        if t[last].tag == name {
            assert(found == before.push(last));
            assert(found.contains(c) <==> before.contains(c) || c == last) by {
                if before.contains(c) {
                    let m = choose|m: int| 0 <= m < before.len() && before[m] == c;
                    assert(found[m] == c);
                }
                if found.contains(c) {
                    let m = choose|m: int| 0 <= m < found.len() && found[m] == c;
                    if m < before.len() {
                        assert(before[m] == c);
                    }
                }
                assert(found[before.len() as int] == last);
            }
            assert forall|m: int, n: int| 0 <= m < n < found.len() implies #[trigger] found[m]
                < #[trigger] found[n] by {
                if n == before.len() {
                    let k = tagged_child(t, some, name, m);
                    assert(some[k] == nodes[k]);
                    assert(found[m] == before[m]);
                } else {
                    assert(found[m] == before[m] && found[n] == before[n]);
                }
            }
        }
    }
}

/// Escaping goes character by character: a bar gets a backslash before it, and every other
/// character stays.
pub proof fn escaping_goes_by_character(c: char, rest: Seq<char>)
    ensures
        escaped(Seq::empty()) == Seq::<char>::empty(),
        escaped(seq!['|'] + rest) == seq!['\\', '|'] + escaped(rest),
        c != '|' ==> escaped(seq![c] + rest) == seq![c] + escaped(rest),
{
    let bar = seq!['|'];
    let barred = bar + rest;
    assert(barred.take(1) == bar);
    assert(barred.skip(1) == rest);
    if c != '|' {
        let s = seq![c] + rest;
        assert(s.take(1)[0] == c);
        assert(s.take(1) != bar);
        assert(s.skip(1) == rest);
    }
}

/// A cell shows the text of its first paragraph with its bars escaped; a cell without
/// paragraphs is empty.
pub proof fn cells_show_their_first_paragraph(t: Seq<xml::NodeView>, tc: int, p: int)
    requires
        xml::well_formed(t),
        0 <= tc < t.len(),
    ensures
        xml::children_of(t, tc).contains(p) && t[p].tag == "p"@ && (forall|q: int| #[trigger]
            xml::children_of(t, tc).contains(q) && t[q].tag == "p"@ ==> p <= q) ==> cell_of(t, tc)
            == escaped(paragraph::text_of(t, p)),
        (forall|q: int| #[trigger] xml::children_of(t, tc).contains(q) ==> t[q].tag != "p"@)
            ==> cell_of(t, tc).len() == 0,
{
    let found = children_tagged(t, tc, "p"@);
    children_of_a_name_are_all_of_them(t, tc, "p"@, p);
    if found.len() > 0 {
        assert(found.contains(found[0]));
        children_of_a_name_are_all_of_them(t, tc, "p"@, found[0]);
        if found.contains(p) {
            let m = choose|m: int| 0 <= m < found.len() && found[m] == p;
            assert(found[0] <= p);
        }
    }
}

/// A table has a row for each `tr` and a row a cell for each `tc`, in document order.
pub proof fn rows_and_cells_come_in_order(t: Seq<xml::NodeView>, tbl: int, r: int, c: int)
    ensures
        rows_of(t, tbl).len() == children_tagged(t, tbl, "tr"@).len(),
        0 <= r < rows_of(t, tbl).len() ==> rows_of(t, tbl)[r].len() == children_tagged(
            t,
            children_tagged(t, tbl, "tr"@)[r],
            "tc"@,
        ).len(),
        0 <= r < rows_of(t, tbl).len() && 0 <= c < rows_of(t, tbl)[r].len() ==> rows_of(
            t,
            tbl,
        )[r][c] == cell_of(
            t,
            children_tagged(t, children_tagged(t, tbl, "tr"@)[r], "tc"@)[c],
        ),
{
}

/// A row that is filled up has all its cells in their places, and empty ones behind.
pub proof fn filling_up_keeps_cells(cells: Seq<Seq<char>>, width: nat, j: int)
    requires
        0 <= j < width,
    ensures
        padded(cells, width).len() == width,
        j < cells.len() ==> padded(cells, width)[j] == cells[j],
        j >= cells.len() ==> padded(cells, width)[j].len() == 0,
{
}

/// The line of a row grows cell by cell: each cell is written whole behind those before it,
/// with a bar between, and an empty one where the row has no more.
pub proof fn row_lines_grow_cell_by_cell(cells: Seq<Seq<char>>, width: nat)
    ensures
        row_line(cells, 0) == seq!['|', ' ', ' ', '|'],
        ({
            let cell = if width < cells.len() {
                cells[width as int]
            } else {
                Seq::empty()
            };
            let line = row_line(cells, width);
            let longer = row_line(cells, width + 1);
            if width == 0 {
                longer == seq!['|', ' '] + cell + seq![' ', '|']
            } else {
                longer == line.take(line.len() - 2) + seq![' ', '|', ' '] + cell + seq![' ', '|']
            }
        }),
        row_line(cells, width).len() >= 4,
        row_line(cells, width).skip(row_line(cells, width).len() - 2) == seq![' ', '|'],
{
    reveal_strlit("| ");
    reveal_strlit(" | ");
    reveal_strlit(" |");
    let first = seq!['|', ' '];
    let between = seq![' ', '|', ' '];
    let end = seq![' ', '|'];
    assert("| "@ == first);
    assert(" | "@ == between);
    assert(" |"@ == end);
    let cell = if width < cells.len() {
        cells[width as int]
    } else {
        Seq::empty()
    };
    let some = padded(cells, width);
    let all = padded(cells, width + 1);
    assert(all == some.push(cell));
    text::joined_push(some, cell, " | "@);
    let line = row_line(cells, width);
    let body = text::joined(some, " | "@);
    assert(padded(cells, 0) == Seq::<Seq<char>>::empty());
    assert(row_line(cells, 0) == seq!['|', ' ', ' ', '|']);
    assert(line == first + body + end);
    assert(line.take(line.len() - 2) == first + body);
    assert(line.skip(line.len() - 2) == end);
    if width > 0 {
        assert(row_line(cells, width + 1) == first + (body + between + cell) + end);
        assert(first + (body + between + cell) + end == line.take(line.len() - 2) + between + cell
            + end);
    }
}

/// The line of a row is as long as all its cells and the bars around them, and each cell
/// stands in it whole, behind the cells before it.
pub proof fn row_lines_show_every_cell(cells: Seq<Seq<char>>, width: nat, j: int)
    requires
        cells.len() <= width,
        0 <= j < width,
    ensures
        row_line(cells, width).len() == 4 + text::total_len(padded(cells, width)) + 3 * (width
            - 1),
        ({
            let at = 2 + text::total_len(padded(cells, width).take(j)) + 3 * j;
            let cell = padded(cells, width)[j];
            &&& at + cell.len() <= row_line(cells, width).len()
            &&& row_line(cells, width).subrange(at, at + cell.len()) == cell
            &&& j < cells.len() ==> row_line(cells, width).subrange(at, at + cells[j].len())
                == cells[j]
        }),
{
    reveal_strlit("| ");
    reveal_strlit(" | ");
    reveal_strlit(" |");
    let all = padded(cells, width);
    let line = row_line(cells, width);
    let body = text::joined(all, " | "@);
    assert("| "@.len() == 2);
    assert(" | "@.len() == 3);
    assert(" |"@.len() == 2);
    text::joined_parts_stand_in_place(all, " | "@, j);
    let at = text::total_len(all.take(j)) + 3 * j;
    assert(line.subrange(2 + at, 2 + at + all[j].len()) == body.subrange(at, at + all[j].len()));
}

/// The rule has a bar and three dashes for each column, and a bar at the end.
pub proof fn rules_grow_column_by_column(width: nat)
    ensures
        rule_line(0) == seq!['|'],
        rule_line(width + 1) == seq!['|', '-', '-', '-'] + rule_line(width),
{
    reveal_strlit("|---");
    reveal_strlit("|");
    assert("|---"@ == seq!['|', '-', '-', '-']);
    assert("|"@ == seq!['|']);
    text::repetitions_add_up("|---"@, 1, width);
    assert(1 + width == width + 1);
    assert(rule_line(0) == seq!['|']);
    assert(rule_line(width + 1) == seq!['|', '-', '-', '-'] + rule_line(width));
}

/// A table is the line of its first row, the rule, and the lines of the other rows, with a
/// line end between each two and none at the end, all as wide as the longest row. A table
/// without rows is empty, and no other is.
pub proof fn tables_are_written_line_by_line(rows: Seq<Seq<Seq<char>>>, width: nat)
    requires
        forall|k: int| 0 <= k < rows.len() ==> (#[trigger] rows[k]).len() <= width,
        width == 0 || exists|k: int| 0 <= k < rows.len() && (#[trigger] rows[k]).len() == width,
    ensures
        rows.len() == 0 ==> table_text(rows).len() == 0,
        rows.len() > 0 ==> table_text(rows).len() > 0 && table_text(rows) == text::joined(
            seq![row_line(rows[0], width), rule_line(width)] + Seq::new(
                (rows.len() - 1) as nat,
                |k: int| row_line(rows[k + 1], width),
            ),
            seq!['\n'],
        ),
{
    width_is_that_of_the_longest_row(rows);
    if rows.len() > 0 {
        assert(width_of(rows) == width) by {
            if width > 0 {
                let k = choose|k: int| 0 <= k < rows.len() && (#[trigger] rows[k]).len() == width;
                assert(rows[k].len() <= width_of(rows));
            }
            if width_of(rows) > 0 {
                let k = choose|k: int|
                    0 <= k < rows.len() && (#[trigger] rows[k]).len() == width_of(rows);
                assert(rows[k].len() <= width);
            }
        }
        let lines = table_lines(rows, width);
        assert(lines == seq![row_line(rows[0], width), rule_line(width)] + Seq::new(
            (rows.len() - 1) as nat,
            |k: int| row_line(rows[k + 1], width),
        ));
        row_lines_grow_cell_by_cell(rows[0], width);
        assert(lines[0] == row_line(rows[0], width));
        assert(text::joined(lines, seq!['\n']).len() >= lines[0].len());
    }
}

/// The views of rows show their cells as they are.
pub proof fn rows_are_shown_as_they_are(rows: Seq<Vec<String>>, r: int, c: int)
    requires
        0 <= r < rows.len(),
        0 <= c < rows[r]@.len(),
    ensures
        rows_view(rows).len() == rows.len(),
        rows_view(rows)[r].len() == rows[r]@.len(),
        rows_view(rows)[r][c] == rows[r]@[c]@,
{
}

} // verus!
