//! The counters of numbered lists: each list counts every level on its own, and
//! a label shows the counters that its template refers to.

use crate::numbering;
use crate::numbering::{LvlDef, Numbering};
use crate::numerals;
use crate::text;
use std::collections::HashMap;
use vstd::hash_map::StringHashMap;
use vstd::prelude::*;

verus! {

broadcast use vstd::std_specs::hash::group_hash_axioms;

/// The levels that apply to a list: none where its abstract definition is
/// missing, and no answer where the list is not defined.
pub open spec fn lvls_for(
    num: numbering::NumberingView,
    num_id: Seq<char>,
) -> Option<Map<u32, numbering::LvlView>> {
    if !num.num_to_abs.contains_key(num_id) {
        None
    } else if num.abstracts.contains_key(num.num_to_abs[num_id]) {
        Some(num.abstracts[num.num_to_abs[num_id]])
    } else {
        Some(Map::empty())
    }
}

/// A level, with a bullet standing in for one that is not defined.
pub open spec fn lvl_at(lvls: Map<u32, numbering::LvlView>, k: u32) -> numbering::LvlView {
    if lvls.contains_key(k) {
        lvls[k]
    } else {
        numbering::default_lvl()
    }
}

/// The value after `n`; the counter wraps round after `u32::MAX`.
pub open spec fn next_count(n: u32) -> u32 {
    if n == u32::MAX {
        0
    } else {
        (n + 1) as u32
    }
}

/// What a counter shows first: its start value, and never zero.
pub open spec fn first_count(start: u32) -> u32 {
    if start == 0 {
        1
    } else {
        start
    }
}

/// The counters of a list once level `ilvl` has been counted. `counts` holds one
/// counter for each level from the outermost down to the one counted last. The
/// level itself moves on, or starts; deeper levels are forgotten; levels above it
/// keep their counters, and those not seen yet stand at their start values.
pub open spec fn advanced(
    lvls: Map<u32, numbering::LvlView>,
    counts: Seq<u32>,
    ilvl: u32,
) -> Seq<u32> {
    Seq::new(
        (ilvl + 1) as nat,
        |k: int|
            if k < ilvl {
                if k < counts.len() {
                    counts[k]
                } else {
                    lvl_at(lvls, k as u32).start
                }
            } else if k < counts.len() {
                next_count(counts[k])
            } else {
                first_count(lvl_at(lvls, ilvl).start)
            },
    )
}

/// What `%d` stands for in a label, with `d` the level counted from one: the
/// counter of that level, or its start value where it has none, in the number
/// format of that level.
pub open spec fn placeholder_text(
    lvls: Map<u32, numbering::LvlView>,
    counts: Seq<u32>,
    d: nat,
) -> Seq<char> {
    let lvl = lvl_at(lvls, (d - 1) as u32);
    numerals::counter_text(
        lvl.fmt,
        if d - 1 < counts.len() {
            counts[d - 1]
        } else {
            lvl.start
        },
    )
}

/// Whether a placeholder, `%1` to `%9`, stands at the start of a label.
pub open spec fn starts_with_placeholder(label: Seq<char>) -> bool {
    label.len() >= 2 && label[0] == '%' && '1' <= label[1] && label[1] <= '9'
}

/// The level, counted from one, of the placeholder at the start of a label.
pub open spec fn placeholder_level(label: Seq<char>) -> nat {
    (label[1] as u32 - 48) as nat
}

/// A label with each placeholder replaced where it stands by the counter that it
/// refers to, and everything else kept.
pub open spec fn shown(
    lvls: Map<u32, numbering::LvlView>,
    counts: Seq<u32>,
    label: Seq<char>,
) -> Seq<char>
    decreases label.len(),
{
    if label.len() == 0 {
        label
    } else if starts_with_placeholder(label) {
        placeholder_text(lvls, counts, placeholder_level(label)) + shown(
            lvls,
            counts,
            label.skip(2),
        )
    } else {
        seq![label[0]] + shown(lvls, counts, label.skip(1))
    }
}

/// The counters of one list; none before it is first counted.
pub open spec fn counts_of(counters: Map<Seq<char>, Seq<u32>>, num_id: Seq<char>) -> Seq<u32> {
    if counters.contains_key(num_id) {
        counters[num_id]
    } else {
        Seq::empty()
    }
}

/// All counters once level `ilvl` of a list has been counted. A list that is not
/// defined is not counted.
pub open spec fn counted(
    num: numbering::NumberingView,
    counters: Map<Seq<char>, Seq<u32>>,
    num_id: Seq<char>,
    ilvl: u32,
) -> Map<Seq<char>, Seq<u32>> {
    match lvls_for(num, num_id) {
        Some(lvls) => counters.insert(num_id, advanced(lvls, counts_of(counters, num_id), ilvl)),
        None => counters,
    }
}

/// The label of the item counted next at level `ilvl` of a list: none for a
/// bullet, which is what a list or a level that is not defined has.
pub open spec fn label(
    num: numbering::NumberingView,
    counters: Map<Seq<char>, Seq<u32>>,
    num_id: Seq<char>,
    ilvl: u32,
) -> Option<Seq<char>> {
    match lvls_for(num, num_id) {
        Some(lvls) => {
            let lvl = lvl_at(lvls, ilvl);
            if lvl.fmt == "bullet"@ {
                None
            } else {
                Some(shown(lvls, advanced(lvls, counts_of(counters, num_id), ilvl), lvl.text))
            }
        },
        None => None,
    }
}

/// The counters of a document while it is being converted.
pub struct CounterState<'a> {
    pub numbering: &'a Numbering,
    /// From the id of a list to its counters, the outermost level first.
    pub counters: StringHashMap<Vec<u32>>,
}

#[verifier::ext_equal]
pub struct CounterView {
    pub numbering: numbering::NumberingView,
    pub counters: Map<Seq<char>, Seq<u32>>,
}

impl<'a> View for CounterState<'a> {
    type V = CounterView;

    open spec fn view(&self) -> CounterView {
        CounterView {
            numbering: self.numbering@,
            counters: self.counters@.map_values(|c: Vec<u32>| c@),
        }
    }
}

fn advance(lvls: &HashMap<u32, LvlDef>, counts: &Vec<u32>, ilvl: u32) -> (r: Vec<u32>)
    ensures
        r@ == advanced(numbering::lvls_view(*lvls), counts@, ilvl),
{
    let ghost view = numbering::lvls_view(*lvls);
    let mut out: Vec<u32> = Vec::new();
    let mut k: u32 = 0;
    while k < ilvl
        invariant
            view == numbering::lvls_view(*lvls),
            k <= ilvl,
            out@ == advanced(view, counts@, ilvl).take(k as int),
        decreases ilvl - k,
    {
        if (k as usize) < counts.len() {
            out.push(counts[k as usize]);
        } else {
            match lvls.get(&k) {
                Some(lvl) => out.push(lvl.start),
                None => out.push(1),
            }
        }
        assert(out@ == advanced(view, counts@, ilvl).take(k + 1));
        k += 1;
    }
    if (ilvl as usize) < counts.len() {
        out.push(counts[ilvl as usize].wrapping_add(1));
    } else {
        let start: u32 = match lvls.get(&ilvl) {
            Some(lvl) => lvl.start,
            None => 1,
        };
        out.push(if start == 0 { 1 } else { start });
    }
    assert(out@ == advanced(view, counts@, ilvl));
    out
}

/// What the placeholder of level `d`, counted from one, stands for.
fn render_placeholder(lvls: &HashMap<u32, LvlDef>, counts: &Vec<u32>, d: u32) -> (r: String)
    requires
        1 <= d <= 9,
    ensures
        r@ == placeholder_text(numbering::lvls_view(*lvls), counts@, d as nat),
{
    let k: u32 = d - 1;
    match lvls.get(&k) {
        Some(lvl) => numerals::format_counter(
            lvl.fmt.as_str(),
            if (k as usize) < counts.len() {
                counts[k as usize]
            } else {
                lvl.start
            },
        ),
        None => numerals::format_counter(
            "bullet",
            if (k as usize) < counts.len() {
                counts[k as usize]
            } else {
                1
            },
        ),
    }
}

/// Fills in the placeholders of a label.
fn fill(lvls: &HashMap<u32, LvlDef>, counts: &Vec<u32>, label: &str) -> (r: String)
    ensures
        r@ == shown(numbering::lvls_view(*lvls), counts@, label@),
{
    let ghost view = numbering::lvls_view(*lvls);
    let chars = text::chars_of(label);
    let n: usize = chars.len();
    let mut out = String::new();
    let mut i: usize = 0;
    assert(label@.skip(0) == label@);
    assert(out@ + shown(view, counts@, label@) == shown(view, counts@, label@));
    while i < n
        invariant
            view == numbering::lvls_view(*lvls),
            chars@ == label@,
            i <= n == chars@.len(),
            shown(view, counts@, label@) == out@ + shown(view, counts@, label@.skip(i as int)),
        decreases n - i,
    {
        let ghost rest = label@.skip(i as int);
        let ghost before = out@;
        if chars[i] == '%' && i + 1 < n && '1' <= chars[i + 1] && chars[i + 1] <= '9' {
            assert(starts_with_placeholder(rest));
            assert(rest.skip(2) == label@.skip(i + 2));
            let d: u32 = chars[i + 1] as u32 - 48;
            let value = render_placeholder(lvls, counts, d);
            out.push_str(value.as_str());
            i += 2;
            assert(before + (value@ + shown(view, counts@, label@.skip(i as int))) == out@ + shown(
                view,
                counts@,
                label@.skip(i as int),
            ));
        } else {
            assert(!starts_with_placeholder(rest));
            assert(rest.skip(1) == label@.skip(i + 1));
            out.push(chars[i]);
            i += 1;
            assert(before + (seq![rest[0]] + shown(view, counts@, label@.skip(i as int))) == out@
                + shown(view, counts@, label@.skip(i as int)));
        }
    }
    assert(label@.skip(n as int) == Seq::<char>::empty());
    assert(out@ + Seq::<char>::empty() == out@);
    out
}

impl<'a> CounterState<'a> {
    /// No list has been counted yet.
    pub fn new(numbering: &'a Numbering) -> (r: Self)
        ensures
            r@ == (CounterView { numbering: numbering@, counters: Map::empty() }),
    {
        let r = CounterState { numbering, counters: StringHashMap::new() };
        assert(r@.counters == Map::<Seq<char>, Seq<u32>>::empty());
        r
    }

    /// Counts an item of level `ilvl` of a list. Returns whether the item is a
    /// bullet, and the text of its label, which is empty for a bullet.
    pub fn resolve(&mut self, num_id: &str, ilvl: u32) -> (r: (bool, String))
        ensures
            final(self)@ == (CounterView {
                numbering: old(self)@.numbering,
                counters: counted(old(self)@.numbering, old(self)@.counters, num_id@, ilvl),
            }),
            match label(old(self)@.numbering, old(self)@.counters, num_id@, ilvl) {
                None => r.0 && r.1@ == Seq::<char>::empty(),
                Some(text) => !r.0 && r.1@ == text,
            },
    {
        let ghost num = self.numbering@;
        let ghost before = self@.counters;
        let abs_id = match self.numbering.num_to_abs.get(num_id) {
            Some(id) => id,
            None => {
                return (true, String::new());
            },
        };
        assert(num.num_to_abs[num_id@] == abs_id@);
        let none: HashMap<u32, LvlDef> = HashMap::new();
        let lvls = match self.numbering.abstracts.get(abs_id.as_str()) {
            Some(lvls) => lvls,
            None => &none,
        };
        let ghost view = numbering::lvls_view(*lvls);
        assert(lvls_for(num, num_id@) == Some(view));
        let counts: Vec<u32> = match self.counters.get(num_id) {
            Some(counts) => advance(lvls, counts, ilvl),
            None => advance(lvls, &Vec::new(), ilvl),
        };
        assert(counts@ == advanced(view, counts_of(before, num_id@), ilvl));
        let (bullet, text) = match lvls.get(&ilvl) {
            Some(lvl) => if text::same(lvl.fmt.as_str(), "bullet") {
                (true, String::new())
            } else {
                (false, fill(lvls, &counts, lvl.text.as_str()))
            },
            None => (true, String::new()),
        };
        let ghost now = counts@;
        self.counters.insert(num_id.to_owned(), counts);
        assert(self@.counters == before.insert(num_id@, now));
        (bullet, text)
    }
}

// ---------------------------------------------------------------------------
// How lists count
// ---------------------------------------------------------------------------

/// Counting a level leaves one counter for each level down to it: deeper levels
/// are forgotten. Levels above it keep their counters, and those that had none
/// stand at their start values.
pub proof fn counting_resets_deeper_levels(
    lvls: Map<u32, numbering::LvlView>,
    counts: Seq<u32>,
    ilvl: u32,
)
    ensures
        advanced(lvls, counts, ilvl).len() == ilvl + 1,
        forall|k: int|
            0 <= k < ilvl ==> #[trigger] advanced(lvls, counts, ilvl)[k] == (if k < counts.len() {
                counts[k]
            } else {
                lvl_at(lvls, k as u32).start
            }),
{
}

/// The next item of the same level counts one more, and nothing else changes.
pub proof fn next_item_counts_one_more(
    lvls: Map<u32, numbering::LvlView>,
    counts: Seq<u32>,
    ilvl: u32,
)
    ensures
        ({
            let once = advanced(lvls, counts, ilvl);
            advanced(lvls, once, ilvl) == once.update(ilvl as int, next_count(once[ilvl as int]))
        }),
{
    let once = advanced(lvls, counts, ilvl);
    assert(advanced(lvls, once, ilvl) == once.update(ilvl as int, next_count(once[ilvl as int])));
}

/// An item below the level counted last starts its level again, whatever that
/// level had counted before, and the levels between stand at their start values.
pub proof fn deeper_level_starts_again(
    lvls: Map<u32, numbering::LvlView>,
    counts: Seq<u32>,
    outer: u32,
    inner: u32,
)
    requires
        outer < inner,
    ensures
        ({
            let after = advanced(lvls, advanced(lvls, counts, outer), inner);
            &&& after[inner as int] == first_count(lvl_at(lvls, inner).start)
            &&& after[outer as int] == advanced(lvls, counts, outer)[outer as int]
            &&& forall|k: int|
                outer < k < inner ==> #[trigger] after[k] == lvl_at(lvls, k as u32).start
        }),
{
}

/// The counters after `n` items of one level in a row.
pub open spec fn advanced_times(
    lvls: Map<u32, numbering::LvlView>,
    counts: Seq<u32>,
    ilvl: u32,
    n: nat,
) -> Seq<u32>
    decreases n,
{
    if n == 0 {
        counts
    } else {
        advanced(lvls, advanced_times(lvls, counts, ilvl, (n - 1) as nat), ilvl)
    }
}

/// The items of a fresh level are numbered from its start value upwards without a
/// gap: the `n`th of them in a row shows the start value plus `n - 1`, as long as
/// that fits in a counter.
pub proof fn items_are_numbered_in_order(
    lvls: Map<u32, numbering::LvlView>,
    counts: Seq<u32>,
    ilvl: u32,
    n: nat,
)
    requires
        counts.len() <= ilvl,
        n > 0,
        first_count(lvl_at(lvls, ilvl).start) + n - 1 <= u32::MAX,
    ensures
        advanced_times(lvls, counts, ilvl, n).len() == ilvl + 1,
        advanced_times(lvls, counts, ilvl, n)[ilvl as int] == first_count(lvl_at(lvls, ilvl).start)
            + n - 1,
    decreases n,
{
    if n > 1 {
        items_are_numbered_in_order(lvls, counts, ilvl, (n - 1) as nat);
    } else {
        assert(advanced_times(lvls, counts, ilvl, 0) == counts);
    }
}

/// Lists count on their own: counting an item of one list leaves the counters of
/// every other list as they are, also where both share an abstract definition.
pub proof fn lists_count_on_their_own(
    num: numbering::NumberingView,
    counters: Map<Seq<char>, Seq<u32>>,
    counted_id: Seq<char>,
    ilvl: u32,
    other_id: Seq<char>,
)
    requires
        counted_id != other_id,
    ensures
        counts_of(counted(num, counters, counted_id, ilvl), other_id) == counts_of(
            counters,
            other_id,
        ),
        forall|k: u32|
            label(num, counted(num, counters, counted_id, ilvl), other_id, k) == #[trigger] label(
                num,
                counters,
                other_id,
                k,
            ),
{
}

/// An item of a list that is not defined is a bullet and counts nothing.
pub proof fn undefined_list_is_bulleted(
    num: numbering::NumberingView,
    counters: Map<Seq<char>, Seq<u32>>,
    num_id: Seq<char>,
    ilvl: u32,
)
    requires
        !num.num_to_abs.contains_key(num_id),
    ensures
        label(num, counters, num_id, ilvl) is None,
        counted(num, counters, num_id, ilvl) == counters,
{
}

// ---------------------------------------------------------------------------
// What labels show
// ---------------------------------------------------------------------------

/// The placeholder of a level, counted from one.
pub open spec fn placeholder(d: nat) -> Seq<char> {
    seq!['%', text::digit_char(d)]
}

/// Wherever a placeholder `%1` to `%9` stands in a label, the counter of that level
/// is shown in its number format, and what stands before and after it is shown as
/// it would be on its own.
#[verifier::rlimit(40)]
#[verifier::spinoff_prover]
pub proof fn labels_show_their_counters(
    lvls: Map<u32, numbering::LvlView>,
    counts: Seq<u32>,
    before: Seq<char>,
    d: nat,
    after: Seq<char>,
)
    requires
        1 <= d <= 9,
    ensures
        shown(lvls, counts, before + placeholder(d) + after) == shown(lvls, counts, before)
            + placeholder_text(lvls, counts, d) + shown(lvls, counts, after),
    decreases before.len(),
{
    let label = before + placeholder(d) + after;
    let value = placeholder_text(lvls, counts, d);
    if before.len() == 0 {
        assert(starts_with_placeholder(label));
        assert(placeholder_level(label) == d);
        assert(label.skip(2) == after);
        assert(shown(lvls, counts, before) == before);
        assert(value + shown(lvls, counts, after) == before + value + shown(lvls, counts, after));
    } else {
        let n: int = if starts_with_placeholder(label) {
            2
        } else {
            1
        };
        assert(n <= before.len());
        assert(starts_with_placeholder(before) == starts_with_placeholder(label));
        let rest = before.skip(n);
        assert(label.skip(n) == rest + placeholder(d) + after);
        labels_show_their_counters(lvls, counts, rest, d, after);
        let head = if n == 2 {
            placeholder_text(lvls, counts, placeholder_level(label))
        } else {
            seq![label[0]]
        };
        assert(shown(lvls, counts, before) == head + shown(lvls, counts, rest));
        assert(head + (shown(lvls, counts, rest) + value + shown(lvls, counts, after)) == head
            + shown(lvls, counts, rest) + value + shown(lvls, counts, after));
    }
}

/// A label without placeholders is shown as it is.
pub proof fn other_text_is_kept(
    lvls: Map<u32, numbering::LvlView>,
    counts: Seq<u32>,
    label: Seq<char>,
)
    requires
        forall|i: int| 0 <= i < label.len() ==> !starts_with_placeholder(#[trigger] label.skip(i)),
    ensures
        shown(lvls, counts, label) == label,
    decreases label.len(),
{
    if label.len() > 0 {
        let rest = label.skip(1);
        assert(label.skip(0) == label);
        assert forall|i: int| 0 <= i < rest.len() implies !starts_with_placeholder(
            #[trigger] rest.skip(i),
        ) by {
            assert(rest.skip(i) == label.skip(i + 1));
        }
        other_text_is_kept(lvls, counts, rest);
        assert(seq![label[0]] + rest == label);
    }
}

// ---------------------------------------------------------------------------
// What counting and labels mean
// ---------------------------------------------------------------------------

/// The counter of a level moves on by one each time the level is counted, also where
/// deeper levels have been counted since; only the largest value is followed by zero.
pub proof fn counted_level_moves_on_by_one(
    lvls: Map<u32, numbering::LvlView>,
    counts: Seq<u32>,
    ilvl: u32,
)
    requires
        ilvl < counts.len(),
    ensures
        counts[ilvl as int] < u32::MAX ==> advanced(lvls, counts, ilvl)[ilvl as int]
            == counts[ilvl as int] + 1,
        counts[ilvl as int] == u32::MAX ==> advanced(lvls, counts, ilvl)[ilvl as int] == 0,
{
}

/// A level that has no counter yet starts with its start value; with one where that is
/// zero or where the level is not defined.
pub proof fn fresh_level_starts_at_its_start(
    lvls: Map<u32, numbering::LvlView>,
    counts: Seq<u32>,
    ilvl: u32,
)
    requires
        counts.len() <= ilvl,
    ensures
        lvls.contains_key(ilvl) && lvls[ilvl].start > 0 ==> advanced(lvls, counts, ilvl)[ilvl as int]
            == lvls[ilvl].start,
        lvls.contains_key(ilvl) && lvls[ilvl].start == 0 ==> advanced(lvls, counts, ilvl)[ilvl as int]
            == 1,
        !lvls.contains_key(ilvl) ==> advanced(lvls, counts, ilvl)[ilvl as int] == 1,
{
}

/// Counting a level touches no counter above it: what they had they keep, and those that
/// had none stand at the start value of their level, at one where it is not defined. No
/// counter is left below it.
pub proof fn outer_levels_are_kept_or_filled_in(
    lvls: Map<u32, numbering::LvlView>,
    counts: Seq<u32>,
    ilvl: u32,
    k: u32,
)
    requires
        k < ilvl,
    ensures
        advanced(lvls, counts, ilvl).len() == ilvl + 1,
        k < counts.len() ==> advanced(lvls, counts, ilvl)[k as int] == counts[k as int],
        k >= counts.len() && lvls.contains_key(k) ==> advanced(lvls, counts, ilvl)[k as int]
            == lvls[k].start,
        k >= counts.len() && !lvls.contains_key(k) ==> advanced(lvls, counts, ilvl)[k as int] == 1,
{
}

/// The counters of a list after some items, each given by its level.
pub open spec fn counted_in_turn(
    lvls: Map<u32, numbering::LvlView>,
    counts: Seq<u32>,
    items: Seq<u32>,
) -> Seq<u32>
    decreases items.len(),
{
    if items.len() == 0 {
        counts
    } else {
        advanced(lvls, counted_in_turn(lvls, counts, items.drop_last()), items.last())
    }
}

/// Items of deeper levels, however many and in whatever order, change nothing for the
/// levels above them.
pub proof fn deeper_items_leave_outer_counters(
    lvls: Map<u32, numbering::LvlView>,
    counts: Seq<u32>,
    ilvl: u32,
    items: Seq<u32>,
)
    requires
        ilvl < counts.len(),
        forall|k: int| 0 <= k < items.len() ==> ilvl < #[trigger] items[k],
    ensures
        counted_in_turn(lvls, counts, items).len() > ilvl,
        forall|k: int|
            0 <= k <= ilvl ==> #[trigger] counted_in_turn(lvls, counts, items)[k] == counts[k],
    decreases items.len(),
{
    if items.len() > 0 {
        let some = items.drop_last();
        assert forall|k: int| 0 <= k < some.len() implies ilvl < #[trigger] some[k] by {
            assert(some[k] == items[k]);
        }
        deeper_items_leave_outer_counters(lvls, counts, ilvl, some);
        let before = counted_in_turn(lvls, counts, some);
        assert(ilvl < items[items.len() - 1]);
        assert forall|k: int| 0 <= k <= ilvl implies #[trigger] counted_in_turn(
            lvls,
            counts,
            items,
        )[k] == counts[k] by {
            assert(before[k] == counts[k]);
        }
    }
}

/// Items of one level under one parent are numbered without a gap: after an item and any
/// items of deeper levels, the next item of the level counts one more, and the levels
/// above stay as they are.
pub proof fn numbers_go_on_after_deeper_items(
    lvls: Map<u32, numbering::LvlView>,
    counts: Seq<u32>,
    ilvl: u32,
    items: Seq<u32>,
)
    requires
        ilvl < counts.len(),
        counts[ilvl as int] < u32::MAX,
        forall|k: int| 0 <= k < items.len() ==> ilvl < #[trigger] items[k],
    ensures
        ({
            let next = advanced(lvls, counted_in_turn(lvls, counts, items), ilvl);
            &&& next.len() == ilvl + 1
            &&& next[ilvl as int] == counts[ilvl as int] + 1
            &&& forall|k: int| 0 <= k < ilvl ==> #[trigger] next[k] == counts[k]
        }),
{
    deeper_items_leave_outer_counters(lvls, counts, ilvl, items);
    let before = counted_in_turn(lvls, counts, items);
    assert forall|k: int| 0 <= k < ilvl implies #[trigger] advanced(lvls, before, ilvl)[k]
        == counts[k] by {
        assert(before[k] == counts[k]);
    }
    assert(before[ilvl as int] == counts[ilvl as int]);
}

/// The counters of a list after some items of one level, each followed by some items of
/// deeper levels.
pub open spec fn counted_with_inner(
    lvls: Map<u32, numbering::LvlView>,
    counts: Seq<u32>,
    ilvl: u32,
    inner: Seq<Seq<u32>>,
) -> Seq<u32>
    decreases inner.len(),
{
    if inner.len() == 0 {
        counts
    } else {
        counted_in_turn(
            lvls,
            advanced(lvls, counted_with_inner(lvls, counts, ilvl, inner.drop_last()), ilvl),
            inner.last(),
        )
    }
}

/// The items of a fresh level under one parent are numbered from its start value on, without
/// a gap, whatever items of deeper levels stand between them: after `n` of them the counter
/// shows the start value plus `n - 1`, as long as that fits.
pub proof fn siblings_are_numbered_from_the_start(
    lvls: Map<u32, numbering::LvlView>,
    counts: Seq<u32>,
    ilvl: u32,
    inner: Seq<Seq<u32>>,
)
    requires
        counts.len() <= ilvl,
        lvls.contains_key(ilvl),
        lvls[ilvl].start > 0,
        inner.len() > 0,
        lvls[ilvl].start + inner.len() - 1 <= u32::MAX,
        forall|m: int, k: int|
            0 <= m < inner.len() && 0 <= k < inner[m].len() ==> ilvl < #[trigger] inner[m][k],
    ensures
        counted_with_inner(lvls, counts, ilvl, inner).len() > ilvl,
        counted_with_inner(lvls, counts, ilvl, inner)[ilvl as int] == lvls[ilvl].start
            + inner.len() - 1,
    decreases inner.len(),
{
    let some = inner.drop_last();
    let last = inner[inner.len() - 1];
    let before = counted_with_inner(lvls, counts, ilvl, some);
    let now = advanced(lvls, before, ilvl);
    if some.len() > 0 {
        assert forall|m: int, k: int| 0 <= m < some.len() && 0 <= k < some[m].len() implies ilvl
            < #[trigger] some[m][k] by {
            assert(some[m][k] == inner[m][k]);
        }
        siblings_are_numbered_from_the_start(lvls, counts, ilvl, some);
        counted_level_moves_on_by_one(lvls, before, ilvl);
    } else {
        assert(before == counts);
        fresh_level_starts_at_its_start(lvls, counts, ilvl);
    }
    assert forall|k: int| 0 <= k < last.len() implies ilvl < #[trigger] last[k] by {
        assert(inner[inner.len() - 1][k] == last[k]);
    }
    deeper_items_leave_outer_counters(lvls, now, ilvl, last);
    assert(counted_in_turn(lvls, now, last)[ilvl as int] == now[ilvl as int]);
}

/// A list has the levels of the abstract definition that it refers to: none where that
/// definition is missing. A list that refers to none is not defined.
pub proof fn lists_have_the_levels_of_their_definition(
    num: numbering::NumberingView,
    num_id: Seq<char>,
)
    ensures
        lvls_for(num, num_id) is None <==> !num.num_to_abs.contains_key(num_id),
        forall|id: Seq<char>|
            num.num_to_abs.contains_key(num_id) && num.num_to_abs[num_id] == id ==> (if
            #[trigger] num.abstracts.contains_key(id) {
                lvls_for(num, num_id) == Some(num.abstracts[id])
            } else {
                lvls_for(num, num_id) matches Some(lvls) && lvls.dom() == Set::<u32>::empty()
            }),
{
    if num.num_to_abs.contains_key(num_id) && !num.abstracts.contains_key(num.num_to_abs[num_id]) {
        assert(Map::<u32, numbering::LvlView>::empty().dom() == Set::<u32>::empty());
    }
}

/// A level is as it is defined; one that is not defined is a bullet that counts from one and
/// has no label.
pub proof fn undefined_levels_are_bullets(lvls: Map<u32, numbering::LvlView>, k: u32)
    ensures
        lvls.contains_key(k) ==> lvl_at(lvls, k) == lvls[k],
        !lvls.contains_key(k) ==> lvl_at(lvls, k).fmt == "bullet"@ && lvl_at(lvls, k).text.len()
            == 0 && lvl_at(lvls, k).start == 1,
{
}

/// A placeholder shows the counter of its level in the number format of its level; the
/// start value where the level has no counter; and a number where it is not defined.
pub proof fn placeholders_show_their_level(
    lvls: Map<u32, numbering::LvlView>,
    counts: Seq<u32>,
    k: u32,
)
    requires
        k < 9,
    ensures
        ({
            let shown = placeholder_text(lvls, counts, (k + 1) as nat);
            &&& lvls.contains_key(k) && k < counts.len() ==> shown == numerals::counter_text(
                lvls[k].fmt,
                counts[k as int],
            )
            &&& lvls.contains_key(k) && k >= counts.len() ==> shown == numerals::counter_text(
                lvls[k].fmt,
                lvls[k].start,
            )
            &&& !lvls.contains_key(k) && k < counts.len() ==> shown == numerals::counter_text(
                "bullet"@,
                counts[k as int],
            )
            &&& !lvls.contains_key(k) && k >= counts.len() ==> shown == numerals::counter_text(
                "bullet"@,
                1,
            )
        }),
{
}

/// The placeholders are the percent signs with a digit from one to nine behind.
pub proof fn placeholders_are_percent_and_digit(k: u32)
    requires
        k < 9,
    ensures
        placeholder((k + 1) as nat) == seq![
            '%',
            seq!['1', '2', '3', '4', '5', '6', '7', '8', '9'][k as int],
        ],
        starts_with_placeholder(placeholder((k + 1) as nat)),
{
}

/// A character that is no percent sign with a digit from one to nine behind it is shown as
/// it is, and what follows it as it would be on its own.
pub proof fn other_characters_are_kept(
    lvls: Map<u32, numbering::LvlView>,
    counts: Seq<u32>,
    c: char,
    rest: Seq<char>,
)
    requires
        c != '%' || rest.len() == 0 || !seq!['1', '2', '3', '4', '5', '6', '7', '8', '9'].contains(
            rest[0],
        ),
    ensures
        shown(lvls, counts, seq![c] + rest) == seq![c] + shown(lvls, counts, rest),
        shown(lvls, counts, Seq::empty()) == Seq::<char>::empty(),
{
    let label = seq![c] + rest;
    assert(label.skip(1) == rest);
    if rest.len() > 0 {
        let digits = seq!['1', '2', '3', '4', '5', '6', '7', '8', '9'];
        let d = rest[0];
        assert(label[1] == d);
        if '1' <= d && d <= '9' {
            assert(digits[d as u32 - 49] == d);
        }
    }
}

/// The label of an item: none exactly where its list or its level is not defined or its
/// level is a bullet; elsewhere the label of its level, shown with the counters that the
/// list has once the item is counted.
pub proof fn labels_show_the_counted_item(
    num: numbering::NumberingView,
    counters: Map<Seq<char>, Seq<u32>>,
    num_id: Seq<char>,
    ilvl: u32,
)
    ensures
        match lvls_for(num, num_id) {
            None => label(num, counters, num_id, ilvl) is None,
            Some(lvls) => if lvls.contains_key(ilvl) && lvls[ilvl].fmt != "bullet"@ {
                label(num, counters, num_id, ilvl) == Some(
                    shown(
                        lvls,
                        counted(num, counters, num_id, ilvl)[num_id],
                        lvls[ilvl].text,
                    ),
                )
            } else {
                label(num, counters, num_id, ilvl) is None
            },
        },
{
}

/// Counting an item advances the counters of its list from what they were; a list without
/// counters starts from none.
pub proof fn counting_advances_the_list(
    num: numbering::NumberingView,
    counters: Map<Seq<char>, Seq<u32>>,
    num_id: Seq<char>,
    ilvl: u32,
)
    requires
        num.num_to_abs.contains_key(num_id),
    ensures
        counted(num, counters, num_id, ilvl).contains_key(num_id),
        counters.contains_key(num_id) ==> counted(num, counters, num_id, ilvl)[num_id] == advanced(
            lvls_for(num, num_id)->0,
            counters[num_id],
            ilvl,
        ),
        !counters.contains_key(num_id) ==> counted(num, counters, num_id, ilvl)[num_id]
            == advanced(lvls_for(num, num_id)->0, Seq::empty(), ilvl),
        forall|id: Seq<char>|
            id != num_id ==> #[trigger] counted(num, counters, num_id, ilvl).contains_key(id)
                == counters.contains_key(id),
{
}

/// The view of the counters shows them as they are.
pub proof fn counters_are_shown_as_they_are(state: CounterState, id: Seq<char>)
    ensures
        state@.numbering == state.numbering@,
        state@.counters.contains_key(id) == state.counters@.contains_key(id),
        state.counters@.contains_key(id) ==> state@.counters[id] == state.counters@[id]@,
{
}

} // verus!
