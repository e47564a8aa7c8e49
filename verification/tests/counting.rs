//! Counters, numerals and the small operations on text.

use docx2md::counters::CounterState;
use docx2md::numbering::{parse_numbering, LvlDef, Numbering};
use docx2md::numerals::{format_counter, to_roman};
use docx2md::paragraph::{para_numpr, para_text};
use docx2md::styles::{parse_styles, Styles};
use docx2md::table::render_table;
use docx2md::text::{chars_of, is_white_space, parse_u32, replace, trim};
use docx2md::xml::{attr, children, find_path, tag, XmlNode, XmlTree};

fn lvl(ilvl: u32, start: u32, fmt: &str, text: &str) -> String {
    format!(
        r#"<w:lvl w:ilvl="{ilvl}"><w:start w:val="{start}"/><w:numFmt w:val="{fmt}"/><w:lvlText w:val="{text}"/></w:lvl>"#
    )
}

fn list(levels: &str) -> Numbering {
    parse_numbering(&format!(
        r#"<w:numbering xmlns:w="w"><w:abstractNum w:abstractNumId="0">{levels}</w:abstractNum>
           <w:num w:numId="1"><w:abstractNumId w:val="0"/></w:num>
           <w:num w:numId="2"><w:abstractNumId w:val="0"/></w:num></w:numbering>"#
    ))
}

fn label(state: &mut CounterState, ilvl: u32) -> String {
    let (bullet, text) = state.resolve("1", ilvl);
    assert!(!bullet);
    text
}

#[test]
fn outer_levels_reset_inner_ones() {
    let levels = lvl(0, 1, "decimal", "%1.") + &lvl(1, 1, "lowerLetter", "%1.%2") + &lvl(2, 1, "decimal", "%1.%2.%3");
    let numbering = list(&levels);
    let mut state = CounterState::new(&numbering);
    let shown: Vec<String> = [0, 1, 2, 2, 1, 2, 0, 1].iter().map(|ilvl| label(&mut state, *ilvl)).collect();
    assert_eq!(shown, ["1.", "1.a", "1.a.1", "1.a.2", "1.b", "1.b.1", "2.", "2.a"]);
}

#[test]
fn skipped_levels_stand_at_their_start() {
    let levels = lvl(0, 4, "decimal", "%1") + &lvl(1, 0, "decimal", "%2") + &lvl(2, 7, "decimal", "%1-%2-%3");
    let numbering = list(&levels);
    let mut state = CounterState::new(&numbering);
    assert_eq!(label(&mut state, 2), "4-0-7");
    assert_eq!(label(&mut state, 2), "4-0-8");
    assert_eq!(label(&mut state, 0), "5");
    assert_eq!(label(&mut state, 1), "1");
}

#[test]
fn items_count_up_from_the_start() {
    let numbering = list(&lvl(0, 10, "decimal", "%1"));
    let mut state = CounterState::new(&numbering);
    for n in 10..60 {
        assert_eq!(label(&mut state, 0), n.to_string());
    }
}

#[test]
fn counter_wraps_after_the_largest_value() {
    let numbering = list(&lvl(0, u32::MAX, "decimal", "%1"));
    let mut state = CounterState::new(&numbering);
    assert_eq!(label(&mut state, 0), "4294967295");
    assert_eq!(label(&mut state, 0), "0");
}

#[test]
fn lists_do_not_disturb_each_other() {
    let numbering = list(&lvl(0, 1, "decimal", "%1"));
    let mut state = CounterState::new(&numbering);
    assert_eq!(state.resolve("1", 0), (false, "1".to_string()));
    assert_eq!(state.resolve("2", 0), (false, "1".to_string()));
    assert_eq!(state.resolve("1", 0), (false, "2".to_string()));
    assert_eq!(state.resolve("nowhere", 0), (true, String::new()));
    assert_eq!(state.resolve("2", 0), (false, "2".to_string()));
}

#[test]
fn labels_keep_what_is_no_placeholder() {
    let levels = lvl(0, 3, "upperRoman", "第 %1 章 (100%, %0, %x, %10)") + &lvl(1, 1, "decimal", "%1%2%9");
    let numbering = list(&levels);
    let mut state = CounterState::new(&numbering);
    assert_eq!(label(&mut state, 0), "第 III 章 (100%, %0, %x, III0)");
    assert_eq!(label(&mut state, 1), "III11");
}

#[test]
fn percent_sign_before_a_placeholder_is_kept() {
    let levels = lvl(0, 8, "decimal", "%1") + &lvl(1, 1, "decimal", "%%2") + &lvl(2, 5, "decimal", "%3%%1%");
    let numbering = list(&levels);
    let mut state = CounterState::new(&numbering);
    assert_eq!(label(&mut state, 1), "%1");
    assert_eq!(label(&mut state, 1), "%2");
    assert_eq!(label(&mut state, 2), "5%8%");
}

#[test]
fn bullets_have_no_label_but_count() {
    let levels = lvl(0, 1, "bullet", "%1") + &lvl(1, 1, "decimal", "%1.%2");
    let numbering = list(&levels);
    let mut state = CounterState::new(&numbering);
    assert_eq!(state.resolve("1", 0), (true, String::new()));
    assert_eq!(state.resolve("1", 0), (true, String::new()));
    assert_eq!(label(&mut state, 1), "2.1");
    assert_eq!(state.resolve("1", 5), (true, String::new()));
}

#[test]
fn level_without_definition_is_a_bullet() {
    let d = LvlDef::default();
    assert_eq!((d.fmt.as_str(), d.text.as_str(), d.start), ("bullet", "", 1));
}

#[test]
fn decimal_and_unknown_formats() {
    for fmt in ["decimal", "decimalZero", "bullet", "", "ordinal"] {
        assert_eq!(format_counter(fmt, 0), "0");
        assert_eq!(format_counter(fmt, 7), "7");
        assert_eq!(format_counter(fmt, 1090), "1090");
        assert_eq!(format_counter(fmt, u32::MAX), "4294967295");
    }
}

#[test]
fn letter_formats() {
    assert_eq!(format_counter("lowerLetter", 1), "a");
    assert_eq!(format_counter("lowerLetter", 26), "z");
    assert_eq!(format_counter("lowerLetter", 0), "0");
    assert_eq!(format_counter("lowerLetter", 27), "27");
    assert_eq!(format_counter("upperLetter", 1), "A");
    assert_eq!(format_counter("upperLetter", 26), "Z");
    assert_eq!(format_counter("upperLetter", 0), "0");
    assert_eq!(format_counter("upperLetter", 27), "27");
}

#[test]
fn circled_formats() {
    for fmt in ["decimalEnclosedCircleChinese", "decimalEnclosedCircle"] {
        assert_eq!(format_counter(fmt, 1), "①");
        assert_eq!(format_counter(fmt, 11), "⑪");
        assert_eq!(format_counter(fmt, 20), "⑳");
        assert_eq!(format_counter(fmt, 0), "0");
        assert_eq!(format_counter(fmt, 21), "21");
    }
}

#[test]
fn chinese_formats() {
    for fmt in ["chineseCounting", "chineseCountingThousand", "chineseLegalSimplified"] {
        assert_eq!(format_counter(fmt, 0), "零");
        assert_eq!(format_counter(fmt, 5), "五");
        assert_eq!(format_counter(fmt, 9), "九");
        assert_eq!(format_counter(fmt, 10), "10");
    }
}

#[test]
fn roman_formats() {
    assert_eq!(format_counter("upperRoman", 1994), "MCMXCIV");
    assert_eq!(format_counter("lowerRoman", 1994), "mcmxciv");
    assert_eq!(format_counter("lowerRoman", 0), "i");
    assert_eq!(to_roman(0), "I");
    assert_eq!(to_roman(1), "I");
    assert_eq!(to_roman(49), "XLIX");
    assert_eq!(to_roman(444), "CDXLIV");
    assert_eq!(to_roman(888), "DCCCLXXXVIII");
    assert_eq!(to_roman(4000), "MMMM");
}

#[test]
fn roman_numerals_read_back() {
    let value = |c: char| match c {
        'I' => 1,
        'V' => 5,
        'X' => 10,
        'L' => 50,
        'C' => 100,
        'D' => 500,
        _ => 1000,
    };
    for n in 1..5000 {
        let letters: Vec<i32> = to_roman(n).chars().map(value).collect();
        let mut sum: i32 = 0;
        for i in 0..letters.len() {
            if i + 1 < letters.len() && letters[i] < letters[i + 1] {
                sum -= letters[i];
            } else {
                sum += letters[i];
            }
        }
        assert_eq!(sum, n as i32);
    }
}

#[test]
fn white_space_is_that_of_unicode() {
    for c in '\0'..=char::MAX {
        assert_eq!(is_white_space(c), c.is_whitespace(), "{c:?}");
    }
}

#[test]
fn trimming_is_that_of_the_standard_library() {
    for s in ["", " ", "a", " a b ", "\u{2003}\n x\u{85}", "\u{200b}y\u{200b}", "\t\t\r\n"] {
        assert_eq!(trim(&chars_of(s)), s.trim());
    }
}

#[test]
fn numbers_are_read_like_the_standard_library_does() {
    for s in [
        "", "+", "0", "007", "+12", "-1", "-0", "++1", " 1", "1 ", "1_0", "4294967295", "4294967296",
        "+4294967296", "99999999999999999999999", "00000000000000000000001", "１", "1a", "0x1",
    ] {
        assert_eq!(parse_u32(s), s.parse::<u32>().ok(), "{s:?}");
    }
}

#[test]
fn replacing_is_that_of_the_standard_library() {
    for (s, pat, with) in [
        ("a|b||c|", "|", "\\|"),
        ("%1.%2", "%1", "12"),
        ("%%1", "%1", "%"),
        ("aaaa", "aa", "b"),
        ("aaa", "aa", "aa"),
        ("", "x", "y"),
        ("x", "xyz", "q"),
        ("abcabc", "bc", ""),
    ] {
        let out: String = replace(&chars_of(s), &chars_of(pat), with).into_iter().collect();
        assert_eq!(out, s.replace(pat, with));
    }
}

#[test]
fn tables_of_given_rows() {
    let row = |cells: &[&str]| cells.iter().map(|s| s.to_string()).collect::<Vec<String>>();
    assert_eq!(render_table(&vec![]), "");
    assert_eq!(render_table(&vec![row(&[])]), "|  |\n|");
    assert_eq!(render_table(&vec![row(&["a"])]), "| a |\n|---|");
    assert_eq!(
        render_table(&vec![row(&["a", "b"]), row(&["c"]), row(&["d", "e", "f"])]),
        "| a | b |  |\n|---|---|---|\n| c |  |  |\n| d | e | f |"
    );
}

fn node(tag: &str, text: Option<&str>, attributes: &[(&str, &str)], size: usize) -> XmlNode {
    XmlNode {
        is_element: tag != "",
        tag: tag.to_string(),
        text: text.map(|t| t.to_string()),
        attributes: attributes.iter().map(|(n, v)| (n.to_string(), v.to_string())).collect(),
        size,
    }
}

fn sample() -> XmlTree {
    XmlTree {
        nodes: vec![
            node("", None, &[], 9),
            node("p", None, &[], 8),
            node("pPr", None, &[], 4),
            node("numPr", None, &[], 3),
            node("numId", None, &[("w:id", "x"), ("w:val", "12"), ("val", "13")], 1),
            node("ilvl", None, &[("val", "2")], 1),
            node("t", Some(" a"), &[], 2),
            node("", Some(" a"), &[], 1),
            node("br", None, &[], 1),
        ],
    }
}

#[test]
fn trees_are_searched_by_name() {
    let tree = sample();
    assert_eq!(children(&tree, 0), [1]);
    assert_eq!(children(&tree, 1), [2, 6, 8]);
    assert_eq!(children(&tree, 3), [4, 5]);
    assert_eq!(children(&tree, 8), [0usize; 0]);
    assert_eq!(tag(&tree, 2), "pPr");
    assert_eq!(tag(&tree, 7), "");
    assert_eq!(find_path(&tree, 1, &[]), Some(1));
    assert_eq!(find_path(&tree, 1, &["pPr", "numPr", "ilvl"]), Some(5));
    assert_eq!(find_path(&tree, 1, &["numPr"]), None);
    assert_eq!(find_path(&tree, 1, &[""]), None);
    assert_eq!(attr(&tree, 4, "val"), Some("12"));
    assert_eq!(attr(&tree, 4, "w:val"), Some("12"));
    assert_eq!(attr(&tree, 4, "w"), None);
    assert_eq!(attr(&tree, 5, "id"), None);
}

#[test]
fn paragraphs_are_read_from_their_subtree() {
    let tree = sample();
    assert_eq!(para_text(&tree, 1), "a");
    assert_eq!(para_text(&tree, 2), "");
    assert_eq!(para_numpr(&tree, 1, &Styles::default()), (Some("12".to_string()), 2, None));
    assert_eq!(para_numpr(&tree, 6, &Styles::default()), (None, 0, None));
}

#[test]
fn styles_are_read_by_id() {
    let styles = parse_styles(
        r#"<s:styles xmlns:s="s"><s:style s:styleId="a"><s:name s:val="heading 1"/></s:style>
           <s:style><s:name s:val="heading 2"/></s:style>
           <s:style s:styleId="b"><s:pPr><s:numPr><s:ilvl s:val="x"/><s:numId s:val="4"/></s:numPr></s:pPr></s:style>
           <s:style s:styleId="a"><s:name s:val="heading 9"/></s:style>
           <s:style s:styleId="a"><s:name s:val="heading 12"/></s:style>
           <s:style s:styleId="a"><s:name s:val="tocs"/></s:style></s:styles>"#,
    );
    assert_eq!(styles.headings.get("a"), Some(&9));
    assert_eq!(styles.headings.len(), 1);
    assert_eq!(styles.info.len(), 2);
    assert_eq!(styles.info.get("b").unwrap().num_id, Some("4".to_string()));
    assert_eq!(styles.info.get("b").unwrap().ilvl, 0);
    assert_eq!(styles.info.get("a").unwrap().num_id, None);
    assert_eq!(styles.toc, ["a"]);
}
