//! Whole documents, from the texts of their parts.

use docx2md::{convert_xml, ConvertError, ConvertOptions};

const STYLES: &str = r#"<w:styles xmlns:w="http://schemas.openxmlformats.org/wordprocessingml/2006/main">
        <w:style w:styleId="3"><w:name w:val="heading 1"/><w:pPr><w:numPr><w:ilvl w:val="0"/><w:numId w:val="1"/></w:numPr></w:pPr></w:style>
        <w:style w:styleId="4"><w:name w:val="heading 2"/><w:pPr><w:numPr><w:ilvl w:val="1"/><w:numId w:val="1"/></w:numPr></w:pPr></w:style>
        <w:style w:styleId="19"><w:name w:val="toc 1"/></w:style>
    </w:styles>"#;

const NUMBERING: &str = r#"<w:numbering xmlns:w="http://schemas.openxmlformats.org/wordprocessingml/2006/main">
        <w:abstractNum w:abstractNumId="0">
            <w:lvl w:ilvl="0"><w:start w:val="1"/><w:numFmt w:val="decimal"/><w:lvlText w:val="%1"/></w:lvl>
            <w:lvl w:ilvl="1"><w:start w:val="1"/><w:numFmt w:val="decimal"/><w:lvlText w:val="%1.%2"/></w:lvl>
        </w:abstractNum>
        <w:abstractNum w:abstractNumId="1">
            <w:lvl w:ilvl="0"><w:numFmt w:val="bullet"/><w:lvlText w:val=""/></w:lvl>
            <w:lvl w:ilvl="1"><w:numFmt w:val="bullet"/><w:lvlText w:val=""/></w:lvl>
        </w:abstractNum>
        <w:abstractNum w:abstractNumId="2">
            <w:lvl w:ilvl="0"><w:start w:val="1"/><w:numFmt w:val="decimalEnclosedCircleChinese"/><w:lvlText w:val="%1"/></w:lvl>
        </w:abstractNum>
        <w:num w:numId="1"><w:abstractNumId w:val="0"/></w:num>
        <w:num w:numId="2"><w:abstractNumId w:val="1"/></w:num>
        <w:num w:numId="3"><w:abstractNumId w:val="2"/></w:num>
    </w:numbering>"#;

fn doc(body: &str) -> String {
    format!(r#"<w:document xmlns:w="http://schemas.openxmlformats.org/wordprocessingml/2006/main"><w:body>{body}</w:body></w:document>"#)
}

fn styles(inner: &str) -> String {
    format!(r#"<w:styles xmlns:w="w">{inner}</w:styles>"#)
}

fn numbering(inner: &str) -> String {
    format!(r#"<w:numbering xmlns:w="w">{inner}</w:numbering>"#)
}

fn p(text: &str) -> String {
    format!(r#"<w:p><w:r><w:t>{text}</w:t></w:r></w:p>"#)
}

fn p_num(text: &str, num_id: u32, ilvl: u32) -> String {
    format!(r#"<w:p><w:pPr><w:numPr><w:ilvl w:val="{ilvl}"/><w:numId w:val="{num_id}"/></w:numPr></w:pPr><w:r><w:t>{text}</w:t></w:r></w:p>"#)
}

fn p_style(text: &str, sid: u32) -> String {
    format!(r#"<w:p><w:pPr><w:pStyle w:val="{sid}"/></w:pPr><w:r><w:t>{text}</w:t></w:r></w:p>"#)
}

fn convert(body: &str, styles: &str, numbering: &str) -> String {
    convert_xml(&doc(body), styles, numbering, &ConvertOptions::default()).unwrap()
}

#[test]
fn headings_get_multilevel_numbers() {
    let body = format!("{}{}{}{}", p_style("简介", 3), p_style("文档目的", 4), p_style("概述", 3), p_style("背景", 4));
    let md = convert_xml(&doc(&body), STYLES, NUMBERING, &ConvertOptions::default()).unwrap();
    assert!(md.contains("# 1 简介"), "{md}");
    assert!(md.contains("## 1.1 文档目的"), "{md}");
    assert!(md.contains("# 2 概述"), "{md}");
    assert!(md.contains("## 2.1 背景"), "{md}");
}

#[test]
fn bullet_list_with_indent() {
    let body = format!("{}{}{}", p_num("一级A", 2, 0), p_num("二级A", 2, 1), p_num("一级B", 2, 0));
    let md = convert_xml(&doc(&body), STYLES, NUMBERING, &ConvertOptions::default()).unwrap();
    assert!(md.contains("- 一级A\n  - 二级A\n- 一级B"), "{md}");
}

#[test]
fn enclosed_circle_ordered_list() {
    let body = format!("{}{}", p_num("地图展示", 3, 0), p_num("数据采集", 3, 0));
    let md = convert_xml(&doc(&body), STYLES, NUMBERING, &ConvertOptions::default()).unwrap();
    assert!(md.contains("① 地图展示"), "{md}");
    assert!(md.contains("② 数据采集"), "{md}");
}

#[test]
fn numid_zero_cancels_numbering() {
    let body = format!(r#"<w:p><w:pPr><w:numPr><w:numId w:val="0"/></w:numPr></w:pPr><w:r><w:t>普通段落</w:t></w:r></w:p>"#);
    let md = convert_xml(&doc(&body), STYLES, NUMBERING, &ConvertOptions::default()).unwrap();
    assert!(md.contains("普通段落\n"), "{md}");
    assert!(!md.contains("- 普通段落"), "{md}");
}

#[test]
fn toc_skipped() {
    let body = format!("{}{}", p_style("1 简介\t1", 19), p("正文"));
    let md = convert_xml(&doc(&body), STYLES, NUMBERING, &ConvertOptions::default()).unwrap();
    assert!(!md.contains("简介"), "{md}");
    assert!(md.contains("正文"), "{md}");
}

#[test]
fn table_rendered() {
    let body = r#"<w:tbl>
            <w:tr><w:tc><w:p><w:r><w:t>名称</w:t></w:r></w:p></w:tc><w:tc><w:p><w:r><w:t>值</w:t></w:r></w:p></w:tc></w:tr>
            <w:tr><w:tc><w:p><w:r><w:t>a</w:t></w:r></w:p></w:tc><w:tc><w:p><w:r><w:t>b</w:t></w:r></w:p></w:tc></w:tr>
        </w:tbl>"#;
    let md = convert_xml(&doc(body), STYLES, NUMBERING, &ConvertOptions::default()).unwrap();
    assert!(md.contains("| 名称 | 值 |"), "{md}");
    assert!(md.contains("|---|---|"), "{md}");
    assert!(md.contains("| a | b |"), "{md}");
}

#[test]
fn whole_document_is_exact() {
    let body = format!(
        "{}{}{}{}{}",
        p_style("简介", 3),
        p("正文"),
        p_num("一", 2, 0),
        p_num("二", 2, 1),
        "<w:tbl><w:tr><w:tc><w:p><w:r><w:t>x</w:t></w:r></w:p></w:tc></w:tr></w:tbl>",
    );
    assert_eq!(convert(&body, STYLES, NUMBERING), "# 1 简介\n\n正文\n\n- 一\n  - 二\n| x |\n|---|\n\n");
}

#[test]
fn empty_body_gives_empty_text() {
    assert_eq!(convert("", STYLES, NUMBERING), "");
    assert_eq!(convert("text outside of paragraphs<w:sectPr/>", "", ""), "");
}

#[test]
fn document_that_is_not_xml_is_refused() {
    let r = convert_xml("<a>", "", "", &ConvertOptions::default());
    assert!(matches!(&r, Err(ConvertError::MalformedDocument(_))));
    assert_eq!(r.unwrap_err().message(), Some("document.xml 解析失败".to_string()));
    assert!(matches!(convert_xml("", "", "", &ConvertOptions::default()), Err(ConvertError::MalformedDocument(_))));
}

#[test]
fn document_without_body_is_refused() {
    let r = convert_xml("<w:document xmlns:w='w'/>", STYLES, NUMBERING, &ConvertOptions::default());
    assert!(matches!(&r, Err(ConvertError::NoBody)));
    assert_eq!(r.unwrap_err().message(), Some("document.xml 中没有 body".to_string()));
}

#[test]
fn malformed_styles_and_numbering_are_ignored() {
    let body = format!("{}{}", p_style("a", 3), p_num("b", 1, 1));
    assert_eq!(convert(&body, "<oops", ""), "a\n\n  - b\n");
}

#[test]
fn paragraph_numbering_comes_before_style_numbering() {
    let st = styles(
        r#"<w:style w:styleId="L"><w:name w:val="List"/><w:pPr><w:numPr><w:numId w:val="1"/></w:numPr></w:pPr></w:style>"#,
    );
    let own = r#"<w:p><w:pPr><w:pStyle w:val="L"/><w:numPr><w:ilvl w:val="1"/><w:numId w:val="2"/></w:numPr></w:pPr><w:t>own</w:t></w:p>"#;
    let by_style = r#"<w:p><w:pPr><w:pStyle w:val="L"/></w:pPr><w:t>style</w:t></w:p>"#;
    let none = r#"<w:p><w:pPr><w:pStyle w:val="L"/><w:numPr><w:numId w:val="0"/></w:numPr></w:pPr><w:t>none</w:t></w:p>"#;
    let body = format!("{own}{by_style}{none}");
    assert_eq!(convert(&body, &st, NUMBERING), "  - own\n1 style\nnone\n\n");
}

#[test]
fn style_numbering_of_zero_is_none() {
    let st = styles(
        r#"<w:style w:styleId="L"><w:name w:val="List"/><w:pPr><w:numPr><w:numId w:val="0"/></w:numPr></w:pPr></w:style>"#,
    );
    let body = r#"<w:p><w:pPr><w:pStyle w:val="L"/></w:pPr><w:t>x</w:t></w:p>"#;
    assert_eq!(convert(body, &st, NUMBERING), "x\n\n");
}

#[test]
fn toc_is_kept_on_request() {
    let body = format!("{}{}", p_style("1 简介\t1", 19), p("正文"));
    let options = ConvertOptions { keep_toc: true };
    let md = convert_xml(&doc(&body), STYLES, NUMBERING, &options.clone()).unwrap();
    assert_eq!(md, "1 简介\t1\n\n正文\n\n");
    assert_eq!(convert(&body, STYLES, NUMBERING), "正文\n\n");
}

#[test]
fn toc_and_empty_paragraphs_are_not_counted() {
    let toc = r#"<w:p><w:pPr><w:pStyle w:val="19"/><w:numPr><w:numId w:val="3"/></w:numPr></w:pPr><w:t>toc</w:t></w:p>"#;
    let body = format!("{}{toc}{}{}", p_num("a", 3, 0), p_num(" ", 3, 0), p_num("b", 3, 0));
    assert_eq!(convert(&body, STYLES, NUMBERING), "① a\n② b\n");
}

#[test]
fn style_names_are_read_in_any_letter_case() {
    let st = styles(
        r#"<w:style w:styleId="a"><w:name w:val="Heading 3"/></w:style>
           <w:style w:styleId="b"><w:name w:val="TOC Überschrift"/></w:style>
           <w:style w:styleId="c"><w:name w:val="HEADING +2"/></w:style>
           <w:style w:styleId="d"><w:name w:val="heading two"/></w:style>"#,
    );
    let para = |sid: &str| format!(r#"<w:p><w:pPr><w:pStyle w:val="{sid}"/></w:pPr><w:t>{sid}</w:t></w:p>"#);
    let body = format!("{}{}{}{}", para("a"), para("b"), para("c"), para("d"));
    assert_eq!(convert(&body, &st, ""), "### a\n\n## c\n\nd\n\n");
}

#[test]
fn headings_have_at_most_six_hashes() {
    let st = styles(
        r#"<w:style w:styleId="1"><w:name w:val="heading 1"/></w:style>
           <w:style w:styleId="6"><w:name w:val="heading 6"/></w:style>
           <w:style w:styleId="9"><w:name w:val="heading 9"/></w:style>"#,
    );
    let body = format!("{}{}{}", p_style("a", 6), p_style("b", 9), p_style("c", 1));
    assert_eq!(convert(&body, &st, ""), "###### a\n\n###### b\n\n# c\n\n");
}

#[test]
fn heading_levels_go_from_one_to_nine() {
    let st = styles(
        r#"<w:style w:styleId="0"><w:name w:val="heading 0"/></w:style>
           <w:style w:styleId="10"><w:name w:val="heading 10"/></w:style>"#,
    );
    let body = format!("{}{}", p_style("a", 0), p_style("b", 10));
    assert_eq!(convert(&body, &st, ""), "a\n\nb\n\n");
}

#[test]
fn bulleted_heading_has_no_number() {
    let st = styles(
        r#"<w:style w:styleId="1"><w:name w:val="heading 1"/><w:pPr><w:numPr><w:numId w:val="2"/></w:numPr></w:pPr></w:style>"#,
    );
    assert_eq!(convert(&p_style("a", 1), &st, NUMBERING), "# a\n\n");
}

#[test]
fn empty_label_shows_in_items_only() {
    let num = numbering(
        r#"<w:abstractNum w:abstractNumId="0"><w:lvl w:ilvl="0"><w:numFmt w:val="none"/><w:lvlText w:val=""/></w:lvl></w:abstractNum>
           <w:num w:numId="1"><w:abstractNumId w:val="0"/></w:num>"#,
    );
    let body = format!("{}{}", p_num("item", 1, 0), p_style("head", 3));
    assert_eq!(convert(&body, STYLES, &num), " item\n# head\n\n");
}

#[test]
fn lists_of_one_definition_count_on_their_own() {
    let num = numbering(
        r#"<w:abstractNum w:abstractNumId="7"><w:lvl w:ilvl="0"><w:start w:val="5"/><w:numFmt w:val="upperLetter"/><w:lvlText w:val="(%1)"/></w:lvl></w:abstractNum>
           <w:num w:numId="1"><w:abstractNumId w:val="7"/></w:num>
           <w:num w:numId="2"><w:abstractNumId w:val="7"/></w:num>"#,
    );
    let body = format!("{}{}{}{}", p_num("a", 1, 0), p_num("b", 2, 0), p_num("c", 1, 0), p_num("d", 2, 0));
    assert_eq!(convert(&body, "", &num), "(E) a\n(E) b\n(F) c\n(F) d\n");
}

#[test]
fn undefined_list_and_level_are_bullets() {
    let num = numbering(
        r#"<w:abstractNum w:abstractNumId="7"><w:lvl w:ilvl="0"/></w:abstractNum>
           <w:num w:numId="1"><w:abstractNumId w:val="7"/></w:num>
           <w:num w:numId="2"><w:abstractNumId w:val="8"/></w:num>"#,
    );
    let body = format!("{}{}{}{}", p_num("a", 1, 0), p_num("b", 1, 1), p_num("c", 2, 0), p_num("d", 9, 0));
    assert_eq!(convert(&body, "", &num), "1. a\n  - b\n- c\n- d\n");
}

#[test]
fn later_definitions_replace_earlier_ones() {
    let num = numbering(
        r#"<w:abstractNum w:abstractNumId="1"><w:lvl w:ilvl="0"><w:lvlText w:val="old"/></w:lvl></w:abstractNum>
           <w:abstractNum w:abstractNumId="1">
             <w:lvl w:ilvl="0"><w:lvlText w:val="older"/></w:lvl>
             <w:lvl w:ilvl="0"><w:lvlText w:val="%1)"/></w:lvl>
           </w:abstractNum>
           <w:num w:numId="1"><w:abstractNumId w:val="none"/></w:num>
           <w:num w:numId="1"><w:abstractNumId w:val="1"/></w:num>"#,
    );
    assert_eq!(convert(&p_num("a", 1, 0), "", &num), "1) a\n");
}

#[test]
fn paragraph_text_is_joined_and_trimmed() {
    let body = "<w:p><w:pPr><w:tabs><w:tab/></w:tabs></w:pPr><w:r><w:t> a</w:t><w:tab/><w:t>b<!-- c --></w:t><w:br/></w:r>\
                <w:r><w:t/><w:t>\u{3000}c\u{a0}</w:t></w:r></w:p>";
    assert_eq!(convert(body, "", ""), "a b \u{3000}c\n\n");
}

#[test]
fn tables_are_padded_and_escaped() {
    let body = "<w:tbl><w:tr><w:tc><w:p><w:t>a|b</w:t></w:p></w:tc></w:tr>\
                <w:tr><w:tc/><w:tc><w:p><w:t>c</w:t></w:p><w:p><w:t>lost</w:t></w:p></w:tc><w:tc><w:p/></w:tc></w:tr></w:tbl>\
                <w:tbl/>\
                <w:tbl><w:tr/></w:tbl>";
    assert_eq!(convert(body, "", ""), "| a\\|b |  |  |\n|---|---|---|\n|  | c |  |\n\n|  |\n|\n\n");
}

#[test]
fn lists_go_on_after_tables() {
    let body = format!(
        "{}<w:tbl><w:tr><w:tc><w:p><w:t>x</w:t></w:p></w:tc></w:tr></w:tbl>{}",
        p_num("a", 3, 0),
        p_num("b", 3, 0)
    );
    assert_eq!(convert(&body, STYLES, NUMBERING), "① a\n| x |\n|---|\n\n② b\n");
}

#[test]
fn appending_to_a_body_only_appends() {
    let first = format!("{}{}", p_num("a", 3, 0), p("b"));
    let then = format!("{}{}", p("c"), p_num("d", 3, 0));
    let start = convert(&first, STYLES, NUMBERING);
    let whole = convert(&format!("{first}{then}"), STYLES, NUMBERING);
    assert!(whole.starts_with(&start));
    assert_eq!(whole, "① a\nb\n\nc\n\n② d\n");
}

#[test]
fn unnumbered_beginning_adds_up() {
    let first = format!("{}<w:tbl><w:tr><w:tc/></w:tr></w:tbl>", p("b"));
    let then = format!("{}{}", p_num("a", 3, 0), p_style("c", 3));
    let whole = convert(&format!("{first}{then}"), STYLES, NUMBERING);
    assert_eq!(whole, convert(&first, STYLES, NUMBERING) + &convert(&then, STYLES, NUMBERING));
    assert_eq!(whole, "b\n\n|  |\n|---|\n\n① a\n# 1 c\n\n");
}

#[test]
fn skipped_elements_can_be_left_out() {
    let kept = format!("{}{}", p_num("a", 3, 0), p_num("b", 3, 0));
    let mixed = format!(
        "<w:bookmarkStart/>{}{}<w:tbl/>{}{}<w:sectPr/>",
        p_num("a", 3, 0),
        p_num(" ", 3, 0),
        p_style("toc", 19),
        p_num("b", 3, 0),
    );
    assert_eq!(convert(&mixed, STYLES, NUMBERING), convert(&kept, STYLES, NUMBERING));
    assert_eq!(convert(&kept, STYLES, NUMBERING), "① a\n② b\n");
}

#[test]
fn cells_show_their_first_paragraph_alone() {
    let bare = "<w:tbl><w:tr><w:tc><w:p><w:t>a</w:t></w:p></w:tc></w:tr></w:tbl>";
    let full = format!("<w:tbl><w:tr><w:tc>{}{}</w:tc></w:tr></w:tbl>", p_num("a", 3, 0), p("b"));
    assert_eq!(convert(&full, STYLES, NUMBERING), convert(bare, STYLES, NUMBERING));
    assert_eq!(convert(bare, STYLES, NUMBERING), "| a |\n|---|\n\n");
}

#[test]
fn level_overrides_are_ignored() {
    let num = |inner: &str| {
        numbering(&format!(
            r#"<w:abstractNum w:abstractNumId="0"><w:lvl w:ilvl="0"/></w:abstractNum>
               <w:num w:numId="1"><w:abstractNumId w:val="0"/>{inner}</w:num>"#
        ))
    };
    let overridden = num(
        r#"<w:lvlOverride w:ilvl="0"><w:startOverride w:val="7"/><w:lvl w:ilvl="0"><w:lvlText w:val="x"/></w:lvl></w:lvlOverride>"#,
    );
    assert_eq!(convert(&p_num("a", 1, 0), "", &overridden), convert(&p_num("a", 1, 0), "", &num("")));
    assert_eq!(convert(&p_num("a", 1, 0), "", &overridden), "1. a\n");
}

#[test]
fn attributes_and_elements_need_no_prefix() {
    let doc = "<document><body><p><pPr><pStyle val='h'/></pPr><r><t>x</t></r></p></body></document>";
    let st = "<styles><style styleId='h'><name val='heading 2'/></style></styles>";
    assert_eq!(convert_xml(doc, st, "", &ConvertOptions::default()).unwrap(), "## x\n\n");
}
