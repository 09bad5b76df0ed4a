use polka::rules::html::utils::tokensink::find_nth_tag;

#[test]
fn normal_self_loop_no_tags() {
        assert_eq!(find_nth_tag("hello world", "div", 0, true), None);
}

#[test]
fn find_nth_tag_tests_empty_comment() {
        assert_eq!(find_nth_tag("<!----><div>", "div", 0, true), Some(7));
}

#[test]
fn tag_inside_comment_not_matched() {
        assert_eq!(find_nth_tag("<!-- <div> -->", "div", 0, true), None);
}

#[test]
fn non_matching_tag_skipped() {
        assert_eq!(find_nth_tag("<span>text</span>", "div", 0, true), None);
}

#[test]
fn match_start_tag() {
        assert_eq!(find_nth_tag("<div>", "div", 0, true), Some(0));
}

#[test]
fn match_close_tag() {
        assert_eq!(find_nth_tag("</div>", "div", 0, false), Some(0));
}

#[test]
fn match_nth() {
        let html = "<div>a</div><div>b</div>";
        assert_eq!(find_nth_tag(html, "div", 0, true), Some(0));
        assert_eq!(find_nth_tag(html, "div", 1, true), Some(12));
        assert_eq!(find_nth_tag(html, "div", 2, true), None);
}

#[test]
fn boundary_rejects_longer_tag() {
        assert_eq!(find_nth_tag("<spaniel>", "span", 0, true), None);
}

#[test]
fn tag_at_eof_no_close() {
        assert_eq!(find_nth_tag("<div", "div", 0, true), Some(0));
}

#[test]
fn case_insensitive_match() {
        assert_eq!(find_nth_tag("<DIV>", "div", 0, true), Some(0));
        assert_eq!(find_nth_tag("<Div>", "div", 0, true), Some(0));
}

#[test]
fn intag_to_normal_via_new_open() {
        assert_eq!(find_nth_tag("<span <div>", "div", 0, true), Some(6));
}

#[test]
fn start_tag_inside_double_quoted_attr() {
        assert_eq!(find_nth_tag(r#"<a href="<div>">real<div>"#, "div", 0, true), Some(20));
}

#[test]
fn start_tag_inside_single_quoted_attr() {
        assert_eq!(find_nth_tag("<a href='<div>'>real<div>", "div", 0, true), Some(20));
}

#[test]
fn close_tag_inside_quoted_attr() {
        assert_eq!(find_nth_tag(r#"<a href="</div>"></div>"#, "div", 0, false), Some(17));
}

#[test]
fn boundary_self_closing() {
        assert_eq!(find_nth_tag("<div/>", "div", 0, true), Some(0));
}

#[test]
fn boundary_whitespace() {
        assert_eq!(find_nth_tag("<div\n>", "div", 0, true), Some(0));
}

#[test]
fn comment_inside_quoted_attr() {
        assert_eq!(find_nth_tag(r#"<a data="<!--"><div>"#, "div", 0, true), Some(15));
}

#[test]
fn quoted_attr_inside_comment() {
        assert_eq!(find_nth_tag(r#"<!-- <a href="x"> --><div>"#, "div", 0, true), Some(21));
}

#[test]
fn comment_close_inside_quoted_attr() {
        assert_eq!(find_nth_tag(r#"<a data="-->"><div>"#, "div", 0, true), Some(14));
}

#[test]
fn nested_matching_tags() {
        let html = "<div><div></div></div>";
        assert_eq!(find_nth_tag(html, "div", 0, true), Some(0));
        assert_eq!(find_nth_tag(html, "div", 1, true), Some(5));
        assert_eq!(find_nth_tag(html, "div", 0, false), Some(10));
        assert_eq!(find_nth_tag(html, "div", 1, false), Some(16));
}

#[test]
fn close_tag_in_open_tag_attrs() {
        assert_eq!(find_nth_tag("<div </div>", "div", 0, false), Some(5));
}

#[test]
fn mixed_tags_counting() {
        let html = "<span><div><em><div><b>";
        assert_eq!(find_nth_tag(html, "div", 0, true), Some(6));
        assert_eq!(find_nth_tag(html, "div", 1, true), Some(15));
        assert_eq!(find_nth_tag(html, "div", 2, true), None);
}

#[test]
fn comment_between_matches() {
        let html = "<div><!-- <div> --><div>";
        assert_eq!(find_nth_tag(html, "div", 0, true), Some(0));
        assert_eq!(find_nth_tag(html, "div", 1, true), Some(19));
        assert_eq!(find_nth_tag(html, "div", 2, true), None);
}

#[test]
fn tag_in_comment_in_quote() {
        assert_eq!(find_nth_tag(r#"<a x="<!-- <div> -->"><div>"#, "div", 0, true), Some(22));
}

#[test]
fn start_search_ignores_close_tags() {
        assert_eq!(find_nth_tag("</div><div>", "div", 0, true), Some(6));
}

#[test]
fn close_search_ignores_start_tags() {
        assert_eq!(find_nth_tag("<div></div>", "div", 0, false), Some(5));
}

#[test]
fn count_offset_all_start_tags() {
        let html = "<div>a<div>b<div>c</div></div></div>";
        assert_eq!(find_nth_tag(html, "div", 0, true), Some(0));
        assert_eq!(find_nth_tag(html, "div", 1, true), Some(6));
        assert_eq!(find_nth_tag(html, "div", 2, true), Some(12));
        assert_eq!(find_nth_tag(html, "div", 3, true), None);
}

#[test]
fn count_offset_all_close_tags() {
        let html = "<div>a<div>b<div>c</div></div></div>";
        assert_eq!(find_nth_tag(html, "div", 0, false), Some(18));
        assert_eq!(find_nth_tag(html, "div", 1, false), Some(24));
        assert_eq!(find_nth_tag(html, "div", 2, false), Some(30));
        assert_eq!(find_nth_tag(html, "div", 3, false), None);
}

#[test]
fn count_offset_mixed_tags() {
        let html = "<p>x</p><div>y</div><p>z</p>";
        assert_eq!(find_nth_tag(html, "p", 0, true), Some(0));
        assert_eq!(find_nth_tag(html, "p", 1, true), Some(20));
        assert_eq!(find_nth_tag(html, "p", 2, true), None);
        assert_eq!(find_nth_tag(html, "p", 0, false), Some(4));
        assert_eq!(find_nth_tag(html, "p", 1, false), Some(24));
        assert_eq!(find_nth_tag(html, "p", 2, false), None);
        assert_eq!(find_nth_tag(html, "div", 0, true), Some(8));
        assert_eq!(find_nth_tag(html, "div", 1, true), None);
        assert_eq!(find_nth_tag(html, "div", 0, false), Some(14));
        assert_eq!(find_nth_tag(html, "div", 1, false), None);
}

#[test]
fn offset_points_to_correct_bytes() {
        let html = "hello<div>world<div>!";
        let off0 = find_nth_tag(html, "div", 0, true).unwrap();
        let off1 = find_nth_tag(html, "div", 1, true).unwrap();
        assert_eq!(&html.as_bytes()[off0..off0 + 4], b"<div");
        assert_eq!(&html.as_bytes()[off1..off1 + 4], b"<div");
        assert_ne!(off0, off1);
}

#[test]
fn find_nth_tag_tests_empty_input() {
        assert_eq!(find_nth_tag("", "div", 0, true), None);
}

#[test]
fn empty_angle_brackets() {
        assert_eq!(find_nth_tag("<><div>", "div", 0, true), Some(2));
}

#[test]
fn single_byte_no_match() {
        assert_eq!(find_nth_tag("x", "div", 0, true), None);
}

#[test]
fn single_byte_open_angle() {
        assert_eq!(find_nth_tag("<", "div", 0, true), None);
}

#[test]
fn pattern_longer_than_input() {
        assert_eq!(find_nth_tag("<d", "div", 0, true), None);
}

#[test]
fn pattern_exact_end_of_input_start() {
        assert_eq!(find_nth_tag("<div", "div", 0, true), Some(0));
}

#[test]
fn pattern_exact_end_of_input_close() {
        assert_eq!(find_nth_tag("</div", "div", 0, false), Some(0));
}

#[test]
fn tag_at_end_of_input() {
        assert_eq!(find_nth_tag("hello<div", "div", 0, true), Some(5));
}

#[test]
fn n_zero_single_match() {
        assert_eq!(find_nth_tag("<div>", "div", 0, true), Some(0));
}

#[test]
fn n_beyond_single_match() {
        assert_eq!(find_nth_tag("<div>", "div", 1, true), None);
}

#[test]
fn n_large() {
        assert_eq!(find_nth_tag("<div><div><div>", "div", 100, true), None);
}

#[test]
fn single_char_tag() {
        assert_eq!(find_nth_tag("<b>bold</b>", "b", 0, true), Some(0));
        assert_eq!(find_nth_tag("<b>bold</b>", "b", 0, false), Some(7));
}

#[test]
fn incomplete_comment_eof() {
        assert_eq!(find_nth_tag("<!--<div>", "div", 0, true), None);
}

#[test]
fn comment_partial_close_eof() {
        assert_eq!(find_nth_tag("<!-- --<div>", "div", 0, true), None);
}

#[test]
fn tag_immediately_after_comment() {
        assert_eq!(find_nth_tag("<!--x--><div>", "div", 0, true), Some(8));
}

#[test]
fn unclosed_quote_eof() {
        assert_eq!(find_nth_tag(r#"<a href="<div>"#, "div", 0, true), None);
}

#[test]
fn unclosed_tag_eof() {
        assert_eq!(find_nth_tag("<span foo bar", "div", 0, true), None);
}

#[test]
fn find_nth_tag_tests_adjacent_comments() {
        assert_eq!(find_nth_tag("<!--a--><!--b--><div>", "div", 0, true), Some(16));
}

#[test]
fn fake_comment_prefix() {
        assert_eq!(find_nth_tag("<!-<div>", "div", 0, true), Some(3));
}

#[test]
fn comment_open_at_eof() {
        assert_eq!(find_nth_tag("<!--", "div", 0, true), None);
}

#[test]
fn angle_bracket_near_eof_not_comment() {
        assert_eq!(find_nth_tag("<!-", "div", 0, true), None);
}

#[test]
fn close_comment_in_normal() {
        assert_eq!(find_nth_tag("--><div>", "div", 0, true), Some(3));
}

#[test]
fn match_immediately_after_close() {
        assert_eq!(find_nth_tag("<span><div>", "div", 0, true), Some(6));
}

#[test]
fn mixed_quotes_in_attrs() {
        assert_eq!(find_nth_tag(r#"<a x="'" y='"'><div>"#, "div", 0, true), Some(15));
}

#[test]
fn double_quote_inside_single_quote() {
        assert_eq!(find_nth_tag(r#"<a x='"<div>"'><div>"#, "div", 0, true), Some(15));
}

#[test]
fn self_closing_with_space() {
        assert_eq!(find_nth_tag("<div />", "div", 0, true), Some(0));
}

#[test]
fn space_after_angle_bracket() {
        assert_eq!(find_nth_tag("< div>", "div", 0, true), None);
}

#[test]
fn null_bytes_in_input() {
        assert_eq!(find_nth_tag("<div\0>", "div", 0, true), None);
}

#[test]
fn tag_after_emoji() {
        let html = "😀😀<div>";
        // 😀 is 4 bytes each
        assert_eq!(find_nth_tag(html, "div", 0, true), Some(8));
}

#[test]
fn multibyte_in_attr() {
        assert_eq!(find_nth_tag(r#"<a title="日本語"><div>"#, "div", 0, true), Some(21));
}

#[test]
fn multibyte_between_tags() {
        let html = "<div>λόγος</div>";
        assert_eq!(find_nth_tag(html, "div", 0, true), Some(0));
        assert_eq!(find_nth_tag(html, "div", 0, false), Some(15));
}

#[test]
fn script_tag_contents_not_distinguished() {
        let html = "<script>var x = '<div>';</script><div>real</div>";
        assert_eq!(find_nth_tag(html, "div", 0, true), Some(17));
}

#[test]
fn cdata_not_recognized() {
        let html = "<![CDATA[<div>]]><div>real</div>";
        assert_eq!(find_nth_tag(html, "div", 0, true), Some(9)); // false positive
}

#[test]
fn processing_instruction() {
        assert_eq!(find_nth_tag("<?xml version=\"1.0\"?><div>", "div", 0, true), Some(21));
}
