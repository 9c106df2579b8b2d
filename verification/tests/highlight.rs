use notepadmd_plus::highlight::{find_close, is_hr, layout_job, list_marker_len, LayoutSection};
use notepadmd_plus::style::{palette, Color, FontSize, TextFormat};

fn rebuilt(src: &str, sections: &[LayoutSection]) -> String {
    let mut out = String::new();
    for s in sections {
        out.push_str(&src[s.start..s.end]);
    }
    out
}

fn ranges(sections: &[LayoutSection]) -> Vec<(usize, usize)> {
    sections.iter().map(|s| (s.start, s.end)).collect()
}

fn plain(r: u8, g: u8, b: u8) -> TextFormat {
    TextFormat { color: Color { r, g, b, a: 255 }, italics: false, size: FontSize::Editor }
}

fn italic(r: u8, g: u8, b: u8) -> TextFormat {
    TextFormat { color: Color { r, g, b, a: 255 }, italics: true, size: FontSize::Editor }
}

#[test]
fn job_text_matches_input_exactly() {
    // The layout job must reproduce the source byte-for-byte or the
    // editor's cursor mapping breaks.
    let src = "# Head\n\n- item **bold** and `code`\n> quote\n```rs\nlet x = 1;\n```\ntext [a](http://b) *it*\n日本語 **太字**\n";
    let job = layout_job(src, true);
    assert_eq!(rebuilt(src, &job.sections), src);
    let job = layout_job(src, false);
    assert_eq!(rebuilt(src, &job.sections), src);
}

#[test]
fn list_markers() {
    assert_eq!(list_marker_len("- hi"), Some(2));
    assert_eq!(list_marker_len("  * hi"), Some(4));
    assert_eq!(list_marker_len("3. hi"), Some(3));
    assert_eq!(list_marker_len("- [x] done"), Some(6));
    assert_eq!(list_marker_len("-nope"), None);
    assert_eq!(list_marker_len("word - nope"), None);
}

#[test]
fn list_markers_more_forms() {
    assert_eq!(list_marker_len("+ plus"), Some(2));
    assert_eq!(list_marker_len("- [ ] todo"), Some(6));
    assert_eq!(list_marker_len("* [X] done"), Some(6));
    assert_eq!(list_marker_len("12. twelve"), Some(4));
    assert_eq!(list_marker_len("123456789. nine digits"), Some(11));
    assert_eq!(list_marker_len("1234567890. ten digits"), None);
    assert_eq!(list_marker_len("1.no space"), None);
    assert_eq!(list_marker_len("- "), Some(2));
    assert_eq!(list_marker_len(""), None);
    // indent of Unicode whitespace counts in bytes: NBSP is two, U+3000 three
    assert_eq!(list_marker_len("\u{a0}- x"), Some(4));
    assert_eq!(list_marker_len("\u{3000}1. x"), Some(6));
    assert_eq!(list_marker_len("\t- [x] t"), Some(7));
}

#[test]
fn horizontal_rules() {
    assert!(is_hr("---"));
    assert!(is_hr("*****"));
    assert!(is_hr("___ \t"));
    assert!(is_hr("---\u{a0}"));
    assert!(!is_hr("--"));
    assert!(!is_hr("- - -"));
    assert!(!is_hr("  ---"));
    assert!(!is_hr("--*"));
    assert!(!is_hr(""));
}

#[test]
fn closing_delimiters() {
    assert_eq!(find_close("`ab`", 1, "`"), Some(3));
    assert_eq!(find_close("a`b`", 1, "`"), Some(1));
    assert_eq!(find_close("``x`", 1, "`"), Some(1));
    assert_eq!(find_close("**x**", 2, "**"), Some(3));
    assert_eq!(find_close("ab", 2, "`"), None);
    assert_eq!(find_close("ab", 7, "`"), None);
    assert_eq!(find_close("*abc", 1, "*"), None);
    assert_eq!(find_close("é*x*", 2, "*"), Some(2));
    assert_eq!(find_close("é*x*", 3, "*"), Some(4));
}

#[test]
fn heading_line() {
    let src = "# Head\n";
    let job = layout_job(src, true);
    assert_eq!(ranges(&job.sections), vec![(0, 6), (6, 7)]);
    assert_eq!(
        job.sections[0].format,
        TextFormat { color: Color { r: 120, g: 180, b: 255, a: 255 }, italics: false, size: FontSize::Heading }
    );
    assert_eq!(job.sections[1].format, plain(220, 220, 220));

    let light = layout_job(src, false);
    assert_eq!(
        light.sections[0].format,
        TextFormat { color: Color { r: 0, g: 90, b: 200, a: 255 }, italics: false, size: FontSize::Heading }
    );
}

#[test]
fn hashes_without_space_or_too_many_are_plain() {
    let job = layout_job("#tag", true);
    assert_eq!(ranges(&job.sections), vec![(0, 4)]);
    assert_eq!(job.sections[0].format, plain(220, 220, 220));
    let job = layout_job("####### seven", true);
    assert_eq!(ranges(&job.sections), vec![(0, 13)]);
    assert_eq!(job.sections[0].format, plain(220, 220, 220));
    let job = layout_job("###### six", true);
    assert_eq!(job.sections[0].format.size, FontSize::Heading);
}

#[test]
fn list_item_with_inline_spans() {
    let src = "- item **bold** and `code`";
    let job = layout_job(src, true);
    assert_eq!(ranges(&job.sections), vec![(0, 2), (2, 7), (7, 15), (15, 20), (20, 26)]);
    assert_eq!(job.sections[0].format, plain(130, 130, 130));
    assert_eq!(job.sections[1].format, plain(220, 220, 220));
    assert_eq!(job.sections[2].format, plain(235, 219, 178));
    assert_eq!(job.sections[3].format, plain(220, 220, 220));
    assert_eq!(job.sections[4].format, plain(214, 157, 102));
}

#[test]
fn link_and_italic() {
    let src = "text [a](http://b) *it*";
    let job = layout_job(src, false);
    assert_eq!(ranges(&job.sections), vec![(0, 5), (5, 8), (8, 18), (18, 19), (19, 23)]);
    assert_eq!(job.sections[0].format, plain(40, 40, 40));
    assert_eq!(job.sections[1].format, plain(20, 100, 210));
    assert_eq!(job.sections[2].format, plain(150, 150, 150));
    assert_eq!(job.sections[3].format, plain(40, 40, 40));
    assert_eq!(job.sections[4].format, italic(110, 80, 30));
}

#[test]
fn unclosed_delimiters_stay_plain() {
    let job = layout_job("**a", true);
    assert_eq!(ranges(&job.sections), vec![(0, 3)]);
    let job = layout_job("*a**", true);
    assert_eq!(ranges(&job.sections), vec![(0, 3), (3, 4)]);
    assert_eq!(job.sections[0].format, italic(235, 219, 178));
    let job = layout_job("`", true);
    assert_eq!(ranges(&job.sections), vec![(0, 1)]);
    let job = layout_job("[a](b", true);
    assert_eq!(ranges(&job.sections), vec![(0, 5)]);
}

#[test]
fn empty_code_and_bold_spans() {
    let job = layout_job("``", true);
    assert_eq!(ranges(&job.sections), vec![(0, 2)]);
    assert_eq!(job.sections[0].format, plain(214, 157, 102));
    let job = layout_job("a****b", true);
    assert_eq!(ranges(&job.sections), vec![(0, 1), (1, 5), (5, 6)]);
    assert_eq!(job.sections[1].format, plain(235, 219, 178));
}

#[test]
fn fenced_code_block() {
    let src = "```rs\nlet x = 1;\n\n```\nafter";
    let job = layout_job(src, true);
    assert_eq!(
        ranges(&job.sections),
        vec![(0, 5), (5, 6), (6, 16), (16, 17), (17, 17), (17, 18), (18, 21), (21, 22), (22, 27)]
    );
    let marker = plain(130, 130, 130);
    let code = plain(214, 157, 102);
    let text = plain(220, 220, 220);
    assert_eq!(job.sections[0].format, marker);
    assert_eq!(job.sections[2].format, code);
    assert_eq!(job.sections[4].format, code);
    assert_eq!(job.sections[6].format, marker);
    assert_eq!(job.sections[8].format, text);
}

#[test]
fn tilde_fence_and_markdown_inside_fence() {
    let src = "~~~\n# not a heading\n~~~";
    let job = layout_job(src, false);
    assert_eq!(ranges(&job.sections), vec![(0, 3), (3, 4), (4, 19), (19, 20), (20, 23)]);
    assert_eq!(job.sections[2].format, plain(160, 80, 20));
}

#[test]
fn quote_and_rule() {
    let job = layout_job("> quote\n  ***", true);
    assert_eq!(ranges(&job.sections), vec![(0, 7), (7, 8), (8, 13)]);
    assert_eq!(job.sections[0].format, italic(140, 170, 140));
    assert_eq!(job.sections[2].format, plain(130, 130, 130));
}

#[test]
fn empty_text_and_line_breaks() {
    let job = layout_job("", true);
    assert!(job.sections.is_empty());
    let job = layout_job("\n", true);
    assert_eq!(ranges(&job.sections), vec![(0, 1)]);
    let job = layout_job("a\n\nb\n", true);
    assert_eq!(ranges(&job.sections), vec![(0, 1), (1, 2), (2, 3), (3, 4), (4, 5)]);
}

#[test]
fn unicode_indent_and_text() {
    let src = "\u{3000}# Title\n日本語 **太字**";
    let job = layout_job(src, true);
    assert_eq!(job.sections[0].format.size, FontSize::Heading);
    assert_eq!(ranges(&job.sections)[0], (0, 10));
    assert_eq!(rebuilt(src, &job.sections), src);
    for s in &job.sections {
        assert!(src.is_char_boundary(s.start));
        assert!(src.is_char_boundary(s.end));
    }
    let bold = job.sections.last().unwrap();
    assert_eq!(&src[bold.start..bold.end], "**太字**");
    assert_eq!(bold.format, plain(235, 219, 178));
}

#[test]
fn theme_changes_only_colors() {
    let src = "# a\n- [ ] b *c* `d`\n> e\n---\n[f](g)";
    let dark = layout_job(src, true);
    let light = layout_job(src, false);
    assert_eq!(dark.sections.len(), light.sections.len());
    for (a, b) in dark.sections.iter().zip(light.sections.iter()) {
        assert_eq!((a.start, a.end), (b.start, b.end));
        assert_eq!(a.format.italics, b.format.italics);
        assert_eq!(a.format.size, b.format.size);
    }
    assert_ne!(dark.sections[0].format.color, light.sections[0].format.color);
}

#[test]
fn sections_never_cross_line_breaks() {
    let src = "a `b\nc` d\n**e\nf**";
    let job = layout_job(src, true);
    for s in &job.sections {
        let piece = &src[s.start..s.end];
        assert!(piece == "\n" || !piece.contains('\n'));
    }
    assert_eq!(rebuilt(src, &job.sections), src);
}

#[test]
fn colors() {
    assert_eq!(Color::from_rgb(1, 2, 3), Color { r: 1, g: 2, b: 3, a: 255 });
    assert_eq!(Color::from_gray(7), Color { r: 7, g: 7, b: 7, a: 255 });
    let p = palette(true);
    assert_eq!(p.url, Color { r: 120, g: 120, b: 120, a: 255 });
    let p = palette(false);
    assert_eq!(p.quote, Color { r: 80, g: 130, b: 80, a: 255 });
}

#[test]
fn joining_texts_joins_layouts() {
    let a = "# a\n- [ ] b *c*\n```\ncode\n```";
    let b = "x **y** [z](w)\n> q";
    let joined = format!("{a}\n{b}");
    for dark in [true, false] {
        let whole = layout_job(&joined, dark).sections;
        let first = layout_job(a, dark).sections;
        let second = layout_job(b, dark).sections;
        let mut expected: Vec<LayoutSection> = first.clone();
        expected.push(LayoutSection { start: a.len(), end: a.len() + 1, format: layout_job("\n", dark).sections[0].format });
        for s in second {
            expected.push(LayoutSection { start: s.start + a.len() + 1, end: s.end + a.len() + 1, format: s.format });
        }
        assert_eq!(whole, expected);
    }
}

#[test]
fn an_open_fence_carries_into_the_next_text() {
    let joined = "```\ncode\n# not a heading";
    let job = layout_job(joined, true);
    assert_eq!(job.sections.last().unwrap().format, plain(214, 157, 102));
    let alone = layout_job("# not a heading", true);
    assert_eq!(alone.sections[0].format.size, FontSize::Heading);
}

#[test]
fn inline_pieces_are_never_empty() {
    let src = "a **b** [c](d) `e` *f* g";
    let job = layout_job(src, true);
    assert_eq!(job.sections.len(), 10);
    for s in &job.sections {
        assert!(s.start < s.end);
    }
}
