use font_layout::font::Font;
use font_layout::glyph::{GlyphInfo, TexelPos, UvRect, Vec2};
use font_layout::layout::Galley;

// One subunit is 1/64 pixel; a 10-pixel advance is 640 subunits.
const ADV: i64 = 640;
const ROW_H: i64 = 768;

fn replacement() -> GlyphInfo {
    GlyphInfo { id: 1, advance_width: ADV, uv_rect: None }
}

fn glyph(id: u16) -> GlyphInfo {
    GlyphInfo { id, advance_width: ADV, uv_rect: None }
}

/// A font whose lower-case letters, digits and space all advance 10 pixels.
fn test_font() -> Font {
    let mut font = Font::new(ROW_H, replacement());
    let mut id: u16 = 2;
    for c in "abcdefghijklmnopqrstuvwxyz 0123456789".chars() {
        font.insert_glyph_info(c, Some(glyph(id)));
        id += 1;
    }
    font
}

fn char_total(galley: &Galley) -> usize {
    let mut total = 0;
    for row in &galley.rows {
        total += row.x_offsets.len() - 1;
        if row.ends_with_newline {
            total += 1;
        }
    }
    total
}

#[test]
fn metrics_for_is_idempotent() {
    let mut font = test_font();
    let gi = GlyphInfo { id: 99, advance_width: 320, uv_rect: None };
    let first = font.insert_glyph_info('Q', Some(gi));
    assert_eq!(first, gi);
    // the fast path now hits and returns identical metrics
    assert_eq!(font.cached_glyph_info('Q'), Some(gi));
    let second = font.insert_glyph_info('Q', Some(gi));
    assert_eq!(second, first);
    assert_eq!(font.cached_glyph_info('Q'), Some(gi));
}

#[test]
fn missing_glyph_is_replaced_silently() {
    let mut font = test_font();
    assert_eq!(font.cached_glyph_info('\u{263A}'), None);
    let got = font.insert_glyph_info('\u{263A}', None);
    assert_eq!(got, replacement());
    assert_eq!(font.cached_glyph_info('\u{263A}'), Some(replacement()));
    assert_eq!(font.glyph_width('\u{263A}'), ADV);
}

#[test]
fn uv_rect_reads_cache_without_substitution() {
    let mut font = test_font();
    let rect = UvRect {
        offset: Vec2 { x: 64, y: -128 },
        size: Vec2 { x: 640, y: 704 },
        min: TexelPos { x: 4, y: 8 },
        max: TexelPos { x: 14, y: 19 },
    };
    font.insert_glyph_info('x', Some(GlyphInfo { id: 77, advance_width: ADV, uv_rect: Some(rect) }));
    assert_eq!(font.uv_rect('x'), Some(rect));
    // an uncached character yields no texture rectangle, even though layout
    // would fall back to the replacement glyph
    assert_eq!(font.uv_rect('\u{263A}'), None);
}

#[test]
fn round_to_pixel_rounds_to_nearest_64() {
    let font = test_font();
    assert_eq!(font.round_to_pixel(0), 0);
    assert_eq!(font.round_to_pixel(31), 0);
    assert_eq!(font.round_to_pixel(32), 64);
    assert_eq!(font.round_to_pixel(100), 128);
    assert_eq!(font.round_to_pixel(640), 640);
    // negative distances round too; halves go toward positive infinity
    assert_eq!(font.round_to_pixel(-100), -128);
    assert_eq!(font.round_to_pixel(-32), 0);
    assert_eq!(font.round_to_pixel(-33), -64);
}

#[test]
fn single_line_offsets_count_and_values() {
    let font = test_font();
    let galley = font.layout_single_line(String::from("ab"));
    assert_eq!(galley.rows.len(), 1);
    let row = &galley.rows[0];
    assert_eq!(row.x_offsets, vec![0, ADV, 2 * ADV]);
    assert_eq!(row.y_min, 0);
    assert_eq!(row.y_max, ROW_H);
    assert!(!row.ends_with_newline);
    assert_eq!(galley.size.x, 2 * ADV);
    assert_eq!(galley.size.y, ROW_H);
}

#[test]
fn single_line_never_breaks_on_newline() {
    let font = test_font();
    let galley = font.layout_single_line(String::from("a\nb"));
    assert_eq!(galley.rows.len(), 1);
    // the newline is laid out like any other character
    assert_eq!(galley.rows[0].x_offsets.len(), 4);
}

#[test]
fn single_line_offsets_are_nondecreasing_for_any_text() {
    let font = test_font();
    for text in ["", "a", "hello world", "a\u{263A}b", "\u{a0}\u{a0}"] {
        let galley = font.layout_single_line(String::from(text));
        assert_eq!(galley.rows.len(), 1);
        let row = &galley.rows[0];
        assert_eq!(row.x_offsets.len(), text.chars().count() + 1);
        assert_eq!(row.x_offsets[0], 0);
        for w in row.x_offsets.windows(2) {
            assert!(w[0] <= w[1]);
        }
    }
}

#[test]
fn kerning_shifts_the_cursor() {
    let mut font = test_font();
    let ida = font.cached_glyph_info('a').unwrap().id;
    let idb = font.cached_glyph_info('b').unwrap().id;
    font.insert_pair_kerning(ida, idb, 64);
    assert_eq!(font.pair_kerning(ida, idb), 64);
    let galley = font.layout_single_line(String::from("ab"));
    assert_eq!(galley.rows[0].x_offsets, vec![0, ADV, ADV + 64 + ADV]);
}

#[test]
fn cursor_is_pixel_rounded_after_each_character() {
    let mut font = Font::new(ROW_H, replacement());
    // 100 subunits is 1.5625 pixels; the cursor rounds to 2 pixels
    font.insert_glyph_info('a', Some(GlyphInfo { id: 5, advance_width: 100, uv_rect: None }));
    let galley = font.layout_single_line(String::from("aa"));
    assert_eq!(galley.rows[0].x_offsets, vec![0, 128, 256]);
}

#[test]
fn empty_string_yields_one_empty_row() {
    let font = test_font();
    let galley = font.layout_multiline(String::from(""), 100 * 64);
    assert_eq!(galley.rows.len(), 1);
    assert_eq!(galley.rows[0].x_offsets, vec![0]);
    assert_eq!(galley.rows[0].y_min, 0);
    assert_eq!(galley.rows[0].y_max, ROW_H);
    assert!(!galley.rows[0].ends_with_newline);
    assert_eq!(galley.size.y, ROW_H);
}

#[test]
fn trailing_newline_yields_marked_row_and_blank_row() {
    let font = test_font();
    let galley = font.layout_multiline(String::from("abc\n"), 100 * 64);
    assert_eq!(galley.rows.len(), 2);
    assert_eq!(galley.rows[0].x_offsets.len(), 4);
    assert!(galley.rows[0].ends_with_newline);
    assert_eq!(galley.rows[1].x_offsets, vec![0]);
    assert!(!galley.rows[1].ends_with_newline);
}

#[test]
fn wide_single_word_overflows_on_one_row() {
    let font = test_font();
    let word = "averylongwordlongerthanwidth";
    let galley = font.layout_multiline(String::from(word), 10 * 64);
    assert_eq!(galley.rows.len(), 1);
    let row = &galley.rows[0];
    let width = row.x_offsets[row.x_offsets.len() - 1] - row.x_offsets[0];
    assert!(width > 10 * 64);
}

#[test]
fn indentation_keeps_first_offset() {
    let font = test_font();
    // width forces a break after "ab "; the first row starts at the
    // indentation, not at zero
    let galley = font.layout_multiline_with_indentation_and_max_width(
        String::from("ab cd"),
        2 * ADV,
        6 * ADV + 320,
    );
    assert!(galley.rows.len() >= 2);
    assert_eq!(galley.rows[0].x_offsets[0], 2 * ADV);
    assert_eq!(galley.rows[0].x_offsets.len(), 4); // "ab " with trailing space
    assert_eq!(galley.rows[1].x_offsets[0], 0);
}

#[test]
fn overflowing_indentation_gives_blank_first_row() {
    let font = test_font();
    let galley = font.layout_multiline_with_indentation_and_max_width(
        String::from("abcd"),
        ADV,
        2 * ADV,
    );
    assert_eq!(galley.rows.len(), 2);
    assert_eq!(galley.rows[0].x_offsets, vec![ADV]);
    assert_eq!(galley.rows[1].x_offsets.len(), 5);
    assert_eq!(galley.rows[1].x_offsets[0], 0);
}

#[test]
fn wrap_keeps_rows_within_width() {
    let font = test_font();
    let w = 3 * ADV;
    let galley = font.layout_multiline(String::from("aa bb cc"), w);
    assert!(galley.rows.len() >= 2);
    for row in &galley.rows {
        let width = row.x_offsets[row.x_offsets.len() - 1] - row.x_offsets[0];
        assert!(width <= w);
    }
}

#[test]
fn round_trip_accounts_for_every_character() {
    let font = test_font();
    for text in ["", "\n", "aa bb\ncc\n\ndd", "one two three four", "x\n\n\nx"] {
        let galley = font.layout_multiline(String::from(text), 5 * ADV);
        assert_eq!(char_total(&galley), text.chars().count(), "text {:?}", text);
        assert_eq!(galley.text, text);
    }
}

#[test]
fn non_breaking_space_is_never_a_wrap_point() {
    let font = test_font();
    let w = 3 * ADV;
    // with a regular space this text wraps; with a non-breaking space the
    // word cannot be broken and overflows instead
    let broken = font.layout_multiline(String::from("aaa bbb"), w);
    assert_eq!(broken.rows.len(), 2);
    let unbroken = font.layout_multiline(String::from("aaa\u{a0}bbb"), w);
    assert_eq!(unbroken.rows.len(), 1);
}

#[test]
fn paragraphs_stack_with_forty_percent_gap() {
    let font = test_font();
    let galley = font.layout_multiline(String::from("a\nb"), 100 * 64);
    assert_eq!(galley.rows.len(), 2);
    assert_eq!(galley.rows[0].y_min, 0);
    assert_eq!(galley.rows[0].y_max, ROW_H);
    let gap = 2 * ROW_H / 5;
    assert_eq!(galley.rows[1].y_min, ROW_H + gap);
    assert_eq!(galley.rows[1].y_max, 2 * ROW_H + gap);
    assert_eq!(galley.size.y, 2 * ROW_H + gap);
}

#[test]
fn galley_size_tracks_widest_row() {
    let font = test_font();
    let galley = font.layout_multiline(String::from("aaaa\nbb"), 100 * 64);
    assert_eq!(galley.size.x, 4 * ADV);
}

#[test]
fn row_accessors_match_offsets() {
    let font = test_font();
    let galley = font.layout_single_line(String::from("abc"));
    let row = &galley.rows[0];
    assert_eq!(row.char_count(), 3);
    assert_eq!(row.min_x(), 0);
    assert_eq!(row.max_x(), 3 * ADV);
}

#[test]
fn row_height_matches_construction() {
    let font = test_font();
    assert_eq!(font.row_height(), ROW_H);
}

#[test]
fn whitespace_only_text_wraps_totally() {
    let font = test_font();
    let galley = font.layout_multiline(String::from("     "), 2 * ADV);
    assert!(galley.rows.len() >= 1);
    assert_eq!(char_total(&galley), 5);
}

#[test]
fn zero_width_still_produces_valid_rows() {
    let font = test_font();
    let galley = font.layout_multiline(String::from("ab cd"), 0);
    assert!(galley.rows.len() >= 1);
    assert_eq!(char_total(&galley), 5);
    for row in &galley.rows {
        for w in row.x_offsets.windows(2) {
            assert!(w[0] <= w[1]);
        }
    }
}
