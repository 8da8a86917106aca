use marginal::wrap::{cells_claimed, cells_drawn, wrap, wrap_line};

#[test]
fn the_two_measures_part_company_at_the_halfwidth_sound_marks() {
    for s in [
        "",
        "abc",
        "日本語",
        "e\u{301}",
        "ｶ\u{3099}",
        "ガ",
        "✔\u{FE0F}",
    ] {
        assert_eq!(
            cells_claimed(s),
            cells_drawn(s),
            "the two measures should agree on {s:?}"
        );
    }
    for (s, claimed, drawn) in [("ｶﾞ", 1, 2), ("ﾊﾟ", 1, 2), ("あﾞ", 2, 3)] {
        assert_eq!(cells_claimed(s), claimed, "claimed width of {s:?}");
        assert_eq!(cells_drawn(s), drawn, "drawn width of {s:?}");
    }
}

#[test]
fn cells_drawn_answers_for_a_control_byte_rather_than_asserting_on_it() {
    for b in 0u8..=0x7f {
        let mut buf = [0u8; 4];
        let s = char::from(b).encode_utf8(&mut buf);
        assert_eq!(cells_drawn(s), 1, "one-byte {b:#04x}");
    }
    let line: String = (0u8..0x20)
        .filter(|&b| b != b'\r' && b != b'\n')
        .map(char::from)
        .collect();
    let rows = wrap_line(&line, 4, 4);
    let kept: String = rows.iter().map(|&(s, e)| &line[s..e]).collect();
    assert_eq!(kept, line, "control bytes dropped by the wrapper");
}

#[test]
fn a_wrapped_row_fits_the_pane_in_the_cells_the_terminal_draws() {
    let line = "ｶﾞ".repeat(200);
    assert_eq!(
        wrap_line(&line, 34, 34).len(),
        12,
        "200 two-cell clusters do not fit in 6 rows of 34 cells"
    );
    for width in 1usize..=60 {
        let rows = wrap_line(&line, width, width);
        for &(s, e) in &rows {
            let seg = &line[s..e];
            assert!(
                cells_drawn(seg) <= width || seg.chars().count() == 1,
                "width {width}: a row of {} drawn cells in a {width}-cell pane",
                cells_drawn(seg)
            );
        }
        let kept: String = rows.iter().map(|&(s, e)| &line[s..e]).collect();
        assert_eq!(kept, line, "dropped bytes at width {width}");
    }
}

#[test]
fn wrap_preserves_every_character_and_the_indentation() {
    for width in [1usize, 3, 12, 40] {
        let text = "    - a nested item with several words\nand a second line";
        let rows = wrap(text, width);
        let rebuilt: String = rows.join("").replace(' ', "");
        assert_eq!(rebuilt, text.replace([' ', '\n'], ""), "width {width}");
        assert!(
            rows[0].starts_with(' ') || width < 4,
            "lost indent at {width}"
        );
        for r in &rows {
            assert!(
                cells_drawn(r) <= width || width == 0,
                "row over width: {r:?}"
            );
        }
    }
}

#[test]
fn a_break_never_spends_a_row_on_the_space_it_broke_at() {
    assert_eq!(wrap("abcde fghij", 5), ["abcde", "fghij"]);
    assert!(!wrap("the quick brown fox jumps over the lazy dog", 9)
        .iter()
        .any(|r| r.trim().is_empty()));
}

#[test]
fn trailing_space_does_not_invent_a_row() {
    assert_eq!(wrap("hello ", 5), ["hello"]);
    assert_eq!(wrap("ab  ", 5), ["ab"]);
    assert_eq!(wrap("a\n\nb", 5), ["a", "", "b"]);
}

#[test]
fn continuation_rows_line_up_under_the_text_not_the_bullet() {
    let rows = wrap("    - a nested item with several words", 20);
    assert_eq!(rows[0], "    - a nested item");
    for r in &rows[1..] {
        assert!(r.starts_with("      "), "{r:?}");
        assert!(cells_drawn(r) <= 20, "{r:?}");
    }
    assert_eq!(wrap("12. ordered item here", 12)[1], "    item");
    assert_eq!(wrap("> quoted text that runs on", 12)[1], "  text that");
}

#[test]
fn an_over_wide_word_breaks_at_its_own_separators_first() {
    let rows = wrap("see https://example.dev/a/very/long/path here", 12);
    assert!(rows.iter().any(|r| r.ends_with('/')), "{rows:?}");
    for r in &rows {
        assert!(cells_drawn(r) <= 12, "{r:?}");
    }
    assert!(wrap(&"x".repeat(30), 10).len() >= 3);
}

#[test]
fn wrap_line_ranges_are_ordered_windows_into_the_source_line() {
    for line in [
        "    - a nested item with several words",
        "see https://example.dev/a/very/long/path here",
        "日本語のテキストはここで折り返す",
        "trailing spaces   ",
        "",
    ] {
        for width in [1usize, 4, 12, 40] {
            let rows = wrap_line(line, width, width);
            assert_eq!(rows[0].0, 0, "uncovered head in {line:?} at {width}");
            let mut prev = 0;
            for &(s, e) in &rows {
                assert!(s <= e && e <= line.len(), "{line:?} {width} {s}..{e}");
                assert!(s >= prev, "rows go backwards in {line:?} at {width}");
                assert!(line.is_char_boundary(s) && line.is_char_boundary(e));
                assert!(
                    cells_drawn(&line[s..e]) <= width || line[s..e].chars().count() == 1,
                    "over width: {:?}",
                    &line[s..e]
                );
                prev = e;
            }
            let kept: String = rows.iter().map(|&(s, e)| &line[s..e]).collect();
            assert_eq!(
                kept.replace(' ', ""),
                line.replace(' ', ""),
                "dropped text in {line:?} at {width}"
            );
        }
    }
}

#[test]
fn an_over_wide_first_word_keeps_the_lines_indentation() {
    let fits = |line: &str, first: usize, rest: usize| {
        let rows = wrap_line(line, first, rest);
        assert_eq!(
            rows[0].0, 0,
            "uncovered indent, {line:?} at {first}: {rows:?}"
        );
        let kept: String = rows.iter().map(|&(s, e)| &line[s..e]).collect();
        assert_eq!(kept, line, "dropped bytes, {line:?} at {first}");
        for (i, &(s, e)) in rows.iter().enumerate() {
            let limit = if i == 0 { first } else { rest };
            assert!(
                cells_drawn(&line[s..e]) <= limit,
                "over width, {line:?} at {first}/{rest}: row {i} is {:?}",
                &line[s..e]
            );
        }
    };

    let line = "        https://example.com/some/long/path";
    for width in [9usize, 10, 11, 12, 13, 20, 34, 42, 48] {
        fits(line, width, width);
    }
    assert!(wrap(line, 48)[0].starts_with("        "), "lost the indent");

    fits("     abcdefgh", 8, 8);
    fits("  x本", 3, 2);
}

#[test]
fn indentation_that_cannot_share_with_even_one_character_takes_a_row() {
    assert_eq!(wrap_line("  本", 3, 3), [(0, 2), (2, 5)]);
}

#[test]
fn indentation_wider_than_the_pane_spills_into_its_own_rows() {
    let line = "          x";
    let rows = wrap_line(line, 4, 4);
    assert_eq!(rows[0].0, 0);
    let kept: String = rows.iter().map(|&(s, e)| &line[s..e]).collect();
    assert_eq!(kept, line);
    for &(s, e) in &rows {
        assert!(
            cells_drawn(&line[s..e]) <= 4,
            "over width: {:?}",
            &line[s..e]
        );
    }
}

#[test]
fn wrap_hard_cuts_a_word_wider_than_the_pane() {
    let rows = wrap("see https://example.dev/a/very/long/path/indeed here", 12);
    assert!(rows.len() > 3, "{rows:?}");
    for r in &rows {
        assert!(cells_drawn(r) <= 12, "{r:?}");
    }
}

#[test]
fn wrap_survives_multibyte_and_a_zero_width_pane() {
    assert!(wrap("Prüfen köde — ✓ fertig", 0).is_empty());
    let rows = wrap("Prüfen köde — ✓ fertig", 7);
    for r in &rows {
        assert!(cells_drawn(r) <= 7, "{r:?}");
    }
}
