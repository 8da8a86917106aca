use marginal::blocks;
use marginal::table::{bars, extents, row, Tables};
use marginal::wrap::Piece;

fn render(src: &str, width: usize) -> Vec<String> {
    let lines: Vec<String> = src.lines().map(ToString::to_string).collect();
    let tables = Tables::new(&lines, &blocks::parse(src));
    lines
        .iter()
        .enumerate()
        .map(|(i, text)| match tables.pads(i + 1, width) {
            None => text.clone(),
            Some(pads) => row(text.len(), pads)
                .iter()
                .map(|p| match *p {
                    Piece::Src(s, e) => text[s..e].to_string(),
                    Piece::Pad { n, fill, .. } => fill.to_string().repeat(n),
                })
                .collect(),
        })
        .collect()
}

const RAGGED: &str = "\
| id | description | ok |
|---|:---:|---|
| 1 | short | y |
| 22 | a much longer description | n |
";

#[test]
fn a_table_that_fits_lines_its_pipes_up() {
    let out = render(RAGGED, 80);
    let bars: Vec<Vec<usize>> = out
        .iter()
        .filter(|l| l.contains('|'))
        .map(|l| bars(l))
        .collect();
    assert!(bars.windows(2).all(|w| w[0] == w[1]), "{out:#?}");
}

#[test]
fn a_table_too_wide_to_align_is_left_ragged() {
    assert_eq!(render(RAGGED, 20), RAGGED.lines().collect::<Vec<_>>());
    let need = render(RAGGED, 80)[0].chars().count();
    assert_eq!(render(RAGGED, need - 1), RAGGED.lines().collect::<Vec<_>>());
    assert_ne!(render(RAGGED, need), RAGGED.lines().collect::<Vec<_>>());
}

#[test]
fn a_header_only_table_is_still_aligned() {
    let src = "| id | description |\n|---|---|\n";
    let out = render(src, 40);
    assert_ne!(out, src.lines().collect::<Vec<_>>(), "left unaligned");
    assert_eq!(
        out[0].chars().count(),
        out[1].chars().count(),
        "rule does not match the header: {out:?}"
    );
}

#[test]
fn a_quoted_table_is_not_merged_into_the_one_above_it() {
    let src =
        "| a | bbbb |\n|---|---|\n| ccccc | d |\n> | qqqqqq | w |\n> |---|---|\n> | e | r |\n";
    let lines: Vec<String> = src.lines().map(ToString::to_string).collect();
    assert_eq!(extents(&lines, &blocks::parse(src)), [(1, 3), (4, 6)]);
    let out = render(src, 40);
    for (i, l) in out.iter().enumerate().skip(3) {
        assert!(
            l.starts_with("> "),
            "line {} lost its quote marker: {l:?}",
            i + 1
        );
    }
    assert!(
        !out[4].contains("- "),
        "rule padded with spaces: {:?}",
        out[4]
    );
}

#[test]
fn a_row_indented_within_the_gfm_limit_stays_in_its_table() {
    for n in 0..=3 {
        let src = format!(
            "| id | description |\n|---|---|\n{}| 1 | short |\n| 22 | longer |\n",
            " ".repeat(n)
        );
        let lines: Vec<String> = src.lines().map(ToString::to_string).collect();
        assert_eq!(
            extents(&lines, &blocks::parse(&src)),
            [(1, 4)],
            "{n} spaces split the table"
        );
        let out = render(&src, 80);
        let w = out[0].chars().count();
        assert!(
            !out[1].contains("- ") && out[1].ends_with("---|"),
            "{n} spaces: rule is not a rule: {:?}",
            out[1]
        );
        assert_eq!(out[1].chars().count(), w, "{n} spaces: {out:#?}");
        assert_eq!(out[3].chars().count(), w, "{n} spaces: {out:#?}");
        assert_eq!(out[2].chars().count(), w + n, "{n} spaces: {out:#?}");
    }
}

#[test]
fn a_row_indented_past_the_gfm_limit_is_not_in_the_table() {
    let src = "| id | description |\n|---|---|\n    | 1 | short |\n| 22 | longer |\n";
    let lines: Vec<String> = src.lines().map(ToString::to_string).collect();
    let bs = blocks::parse(src);
    assert!(bs.iter().all(|b| b.kind != "table-row" || b.end() <= 2));
    assert_eq!(extents(&lines, &bs), [(1, 2)]);
    let tables = Tables::new(&lines, &bs);
    assert!((3..=4).all(|l| tables.pads(l, 80).is_none()));
}

#[test]
fn quote_markers_are_compared_by_depth_not_by_their_spacing() {
    let one = ">| q | w |\n> |---|---|\n>\t| e | r |\n>  | t | y |\n";
    let lines: Vec<String> = one.lines().map(ToString::to_string).collect();
    assert_eq!(extents(&lines, &blocks::parse(one)), [(1, 4)]);

    let two = "> | q | w |\n> |---|---|\n>\t> | e | r |\n>\t> |---|---|\n";
    let lines: Vec<String> = two.lines().map(ToString::to_string).collect();
    assert_eq!(extents(&lines, &blocks::parse(two)), [(1, 2), (3, 4)]);
}

#[test]
fn the_delimiter_row_is_padded_with_its_own_rule() {
    let rule = &render(RAGGED, 80)[1];
    assert!(!rule.contains("- "), "{rule}");
    assert!(rule.contains(":---"), "{rule}");
    assert!(rule.ends_with("---|"), "{rule}");
}

#[test]
fn rows_that_disagree_about_separator_spacing_still_line_up() {
    let out = render("|a|bb|\n|---|---|\n| ccc | d |\n", 40);
    let at = |l: &String, s: &str| l.find(s).unwrap();
    assert_eq!(at(&out[0], "a"), at(&out[2], "ccc"));
    assert_eq!(at(&out[0], "bb"), at(&out[2], "d"));
}

#[test]
fn the_delimiter_row_decides_which_way_a_column_is_padded() {
    let out = render("| a | a | a |\n|---|--:|:-:|\n| xxx | xxx | xxx |\n", 40);
    assert!(out[0].starts_with("| a   |"), "{}", out[0]);
    assert!(out[0].contains("|   a |"), "{}", out[0]);
    assert!(out[0].contains("|  a  |"), "{}", out[0]);
}

#[test]
fn an_already_aligned_table_is_not_touched() {
    let src = "| a  | bb |\n| -- | -- |\n| cc | d  |\n";
    let lines: Vec<String> = src.lines().map(ToString::to_string).collect();
    let tables = Tables::new(&lines, &blocks::parse(src));
    assert!((1..=3).all(|l| tables.pads(l, 80).is_none()));
}

#[test]
fn a_delimiter_row_inside_a_code_fence_is_not_a_table() {
    let src = "```\n| a | b |\n|---|---|\n| c | dddddd |\n```\n";
    let lines: Vec<String> = src.lines().map(ToString::to_string).collect();
    let tables = Tables::new(&lines, &blocks::parse(src));
    assert!((1..=5).all(|l| tables.pads(l, 80).is_none()));
}

#[test]
fn an_escaped_pipe_does_not_open_a_column() {
    assert_eq!(bars(r"| a \| b | c |"), [0, 9, 13]);
}

#[test]
fn a_row_with_too_few_cells_is_padded_as_far_as_it_goes() {
    let out = render("| a | b |\n|---|---|\n| cccc |\n| e | ffff |\n", 40);
    assert_eq!(bars(&out[2]), bars(&out[3])[..2]);
}
