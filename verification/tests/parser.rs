use csi_parser::parser::{parse, Match};
use csi_parser::{intermediate_byte, parameter_byte, terminated_byte};

fn ranges(text: &str) -> Vec<(usize, usize, u8)> {
    parse(text).into_iter().map(|m| (m.start, m.end, m.csi_type)).collect()
}

#[test]
fn parser_parse_test() {
    let ansi_text = "Hello, \x1b[31;4mworld\x1b[0m!";
    let parsed = parse(ansi_text);
    assert_eq!(
        parsed,
        vec![
            Match {
                start: 7,
                end: 14,
                csi_text: "\x1b[31;4m",
                original_text: "world\x1b[0m!",
                csi_type: b'm',
            },
            Match {
                start: 19,
                end: 23,
                csi_text: "\x1b[0m",
                original_text: "!",
                csi_type: b'm',
            },
        ]
    );
}

#[test]
fn parser_parse_string_with_different_chars() {
    let t = "👋, \x1b[31;4m🌍\x1b[0m!";
    let parsed = parse(t);
    assert_eq!(
        parsed,
        vec![
            Match {
                start: 6,
                end: 13,
                csi_text: "\x1b[31;4m",
                original_text: "🌍\x1b[0m!",
                csi_type: b'm',
            },
            Match {
                start: 17,
                end: 21,
                csi_text: "\x1b[0m",
                original_text: "!",
                csi_type: b'm',
            },
        ]
    );
}

#[test]
fn parser_parse_string_with_set_cursor_ansi() {
    let t = "\x1b[31Ahello!";
    let parsed = parse(t);
    assert_eq!(
        parsed,
        vec![Match {
            start: 0,
            end: 5,
            csi_text: "\x1b[31A",
            original_text: "hello!",
            csi_type: b'A',
        },]
    );
}

#[test]
fn parser_malformed_escape() {
    let x = parse("oops\x1b[\n");

    assert_eq!(x, vec![]);
}

#[test]
fn parser_reset_color() {
    let x = parse("oops\x1b[0m");

    assert_eq!(
        x,
        vec![Match {
            start: 4,
            end: 8,
            csi_text: "\x1b[0m",
            original_text: "",
            csi_type: b'm',
        },]
    );
}

#[test]
fn parse_doc_ranges() {
    assert_eq!(
        ranges("Hello, \x1b[31;4mworld\x1b[0m!"),
        vec![(7, 14, b'm'), (19, 23, b'm')]
    );
}

#[test]
fn parse_empty_text() {
    assert_eq!(parse(""), vec![]);
    assert_eq!(parse("a"), vec![]);
}

#[test]
fn parse_marker_at_very_end() {
    assert_eq!(parse("oops\x1b["), vec![]);
    assert_eq!(ranges("\x1b[0moops\x1b["), vec![(0, 4, b'm')]);
}

#[test]
fn parse_unterminated_at_end() {
    assert_eq!(parse("\x1b[31"), vec![]);
    assert_eq!(parse("\x1b[31;"), vec![]);
    assert_eq!(ranges("\x1b[1A\x1b[31;4"), vec![(0, 4, b'A')]);
}

#[test]
fn parse_malformed_halts_the_scan() {
    assert_eq!(ranges("\x1b[0m\x1b[\n\x1b[1m"), vec![(0, 4, b'm')]);
    assert_eq!(parse("\x1b[\x7f\x1b[1m"), vec![]);
    assert_eq!(parse("\x1b[é\x1b[1m"), vec![]);
}

#[test]
fn parse_zero_parameter_sequence() {
    let found = parse("\x1b[m");
    assert_eq!(
        found,
        vec![Match { start: 0, end: 3, csi_text: "\x1b[m", original_text: "", csi_type: b'm' }]
    );
}

#[test]
fn parse_adjacent_sequences() {
    assert_eq!(ranges("\x1b[0m\x1b[1m"), vec![(0, 4, b'm'), (4, 8, b'm')]);
}

#[test]
fn parse_intermediate_bytes_in_body() {
    assert_eq!(ranges("\x1b[1 q"), vec![(0, 5, b'q')]);
    assert_eq!(ranges("\x1b[?25h"), vec![(0, 6, b'h')]);
}

#[test]
fn parse_final_byte_limits() {
    assert_eq!(ranges("\x1b[@"), vec![(0, 3, 0x40)]);
    assert_eq!(ranges("\x1b[~"), vec![(0, 3, 0x7e)]);
    assert_eq!(ranges("\x1b[["), vec![(0, 3, b'[')]);
}

#[test]
fn parse_lone_escape_is_text() {
    assert_eq!(ranges("\x1b\x1b[0m"), vec![(1, 5, b'm')]);
    assert_eq!(ranges("\x1bX\x1b[0m"), vec![(2, 6, b'm')]);
    assert_eq!(ranges("[\x1b[0m"), vec![(1, 5, b'm')]);
}

#[test]
fn parse_ranges_increase_without_overlap() {
    let text = "a\x1b[1mb\x1b[2;3Hč\x1b[K\x1b[?7l…\x1b[s";
    let found = parse(text);
    assert_eq!(found.len(), 5);
    let mut last_end = 0;
    for m in &found {
        assert!(last_end <= m.start);
        assert!(m.start < m.end);
        assert!(m.end <= text.len());
        last_end = m.end;
    }
}

#[test]
fn parse_ranges_lie_on_code_point_boundaries() {
    let text = "é\x1b[1mé€\x1b[0m𝄞\x1b[2J𝄞";
    let found = parse(text);
    assert_eq!(
        found.iter().map(|m| (m.start, m.end)).collect::<Vec<_>>(),
        vec![(2, 6), (11, 15), (19, 23)]
    );
    for m in &found {
        assert!(text.is_char_boundary(m.start));
        assert!(text.is_char_boundary(m.end));
        assert_eq!(m.csi_text, &text[m.start..m.end]);
        assert_eq!(m.original_text, &text[m.end..]);
        assert_eq!(m.csi_type, text.as_bytes()[m.end - 1]);
    }
}

#[test]
fn parse_twice_gives_the_same_list() {
    let text = "x\x1b[31;4my\x1b[0m\x1b[\n\x1b[1m";
    assert_eq!(parse(text), parse(text));
    assert_eq!(ranges(text), vec![(1, 8, b'm'), (9, 13, b'm')]);
}

#[test]
fn parse_csi_splits_at_separators() {
    let text = "Hello, \x1b[;31;4mworld\x1b[0m\x1b[10;20Hm!\x1b[m\x1b?25h";
    let found = parse(text);
    let params: Vec<Vec<&str>> = found.iter().map(|m| m.parse_csi()).collect();
    assert_eq!(
        params,
        vec![vec!["", "31", "4"], vec!["0"], vec!["10", "20"], vec![""]]
    );
}

#[test]
fn parse_csi_without_parameters_is_one_empty_parameter() {
    let found = parse("\x1b[m");
    assert_eq!(found[0].parse_csi(), vec![""]);
}

#[test]
fn parse_csi_keeps_prefix_and_empty_places() {
    let found = parse("\x1b[?25h\x1b[;H\x1b[1;;m\x1b[1 q");
    assert_eq!(found[0].parse_csi(), vec!["?25"]);
    assert_eq!(found[1].parse_csi(), vec!["", ""]);
    assert_eq!(found[2].parse_csi(), vec!["1", "", ""]);
    assert_eq!(found[3].parse_csi(), vec!["1 "]);
}

#[test]
fn byte_classes() {
    assert!(!terminated_byte(0x3f));
    assert!(terminated_byte(0x40));
    assert!(terminated_byte(b'm'));
    assert!(terminated_byte(0x7e));
    assert!(!terminated_byte(0x7f));
    assert!(!parameter_byte(0x2f));
    assert!(parameter_byte(0x30));
    assert!(parameter_byte(b';'));
    assert!(parameter_byte(0x3f));
    assert!(!parameter_byte(0x40));
    assert!(!intermediate_byte(0x1f));
    assert!(intermediate_byte(0x20));
    assert!(intermediate_byte(0x2f));
    assert!(!intermediate_byte(0x30));
}
