use csi_parser::enums::CSISequence::{
    Color, CursorBackward, CursorDown, CursorForward, CursorPos, CursorRestore, CursorSave,
    CursorUp, EnableAttr, EraseDisplay, EraseLine, Escape, ResetAttr,
};
use csi_parser::enums::{str_to_usize, Attr, CSISequence, ClearMode};
use csi_parser::parser::{parse, Match};

fn meanings(text: &str) -> Vec<CSISequence> {
    let mut csi_seqs = vec![];
    for x in parse(text) {
        let csi_seq: CSISequence = (&x).into();
        csi_seqs.push(csi_seq);
    }
    csi_seqs
}

#[test]
fn enums_parse_test() {
    let ansi_text = "Hello, \x1b[;;4mworld\x1b[0K!\x1b[?7h";

    let mut csi_seqs = vec![];
    for x in parse(ansi_text) {
        let csi_seq: CSISequence = (&x).into();
        csi_seqs.push(csi_seq);
    }

    assert_eq!(
        csi_seqs,
        vec![
            Color(None, None, Some(4)),
            EraseLine(ClearMode::After),
            EnableAttr(Attr::AutoWrap),
        ]
    );
}

#[test]
fn enums_parse_string_with_different_chars() {
    let t = "👋, \x1b[31;4m🌍\x1b[0m!";

    let mut csi_seqs = vec![];
    for x in parse(t) {
        let csi_seq: CSISequence = (&x).into();
        csi_seqs.push(csi_seq);
    }

    assert_eq!(
        csi_seqs,
        vec![Color(Some(31), None, Some(4)), Color(Some(0), None, None),]
    );
}

#[test]
fn enums_parse_string_with_set_cursor_ansi() {
    let t = "\x1b[31Ahello!";
    let mut csi_seqs = vec![];
    for x in parse(t) {
        let csi_seq: CSISequence = (&x).into();
        csi_seqs.push(csi_seq);
    }

    assert_eq!(csi_seqs, vec![CursorUp(Some(31)),]);
}

#[test]
fn enums_malformed_escape() {
    let mut csi_seqs = vec![];
    for x in parse("oops\x1b[\n") {
        let csi_seq: CSISequence = (&x).into();
        csi_seqs.push(csi_seq);
    }

    assert_eq!(csi_seqs, vec![]);
}

#[test]
fn enums_reset_color() {
    let x = parse("oops\x1b[0m");

    let mut csi_seqs = vec![];
    for m in x {
        let csi_seq: CSISequence = (&m).into();
        csi_seqs.push(csi_seq);
    }

    assert_eq!(csi_seqs, vec![Color(Some(0), None, None),]);
}

#[test]
fn color_takes_first_second_and_last() {
    assert_eq!(meanings("\x1b[m"), vec![Color(None, None, None)]);
    assert_eq!(meanings("\x1b[31m"), vec![Color(Some(31), None, None)]);
    assert_eq!(meanings("\x1b[31;4m"), vec![Color(Some(31), None, Some(4))]);
    assert_eq!(meanings("\x1b[31;42;4m"), vec![Color(Some(31), Some(42), Some(4))]);
    assert_eq!(meanings("\x1b[1;2;3;4m"), vec![Color(Some(1), Some(2), Some(4))]);
    assert_eq!(meanings("\x1b[31;;m"), vec![Color(Some(31), None, None)]);
}

#[test]
fn cursor_sequences() {
    assert_eq!(meanings("\x1b[10;20H"), vec![CursorPos(Some(10), Some(20))]);
    assert_eq!(meanings("\x1b[5H"), vec![CursorPos(Some(5), Some(5))]);
    assert_eq!(meanings("\x1b[H"), vec![CursorPos(None, None)]);
    assert_eq!(meanings("\x1b[1;2;3H"), vec![CursorPos(Some(1), Some(3))]);
    assert_eq!(meanings("\x1b[2A"), vec![CursorUp(Some(2))]);
    assert_eq!(meanings("\x1b[3B"), vec![CursorDown(Some(3))]);
    assert_eq!(meanings("\x1b[4C"), vec![CursorForward(Some(4))]);
    assert_eq!(meanings("\x1b[5D"), vec![CursorBackward(Some(5))]);
    assert_eq!(meanings("\x1b[A"), vec![CursorUp(None)]);
    assert_eq!(meanings("\x1b[s\x1b[u"), vec![CursorSave, CursorRestore]);
}

#[test]
fn erase_modes() {
    assert_eq!(meanings("\x1b[J"), vec![EraseDisplay(ClearMode::After)]);
    assert_eq!(meanings("\x1b[0J"), vec![EraseDisplay(ClearMode::After)]);
    assert_eq!(meanings("\x1b[1J"), vec![EraseDisplay(ClearMode::Before)]);
    assert_eq!(meanings("\x1b[2J"), vec![EraseDisplay(ClearMode::All)]);
    assert_eq!(meanings("\x1b[3J"), vec![EraseDisplay(ClearMode::After)]);
    assert_eq!(meanings("\x1b[1K"), vec![EraseLine(ClearMode::Before)]);
    assert_eq!(meanings("\x1b[2K"), vec![EraseLine(ClearMode::All)]);
    assert_eq!(meanings("\x1b[K"), vec![EraseLine(ClearMode::After)]);
}

#[test]
fn attribute_modes() {
    assert_eq!(meanings("\x1b[?25h"), vec![EnableAttr(Attr::Cursor)]);
    assert_eq!(meanings("\x1b[?25l"), vec![ResetAttr(Attr::Cursor)]);
    assert_eq!(meanings("\x1b[?7l"), vec![ResetAttr(Attr::AutoWrap)]);
    assert_eq!(meanings("\x1b[7h"), vec![EnableAttr(Attr::AutoWrap)]);
    assert_eq!(meanings("\x1b[?0h"), vec![EnableAttr(Attr::NoAttr)]);
    assert_eq!(meanings("\x1b[h"), vec![EnableAttr(Attr::NoAttr)]);
    assert_eq!(meanings("\x1b[?1049h"), vec![EnableAttr(Attr::NoAttr)]);
}

#[test]
fn unknown_final_byte_is_plain_escape() {
    assert_eq!(meanings("\x1b[1 q\x1b[5n\x1b[~"), vec![Escape, Escape, Escape]);
}

#[test]
fn mode_from_number() {
    assert_eq!(Attr::from(None), Attr::NoAttr);
    assert_eq!(Attr::from(Some(0)), Attr::NoAttr);
    assert_eq!(Attr::from(Some(25)), Attr::Cursor);
    assert_eq!(Attr::from(Some(7)), Attr::AutoWrap);
    assert_eq!(Attr::from(Some(8)), Attr::NoAttr);
    assert_eq!(ClearMode::from(None), ClearMode::After);
    assert_eq!(ClearMode::from(Some(0)), ClearMode::After);
    assert_eq!(ClearMode::from(Some(1)), ClearMode::Before);
    assert_eq!(ClearMode::from(Some(2)), ClearMode::All);
    assert_eq!(ClearMode::from(Some(9)), ClearMode::After);
}

#[test]
fn str_to_usize_values() {
    assert_eq!(str_to_usize(None), None);
    assert_eq!(str_to_usize(Some(&"")), None);
    assert_eq!(str_to_usize(Some(&"0")), Some(0));
    assert_eq!(str_to_usize(Some(&"31")), Some(31));
    assert_eq!(str_to_usize(Some(&"007")), Some(7));
    assert_eq!(str_to_usize(Some(&"1234567890")), Some(1234567890));
    assert_eq!(str_to_usize(Some(&"?25")), Some(25));
    assert_eq!(str_to_usize(Some(&"?")), None);
    assert_eq!(str_to_usize(Some(&"??25")), None);
    assert_eq!(str_to_usize(Some(&"+5")), Some(5));
    assert_eq!(str_to_usize(Some(&"?+5")), Some(5));
    assert_eq!(str_to_usize(Some(&"+")), None);
    assert_eq!(str_to_usize(Some(&"++5")), None);
    assert_eq!(str_to_usize(Some(&"-5")), None);
    assert_eq!(str_to_usize(Some(&"5 ")), None);
    assert_eq!(str_to_usize(Some(&"1:2")), None);
    assert_eq!(str_to_usize(Some(&"12a")), None);
    assert_eq!(str_to_usize(Some(&"é")), None);
}

#[test]
fn str_to_usize_at_the_limit() {
    let max = usize::MAX.to_string();
    assert_eq!(str_to_usize(Some(&max.as_str())), Some(usize::MAX));
    let over = format!("{}0", max);
    assert_eq!(str_to_usize(Some(&over.as_str())), None);
    assert_eq!(str_to_usize(Some(&"99999999999999999999999999999999999999999")), None);
    assert_eq!(meanings("\x1b[99999999999999999999999999999999999999999A"), vec![CursorUp(None)]);
}

#[test]
fn meaning_of_a_hand_made_match() {
    let short = Match { start: 0, end: 2, csi_text: "\x1b[", original_text: "", csi_type: b'm' };
    assert_eq!(CSISequence::from(&short), Color(None, None, None));
    let plain = Match { start: 3, end: 10, csi_text: "\x1b[12;7H", original_text: "", csi_type: b'H' };
    assert_eq!(CSISequence::from(&plain), CursorPos(Some(12), Some(7)));
}

#[test]
fn written_forms_of_sequences() {
    assert_eq!(Escape.to_string(), "\u{1b}");
    assert_eq!(Color(Some(31), None, Some(4)).to_string(), "[Some(31);None;Some(4)m");
    assert_eq!(Color(None, None, None).to_string(), "[None;None;Nonem");
    assert_eq!(CursorPos(Some(10), Some(20)).to_string(), "[Some(10);Some(20)H");
    assert_eq!(CursorUp(Some(0)).to_string(), "[Some(0)A");
    assert_eq!(CursorDown(Some(9)).to_string(), "[Some(9)B");
    assert_eq!(CursorForward(Some(1234567890)).to_string(), "[Some(1234567890)C");
    assert_eq!(CursorBackward(None).to_string(), "[NoneD");
    assert_eq!(CursorSave.to_string(), "[s");
    assert_eq!(CursorRestore.to_string(), "[u");
    assert_eq!(EraseDisplay(ClearMode::All).to_string(), "[2J");
    assert_eq!(EraseLine(ClearMode::After).to_string(), "[0K");
    assert_eq!(EnableAttr(Attr::Cursor).to_string(), "[?25h");
    assert_eq!(ResetAttr(Attr::AutoWrap).to_string(), "[?7l");
}

#[test]
fn written_forms_of_modes() {
    assert_eq!(Attr::NoAttr.to_string(), "0");
    assert_eq!(Attr::Cursor.to_string(), "25");
    assert_eq!(Attr::AutoWrap.to_string(), "7");
    assert_eq!(ClearMode::After.to_string(), "0");
    assert_eq!(ClearMode::Before.to_string(), "1");
    assert_eq!(ClearMode::All.to_string(), "2");
}

#[test]
fn written_form_of_the_largest_number() {
    assert_eq!(CursorUp(Some(usize::MAX)).to_string(), format!("[Some({})A", usize::MAX));
}
