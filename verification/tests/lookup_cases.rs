use disassembly::style::{Palette, Style, StyledText};
use disassembly::{Disassembly, DisassemblyLineInfo, DisassemblyLineKind, Error, ErrorKind};

fn line(kind: DisassemblyLineKind, static_addr: usize) -> DisassemblyLineInfo {
    DisassemblyLineInfo { kind, static_addr, ..Default::default() }
}

fn listing(lines: Vec<DisassemblyLineInfo>) -> Disassembly {
    let mut d = Disassembly::new();
    for _ in 0..lines.len() {
        d.text.push_str("x", Style { color: 0, bold: false });
        d.text.close_line();
    }
    d.lines = lines;
    d
}

fn sample() -> Disassembly {
    listing(vec![
        line(DisassemblyLineKind::Intro, 0),
        line(DisassemblyLineKind::LeafLineNumber, 0x100),
        line(DisassemblyLineKind::Instruction, 0x100),
        line(DisassemblyLineKind::Instruction, 0x104),
        line(DisassemblyLineKind::Separator, 0x200),
        line(DisassemblyLineKind::Instruction, 0x200),
    ])
}

#[test]
fn default_line_is_an_error_line_at_zero() {
    let l = DisassemblyLineInfo::default();
    assert_eq!(l.kind, DisassemblyLineKind::Error);
    assert_eq!(l.static_addr, 0);
    assert_eq!(l.jump_indicator, ' ');
    assert_eq!(l.subfunction_level, 0);
}

#[test]
fn new_listing_is_empty() {
    let d = Disassembly::new();
    assert_eq!(d.lines.len(), 0);
    assert_eq!(d.text.num_lines(), 0);
    assert_eq!(d.indent_width, 1);
    assert!(d.error.is_none());
}

#[test]
fn instruction_found_at_exact_address() {
    let d = sample();
    assert_eq!(d.static_addr_to_line(0x100), Some(2));
    assert_eq!(d.static_addr_to_line(0x104), Some(3));
    assert_eq!(d.static_addr_to_line(0x200), Some(5));
}

#[test]
fn no_instruction_between_or_outside() {
    let d = sample();
    assert_eq!(d.static_addr_to_line(0x102), None);
    assert_eq!(d.static_addr_to_line(0), None);
    assert_eq!(d.static_addr_to_line(0x300), None);
}

#[test]
fn pseudo_address_rounds_down() {
    let d = sample();
    assert_eq!(d.static_pseudo_addr_to_line(0x102), (2, true));
    assert_eq!(d.static_pseudo_addr_to_line(0x104), (3, true));
    assert_eq!(d.static_pseudo_addr_to_line(0x112), (3, true));
    assert_eq!(d.static_pseudo_addr_to_line(0x113), (3, false));
    assert_eq!(d.static_pseudo_addr_to_line(0x1ff), (3, false));
}

#[test]
fn pseudo_address_before_everything_is_line_zero() {
    let d = listing(vec![line(DisassemblyLineKind::Instruction, 0x100)]);
    assert_eq!(d.static_pseudo_addr_to_line(0x50), (0, false));
}

#[test]
fn finish_takes_widest_extent_and_largest_offset() {
    let mut d = Disassembly::new();
    d.indent_width = 3;
    let s = Style { color: 0, bold: false };
    d.text.push_str("abcd", s);
    d.text.close_line();
    d.text.push_str("ab", s);
    d.text.push_str("c", s);
    d.text.close_line();
    let mut a = line(DisassemblyLineKind::Instruction, 0x10);
    a.relative_addr = -7;
    let mut b = line(DisassemblyLineKind::Instruction, 0x20);
    b.subfunction_level = 2;
    b.subfunction = Some(0);
    b.relative_addr = 5;
    d.lines = vec![a, b];
    let d = d.finish();
    assert_eq!(d.widest_line, 2 * 3 + 3);
    assert_eq!(d.max_abs_relative_addr, 7);
}

#[test]
fn finish_handles_most_negative_offset() {
    let mut d = listing(vec![line(DisassemblyLineKind::Instruction, 0x10)]);
    d.lines[0].relative_addr = isize::MIN;
    let d = d.finish();
    assert_eq!(d.max_abs_relative_addr, isize::MIN.unsigned_abs());
}

#[test]
fn with_error_adds_styled_last_line() {
    let d = sample();
    let s = Style { color: 9, bold: true };
    let palette = Palette {
        error: s,
        default_dim: s,
        disas_default: s,
        disas_filename: s,
        line_number: s,
        column_number: s,
        disas_keyword: s,
        disas_mnemonic: s,
        disas_register: s,
        disas_number: s,
        disas_function: s,
        tree_indent: (" ".to_string(), s),
    };
    let d = d.with_error(Error { kind: ErrorKind::Sanity, message: "broken".to_string() }, &palette);
    assert_eq!(d.lines.len(), 7);
    assert_eq!(d.lines[6].kind, DisassemblyLineKind::Error);
    assert_eq!(d.lines[6].static_addr, usize::MAX);
    assert_eq!(d.text.num_lines(), 7);
    assert_eq!(d.text.lines[6][0].text, "broken");
    assert_eq!(d.error.as_ref().unwrap().message, "broken");
    assert_eq!(d.widest_line, 6);
    assert_eq!(d.static_addr_to_line(0x200), Some(5));
}

#[test]
fn styled_text_widths_count_characters() {
    let mut t = StyledText::new();
    let s = Style { color: 0, bold: false };
    t.push_str("┆ab", s);
    t.push_str("", s);
    t.close_line();
    assert_eq!(t.line_width(0), 3);
}
