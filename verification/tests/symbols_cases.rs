use disassembly::numfmt::push_digits;
use disassembly::style::{style_for_kind, Palette, Style, TextKind};
use disassembly::symbols::{resolve_branch_symbol, Executable, FunctionInfo, LineInfo, Symbols};

fn symbols() -> Symbols {
    let line = |addr: usize| LineInfo { addr, file_idx: None, line: 1, column: 0, is_statement: false };
    Symbols {
        functions: vec![
            FunctionInfo { name: "alpha".to_string(), addr: 0x100..0x200, shard_idx: 0, subfunction_levels: vec![] },
            FunctionInfo { name: "beta".to_string(), addr: 0x300..0x380, shard_idx: 0, subfunction_levels: vec![] },
        ],
        shards: vec![],
        files: vec![],
        lines: vec![line(0x100), line(0x110), line(0x110), line(0x150)],
        executable: Executable { base: 0x100, data: vec![0x90; 0x40] },
    }
}

#[test]
fn branch_inside_current_function_is_underscore() {
    let s = symbols();
    assert_eq!(resolve_branch_symbol(Some(&s), &(0x100..0x200), 0x150), Some((0x100, "_".to_string())));
}

#[test]
fn branch_elsewhere_names_its_function() {
    let s = symbols();
    assert_eq!(resolve_branch_symbol(Some(&s), &(0x100..0x200), 0x310), Some((0x300, "beta".to_string())));
    assert_eq!(resolve_branch_symbol(Some(&s), &(0x100..0x200), 0x250), None);
    assert_eq!(resolve_branch_symbol(None, &(0x100..0x200), 0x310), None);
}

#[test]
fn function_lookup_and_line_search() {
    let s = symbols();
    assert_eq!(s.addr_to_function(0x37f), Some(1));
    assert_eq!(s.addr_to_function(0x380), None);
    assert_eq!(s.first_line_at_or_after(0x110), 1);
    assert_eq!(s.first_line_at_or_after(0x111), 3);
    assert_eq!(s.first_line_at_or_after(0x151), 4);
}

#[test]
fn executable_offsets() {
    let s = symbols();
    assert_eq!(s.executable.addr_range_to_offset_range(0x110, 0x120), Some((0x10, 0x20)));
    assert_eq!(s.executable.addr_range_to_offset_range(0x110, 0x141), None);
    assert_eq!(s.executable.addr_range_to_offset_range(0x90, 0x120), None);
}

#[test]
fn symbols_that_do_not_fit_are_refused() {
    let mut s = symbols();
    assert!(!s.can_disassemble(0));
    s.shards.push(disassembly::symbols::SymbolsShard { subfunctions: vec![] });
    assert!(s.can_disassemble(0));
    assert!(!s.can_disassemble(2));
    s.lines.swap(0, 3);
    assert!(!s.can_disassemble(0));
}

#[test]
fn digits_in_both_bases() {
    let mut t = String::from("n=");
    push_digits(&mut t, 0, 10);
    push_digits(&mut t, 1234567, 10);
    t.push(' ');
    push_digits(&mut t, 0xbeef, 16);
    assert_eq!(t, "n=01234567 beef");
}

#[test]
fn styles_by_text_kind() {
    let c = |color: u32| Style { color, bold: false };
    let p = Palette {
        error: c(1),
        default_dim: c(2),
        disas_default: c(3),
        disas_filename: c(4),
        line_number: c(5),
        column_number: c(6),
        disas_keyword: c(7),
        disas_mnemonic: c(8),
        disas_register: c(9),
        disas_number: c(10),
        disas_function: c(11),
        tree_indent: (String::new(), c(12)),
    };
    assert_eq!(style_for_kind(&p, TextKind::Directive), c(7));
    assert_eq!(style_for_kind(&p, TextKind::Prefix), c(8));
    assert_eq!(style_for_kind(&p, TextKind::Register), c(9));
    assert_eq!(style_for_kind(&p, TextKind::Number), c(10));
    assert_eq!(style_for_kind(&p, TextKind::Function), c(11));
    assert_eq!(style_for_kind(&p, TextKind::Punctuation), c(3));
}
