use disassembly::style::{Palette, Span, Style, StyledText};
use disassembly::symbols::{Executable, FunctionInfo, LineInfo, Subfunction, Symbols, SymbolsShard};
use disassembly::listing::disassemble_addr_ranges;
use disassembly::{disassemble_function, disassemble_memory, DisassemblyLineKind, ErrorKind};
use iced_x86::{Decoder, DecoderOptions, Formatter, NasmFormatter};
use std::ops::Range;

fn style(color: u32) -> Style {
    Style { color, bold: false }
}

fn palette() -> Palette {
    Palette {
        error: style(1),
        default_dim: style(2),
        disas_default: style(3),
        disas_filename: style(4),
        line_number: style(5),
        column_number: style(6),
        disas_keyword: style(7),
        disas_mnemonic: style(8),
        disas_register: style(9),
        disas_number: style(10),
        disas_function: style(11),
        tree_indent: ("┆ ".to_string(), style(12)),
    }
}

fn intro(lines: &[&str]) -> StyledText {
    let mut t = StyledText::new();
    for l in lines {
        t.push_str(l, style(0));
        t.close_line();
    }
    t
}

fn nasm(code: &[u8], pos: usize, range: &Range<usize>) -> Vec<Span> {
    let instruction = Decoder::with_ip(64, &code[pos..], (range.start + pos) as u64, DecoderOptions::NONE).decode();
    let mut out = String::new();
    NasmFormatter::new().format(&instruction, &mut out);
    vec![Span { text: out, style: style(20) }]
}

fn line_text(t: &StyledText, i: usize) -> String {
    t.lines[i].iter().map(|s| s.text.as_str()).collect()
}

// call +0; je +2; jmp -9; jmp rax; nop; ret; int3
const CODE: &[u8] = &[0xe8, 0x00, 0x00, 0x00, 0x00, 0x74, 0x02, 0xeb, 0xf7, 0xff, 0xe0, 0x90, 0xc3, 0xcc];

#[test]
fn memory_listing_has_one_line_per_instruction_after_the_intro() {
    let d = disassemble_memory(0x1000..0x100e, CODE, intro(&["first", "second"]), &palette(), &nasm);
    assert!(d.error.is_none());
    assert_eq!(d.lines.len(), 2 + 7);
    assert_eq!(d.text.num_lines(), d.lines.len());
    for i in 0..2 {
        assert_eq!(d.lines[i].kind, DisassemblyLineKind::Intro);
        assert_eq!(d.lines[i].static_addr, 0);
    }
    assert_eq!(line_text(&d.text, 0), "first");
    let addrs: Vec<usize> = d.lines[2..].iter().map(|l| l.static_addr).collect();
    assert_eq!(addrs, vec![0x1000, 0x1005, 0x1007, 0x1009, 0x100b, 0x100c, 0x100d]);
    let rel: Vec<isize> = d.lines[2..].iter().map(|l| l.relative_addr).collect();
    assert_eq!(rel, vec![0, 5, 7, 9, 0xb, 0xc, 0xd]);
    let arrows: Vec<char> = d.lines[2..].iter().map(|l| l.jump_indicator).collect();
    assert_eq!(arrows, vec!['→', '↓', '↑', '↕', ' ', '←', '!']);
    let targets: Vec<Option<usize>> = d.lines[2..].iter().map(|l| l.jump_target).collect();
    assert_eq!(targets, vec![None, Some(0x1009), Some(0x1000), None, None, None, None]);
    for l in &d.lines[2..] {
        assert_eq!(l.kind, DisassemblyLineKind::Instruction);
        assert_eq!(l.subfunction_level, 0);
        assert_eq!(l.subfunction, None);
        assert_eq!(l.leaf_line, None);
    }
    assert_eq!(line_text(&d.text, 7), "ret");
    assert_eq!(line_text(&d.text, 8), "int3");
    assert_eq!(d.max_abs_relative_addr, 0xd);
    assert_eq!(d.indent_width, 2);
    let widest = (0..d.lines.len()).map(|i| d.text.line_width(i)).max().unwrap();
    assert_eq!(d.widest_line, widest);
}

#[test]
fn every_instruction_line_is_found_by_its_address() {
    let d = disassemble_memory(0x1000..0x100e, CODE, intro(&["x"]), &palette(), &nasm);
    for i in 0..d.lines.len() {
        if d.lines[i].kind == DisassemblyLineKind::Instruction {
            assert_eq!(d.static_addr_to_line(d.lines[i].static_addr), Some(i));
        }
    }
    assert_eq!(d.static_addr_to_line(0x1006), None);
    assert_eq!(d.static_pseudo_addr_to_line(0x1006), (2, true));
}

#[test]
fn memory_listing_of_no_code_is_the_intro() {
    let d = disassemble_memory(0x1000..0x1000, &[], intro(&["only"]), &palette(), &nasm);
    assert!(d.error.is_none());
    assert_eq!(d.lines.len(), 1);
    assert_eq!(d.lines[0].kind, DisassemblyLineKind::Intro);
}

#[test]
fn huge_range_ends_with_sanity_error() {
    let d = disassemble_memory(0..250_000_000, CODE, intro(&["x"]), &palette(), &nasm);
    let e = d.error.as_ref().unwrap();
    assert_eq!(e.kind, ErrorKind::Sanity);
    assert_eq!(e.message, "250 MB to disassemble, suspiciously much");
    assert_eq!(d.lines.len(), 2);
    assert_eq!(d.lines[1].kind, DisassemblyLineKind::Error);
    assert_eq!(d.lines[1].static_addr, usize::MAX);
    assert_eq!(line_text(&d.text, 1), "250 MB to disassemble, suspiciously much");
    assert_eq!(d.text.lines[1][0].style, style(1));
}

fn symbols() -> Symbols {
    let line = |addr: usize, file_idx: Option<usize>, line: usize, column: usize, is_statement: bool| LineInfo {
        addr,
        file_idx,
        line,
        column,
        is_statement,
    };
    let mut data = CODE.to_vec();
    data.extend_from_slice(&[0x90; 18]);
    Symbols {
        functions: vec![
            FunctionInfo { name: "main".to_string(), addr: 0x1000..0x100e, shard_idx: 0, subfunction_levels: vec![0..1] },
            FunctionInfo { name: "helper".to_string(), addr: 0x2000..0x2010, shard_idx: 0, subfunction_levels: vec![] },
        ],
        shards: vec![SymbolsShard {
            subfunctions: vec![Subfunction {
                addr_range: 0x1005..0x100b,
                callee_idx: 1,
                call_line: line(0x1005, Some(0), 10, 5, true),
                identity: 7,
            }],
        }],
        files: vec!["main.c".to_string()],
        lines: vec![line(0x1000, Some(0), 3, 1, true), line(0x1007, Some(0), 20, 0, false), line(0x100c, None, 0, 0, true)],
        executable: Executable { base: 0x1000, data },
    }
}

#[test]
fn function_listing_interleaves_source_lines_and_inlined_calls() {
    let s = symbols();
    assert!(s.can_disassemble(0));
    let d = disassemble_function(0, vec![0x1007..0x100e, 0x1000..0x1005], &s, intro(&["main"]), &palette(), &nasm);
    assert!(d.error.is_none());
    assert_eq!(d.symbols_shard, Some(0));
    let kinds: Vec<DisassemblyLineKind> = d.lines.iter().map(|l| l.kind).collect();
    assert_eq!(
        kinds,
        vec![
            DisassemblyLineKind::Intro,
            DisassemblyLineKind::LeafLineNumber,
            DisassemblyLineKind::Instruction,
            DisassemblyLineKind::Separator,
            DisassemblyLineKind::InlinedCallLineNumber,
            DisassemblyLineKind::InlinedFunctionName,
            DisassemblyLineKind::LeafLineNumber,
            DisassemblyLineKind::Instruction,
            DisassemblyLineKind::Instruction,
            DisassemblyLineKind::Instruction,
            DisassemblyLineKind::Instruction,
            DisassemblyLineKind::Instruction
        ]
    );
    let addrs: Vec<usize> = d.lines.iter().map(|l| l.static_addr).collect();
    assert_eq!(addrs, vec![0, 0x1000, 0x1000, 0x1007, 0x1007, 0x1007, 0x1007, 0x1007, 0x1009, 0x100b, 0x100c, 0x100d]);
    let levels: Vec<u16> = d.lines.iter().map(|l| l.subfunction_level).collect();
    assert_eq!(levels, vec![0, 0, 0, 0, 1, 1, 1, 1, 1, 0, 0, 0]);
    assert_eq!(d.lines[7].subfunction, Some(0));
    assert!(d.lines[2].is_statement);
    assert!(!d.lines[7].is_statement);
    assert_eq!(line_text(&d.text, 1), "main.c:3:1");
    assert_eq!(line_text(&d.text, 3), "──────────");
    assert_eq!(line_text(&d.text, 4), "main.c:10:5");
    assert_eq!(line_text(&d.text, 5), "helper");
    assert_eq!(line_text(&d.text, 6), "main.c:20");
    assert_eq!(d.lines[7].relative_addr, 0);
    assert_eq!(d.lines[8].relative_addr, 2);
    assert_eq!(d.lines[7].leaf_line.unwrap().line, 20);
    for i in 0..d.lines.len() {
        if d.lines[i].kind == DisassemblyLineKind::Instruction {
            assert_eq!(d.static_addr_to_line(d.lines[i].static_addr), Some(i));
        }
    }
}

#[test]
fn lines_other_than_instructions_have_no_offset_arrow_or_target() {
    let s = symbols();
    let d = disassemble_function(0, vec![0x1007..0x100e, 0x1000..0x1005], &s, intro(&["main"]), &palette(), &nasm);
    for l in &d.lines {
        if l.kind != DisassemblyLineKind::Instruction {
            assert_eq!(l.relative_addr, 0);
            assert_eq!(l.jump_indicator, ' ');
            assert_eq!(l.jump_target, None);
        }
    }
}

#[test]
fn function_range_outside_the_executable_ends_with_error() {
    let s = symbols();
    let d = disassemble_function(0, vec![0x5000..0x5010], &s, intro(&["main"]), &palette(), &nasm);
    let e = d.error.as_ref().unwrap();
    assert_eq!(e.kind, ErrorKind::Dwarf);
    assert_eq!(e.message, "function address range out of bounds of executable: 5000-5010");
    assert_eq!(d.lines.len(), 2);
    assert_eq!(d.lines[1].kind, DisassemblyLineKind::Error);
}

#[test]
fn inlined_call_in_two_pieces_is_marked_cont() {
    let mut s = symbols();
    let call_line = LineInfo { addr: 0x1000, file_idx: Some(0), line: 7, column: 0, is_statement: true };
    s.shards[0].subfunctions = vec![
        Subfunction { addr_range: 0x1000..0x1005, callee_idx: 1, call_line, identity: 7 },
        Subfunction { addr_range: 0x1007..0x100b, callee_idx: 1, call_line, identity: 7 },
    ];
    s.functions[0].subfunction_levels = vec![0..2];
    s.lines = vec![];
    assert!(s.can_disassemble(0));
    let d = disassemble_function(0, vec![0x1000..0x100e], &s, intro(&["main"]), &palette(), &nasm);
    assert!(d.error.is_none());
    let kinds: Vec<DisassemblyLineKind> = d.lines.iter().map(|l| l.kind).collect();
    assert_eq!(
        kinds,
        vec![
            DisassemblyLineKind::Intro,
            DisassemblyLineKind::InlinedCallLineNumber,
            DisassemblyLineKind::InlinedFunctionName,
            DisassemblyLineKind::Instruction,
            DisassemblyLineKind::Instruction,
            DisassemblyLineKind::InlinedCallLineNumber,
            DisassemblyLineKind::InlinedFunctionName,
            DisassemblyLineKind::Instruction,
            DisassemblyLineKind::Instruction,
            DisassemblyLineKind::Instruction,
            DisassemblyLineKind::Instruction,
            DisassemblyLineKind::Instruction
        ]
    );
    assert_eq!(line_text(&d.text, 1), "main.c:7");
    assert_eq!(line_text(&d.text, 2), "helper");
    assert_eq!(line_text(&d.text, 5), "main.c:7");
    assert_eq!(line_text(&d.text, 6), "helper [cont]");
    assert_eq!(d.text.lines[6][1].style, style(2));
    assert_eq!(d.lines[2].subfunction, None);
    assert_eq!(d.lines[6].subfunction, None);
    assert_eq!(d.lines[3].subfunction, Some(0));
    assert_eq!(d.lines[7].subfunction, Some(1));
    let levels: Vec<u16> = d.lines.iter().map(|l| l.subfunction_level).collect();
    assert_eq!(levels, vec![0, 1, 1, 1, 0, 1, 1, 1, 1, 0, 0, 0]);
}

#[test]
fn lines_opening_a_nested_call_carry_the_call_around_it() {
    let mut s = symbols();
    let call_line = LineInfo { addr: 0x1000, file_idx: Some(0), line: 7, column: 0, is_statement: true };
    s.shards[0].subfunctions = vec![
        Subfunction { addr_range: 0x1000..0x100b, callee_idx: 1, call_line, identity: 1 },
        Subfunction { addr_range: 0x1005..0x1009, callee_idx: 0, call_line, identity: 2 },
    ];
    s.functions[0].subfunction_levels = vec![0..1, 1..2];
    s.lines = vec![];
    assert!(s.can_disassemble(0));
    let d = disassemble_function(0, vec![0x1000..0x100e], &s, intro(&["main"]), &palette(), &nasm);
    assert!(d.error.is_none());
    let kinds: Vec<DisassemblyLineKind> = d.lines.iter().map(|l| l.kind).collect();
    assert_eq!(
        kinds,
        vec![
            DisassemblyLineKind::Intro,
            DisassemblyLineKind::InlinedCallLineNumber,
            DisassemblyLineKind::InlinedFunctionName,
            DisassemblyLineKind::Instruction,
            DisassemblyLineKind::InlinedCallLineNumber,
            DisassemblyLineKind::InlinedFunctionName,
            DisassemblyLineKind::Instruction,
            DisassemblyLineKind::Instruction,
            DisassemblyLineKind::Instruction,
            DisassemblyLineKind::Instruction,
            DisassemblyLineKind::Instruction,
            DisassemblyLineKind::Instruction
        ]
    );
    let levels: Vec<u16> = d.lines.iter().map(|l| l.subfunction_level).collect();
    assert_eq!(levels, vec![0, 1, 1, 1, 2, 2, 2, 2, 1, 0, 0, 0]);
    let owners: Vec<Option<usize>> = d.lines.iter().map(|l| l.subfunction).collect();
    assert_eq!(
        owners,
        vec![None, None, None, Some(0), Some(0), Some(0), Some(1), Some(1), Some(0), None, None, None]
    );
    assert_eq!(line_text(&d.text, 2), "helper");
    assert_eq!(line_text(&d.text, 5), "main");
}

#[test]
fn intro_text_left_open_starts_the_first_line() {
    let mut t = intro(&["title"]);
    t.push_str("> ", style(30));
    let d = disassemble_memory(0x1000..0x100e, CODE, t, &palette(), &nasm);
    assert_eq!(d.lines.len(), 1 + 7);
    assert_eq!(line_text(&d.text, 0), "title");
    assert_eq!(d.text.lines[1][0].text, "> ");
    assert_eq!(d.text.lines[1][0].style, style(30));
    assert!(line_text(&d.text, 1).starts_with("> call"));
    assert!(d.text.current.is_empty());
}

#[test]
fn decoding_goes_on_after_each_instruction_length() {
    // nop; jmp short to itself; an opcode invalid in 64-bit mode
    let code = [0x90, 0xeb, 0xfe, 0x06];
    let d = disassemble_memory(0x1000..0x1004, &code, intro(&[]), &palette(), &nasm);
    let addrs: Vec<usize> = d.lines.iter().map(|l| l.static_addr).collect();
    assert_eq!(addrs, vec![0x1000, 0x1001, 0x1003]);
    assert_eq!(d.lines[1].jump_indicator, '↑');
    assert_eq!(d.lines[1].jump_target, Some(0x1001));
    // a call cut short decodes as one invalid instruction over what is left
    let cut = disassemble_memory(0x10..0x12, &[0xe8, 0x00], intro(&[]), &palette(), &nasm);
    assert_eq!(cut.lines.len(), 1);
    assert_eq!(cut.lines[0].static_addr, 0x10);
}

#[test]
fn each_instruction_is_formatted_with_its_range() {
    let s = symbols();
    let by_range = |code: &[u8], pos: usize, r: &Range<usize>| {
        vec![Span { text: format!("{:x}-{:x}@{}:{:02x}", r.start, r.end, pos, code[pos]), style: style(21) }]
    };
    let d = disassemble_function(0, vec![0x1007..0x100e, 0x1000..0x1005], &s, intro(&["main"]), &palette(), &by_range);
    assert!(d.error.is_none());
    for i in 0..d.lines.len() {
        if d.lines[i].kind == DisassemblyLineKind::Instruction {
            let a = d.lines[i].static_addr;
            let (start, range) = if a < 0x1005 { (0x1000, "1000-1005") } else { (0x1007, "1007-100e") };
            let expected = format!("{}@{}:{:02x}", range, a - start, CODE[a - 0x1000]);
            assert_eq!(line_text(&d.text, i), expected);
            assert_eq!(d.text.lines[i][0].style, style(21));
        }
    }
}

#[test]
fn memory_ranges_that_merge_into_one_are_listed_as_that_one() {
    let merged = disassemble_addr_ranges(None, vec![0x1003..0x100e, 0x1000..0x1005], Some(CODE), intro(&["x"]), &palette(), &nasm);
    let single = disassemble_memory(0x1000..0x100e, CODE, intro(&["x"]), &palette(), &nasm);
    assert!(merged.error.is_none());
    assert_eq!(merged.lines, single.lines);
    assert_eq!(merged.text.lines.len(), single.text.lines.len());
}

#[test]
fn no_ranges_without_code_lists_only_the_intro() {
    let d = disassemble_addr_ranges(None, vec![], None, intro(&["x", "y"]), &palette(), &nasm);
    assert!(d.error.is_none());
    assert_eq!(d.lines.len(), 2);
    assert!(d.lines.iter().all(|l| l.kind == DisassemblyLineKind::Intro && l.static_addr == 0));
}
