//! Listing the instructions of address ranges, with source lines and inlined calls.
use crate::annotate::{
    annotate, entries_lines, lemma_pointers_weaken, lemma_records_window, pointers_fit, records_in, source_lines,
};
use crate::decoder::{advance_ip, decode_at, next_ip, x86_64_decode, FirstOperand, FlowKind, InstrFacts};
use crate::disassembly::{
    abs_isize, error_line, line_extent, lines_sorted, splits_at, Disassembly, DisassemblyLineInfo,
    DisassemblyLineKind, Error, ErrorKind,
};
use crate::lines::{
    annotation_lines_at, annotations_fit, chain, identity_named_before, nesting_of, instr_view, instruction_views,
    instructions_alone, instructions_before, intro_line, jump_of, leaf_above, leaves_fit,
    lemma_annotations_extended, lemma_instruction_listed, lemma_instruction_views_push, lemma_intro_views,
    lemma_leaves_push, lemma_named_unchanged, lemma_plain_push, lemma_shapes_split, lemma_texts_chain,
    lemma_texts_push_free, lemma_views_unchanged, instruction_texts_fit, lemma_instruction_text_step,
    lemma_instruction_texts_chain, lemma_instruction_texts_push_other, line_instr_view, line_leaf_ok, line_nesting_ok,
    line_statement_ok, names_identity, no_error_lines, plain_line, seen_fits, separator_line,
    separator_text, shapes, statements_fit, subs_of, text_ok, texts_fit, InstrView,
};
use crate::numfmt::{digits, push_digits};
use crate::ranges::{clean_up_ranges, is_cleanup_of, lemma_cleanup_len, lemma_cleanup_single, separated};
use crate::style::{line_view, Palette, Span, Style, StyledText};
use crate::symbols::{function_levels, shard_subfunctions, symbols_fit, LineInfo, Symbols};
use std::ops::Range;
use vstd::prelude::*;

verus! {

/// The instructions decoded from `code`, which sits at the addresses from `range_start` on, from
/// offset `pos` to the end, each decoded at its own address, as the listing shows them.
pub open spec fn listing_stream(code: Seq<u8>, pos: int, range_start: usize) -> Seq<InstrView>
    decreases code.len() - pos,
{
    if pos < 0 || pos >= code.len() {
        Seq::empty()
    } else {
        let ip = (range_start + pos) as u64;
        let f = x86_64_decode(code.skip(pos), ip);
        if f.len == 0 || pos + f.len > code.len() {
            seq![instr_view(f, ip, range_start)]
        } else {
            seq![instr_view(f, ip, range_start)] + listing_stream(code, pos + f.len, range_start)
        }
    }
}

/// The instructions of a whole range of code.
pub open spec fn range_stream(code: Seq<u8>, r: Range<usize>) -> Seq<InstrView> {
    listing_stream(code, 0, r.start)
}

/// The number of addresses in `r`.
pub open spec fn range_len(r: Range<usize>) -> nat {
    if r.end > r.start {
        (r.end - r.start) as nat
    } else {
        0
    }
}

/// The most addresses that one listing disassembles in one range.
pub open spec fn max_range_len() -> nat {
    100_000_000
}

/// The code of range `r`: the given memory, or else the executable's bytes at those addresses.
pub open spec fn range_code(memory_code: Option<Seq<u8>>, symbols: Option<Symbols>, r: Range<usize>) -> Option<Seq<u8>> {
    match memory_code {
        Some(c) => Some(c),
        None => match symbols {
            Some(s) => match crate::symbols::offset_range(s.executable, r.start, r.end) {
                Some((a, b)) => Some(s.executable.data@.subrange(a as int, b as int)),
                None => None,
            },
            None => None,
        },
    }
}

/// Why range `r` cannot be listed, if it cannot: it is too long, or its code is not at hand.
pub open spec fn range_error(memory_code: Option<Seq<u8>>, symbols: Option<Symbols>, r: Range<usize>) -> Option<ErrorKind> {
    if range_len(r) > max_range_len() {
        Some(ErrorKind::Sanity)
    } else if range_code(memory_code, symbols, r) is None {
        Some(ErrorKind::Dwarf)
    } else {
        None
    }
}

/// The instructions of `ranges`, one range after the other.
pub open spec fn ranges_stream(memory_code: Option<Seq<u8>>, symbols: Option<Symbols>, ranges: Seq<Range<usize>>) -> Seq<InstrView>
    decreases ranges.len(),
{
    if ranges.len() == 0 {
        Seq::empty()
    } else {
        ranges_stream(memory_code, symbols, ranges.drop_last()) + range_stream(
            range_code(memory_code, symbols, ranges.last()).unwrap(),
            ranges.last(),
        )
    }
}

/// The arrow and branch target that the listing shows for instruction `f`.
fn jump_for(f: &InstrFacts) -> (r: (char, Option<usize>))
    ensures
        r == jump_of(*f, f.ip),
{
    match f.flow {
        FlowKind::Next => (' ', None),
        FlowKind::Return => ('←', None),
        FlowKind::Call | FlowKind::IndirectCall => ('→', None),
        FlowKind::Interrupt | FlowKind::XbeginXabortXend | FlowKind::Exception => ('!', None),
        FlowKind::UnconditionalBranch | FlowKind::IndirectBranch | FlowKind::ConditionalBranch => {
            let target_known = f.flow != FlowKind::IndirectBranch && f.first_operand
                != FirstOperand::Other;
            if !target_known {
                ('↕', None)
            } else if f.near_branch_target > f.ip {
                ('↓', Some(f.near_branch_target as usize))
            } else {
                ('↑', Some(f.near_branch_target as usize))
            }
        },
    }
}

/// The lines for the instruction at `a`, the previous instruction of its range being at `p` (0
/// for the first), with the source line records from address `lo` on not yet shown: with
/// symbols, the lines that open the inlined calls entered, and a line for each record up to `a`;
/// then the instruction's own line.
pub open spec fn block_lines(function: Option<(usize, &Symbols)>, a: usize, p: usize, lo: int) -> Seq<DisassemblyLineInfo> {
    match function {
        None => seq![plain_line(DisassemblyLineKind::Instruction, a, 0, None, None)],
        Some((f, s)) => {
            let subs = shard_subfunctions(*s, f as int);
            let ch = chain(subs, s.functions@[f as int].subfunction_levels@, a, 0);
            let level = nesting_of(ch).0;
            let sub = nesting_of(ch).1;
            entries_lines(subs, ch, a, p) + source_lines(records_in(s.lines@, lo, a as int), a, level, sub)
                + seq![plain_line(DisassemblyLineKind::Instruction, a, level, sub, None)]
        },
    }
}

/// The lines for the instructions decoded from `code`, which sits at the addresses from
/// `range_start` on, from offset `pos` to the end, the previous instruction being at `p` and
/// records from `lo` on not yet shown.
pub open spec fn range_lines(
    code: Seq<u8>,
    pos: int,
    range_start: usize,
    p: usize,
    lo: int,
    function: Option<(usize, &Symbols)>,
) -> Seq<DisassemblyLineInfo>
    decreases code.len() - pos,
{
    if pos < 0 || pos >= code.len() {
        Seq::empty()
    } else {
        let f = x86_64_decode(code.skip(pos), (range_start + pos) as u64);
        let a = (range_start + pos) as usize;
        let here = block_lines(function, a, p, lo);
        if f.len == 0 || pos + f.len > code.len() {
            here
        } else {
            here + range_lines(code, pos + f.len, range_start, a, a + 1, function)
        }
    }
}

/// The lines after the intro for listing `ranges` in order, each after the first parted from
/// the one before by a separator.
pub open spec fn listing_lines(
    mc: Option<Seq<u8>>,
    function: Option<(usize, &Symbols)>,
    ranges: Seq<Range<usize>>,
) -> Seq<DisassemblyLineInfo>
    decreases ranges.len(),
{
    if ranges.len() == 0 {
        Seq::empty()
    } else {
        let r = ranges.last();
        let sep = if ranges.len() > 1 {
            seq![separator_line(r)]
        } else {
            Seq::empty()
        };
        listing_lines(mc, function, ranges.drop_last()) + sep + range_lines(
            range_code(mc, symbols_view(function), r).unwrap(),
            0,
            r.start,
            0,
            r.start as int,
            function,
        )
    }
}

/// For each line after the intro of a listing of `ranges`, the range it belongs to, with that
/// range's code.
pub open spec fn listing_owners(
    mc: Option<Seq<u8>>,
    function: Option<(usize, &Symbols)>,
    ranges: Seq<Range<usize>>,
) -> Seq<(Range<usize>, Seq<u8>)>
    decreases ranges.len(),
{
    if ranges.len() == 0 {
        Seq::empty()
    } else {
        let r = ranges.last();
        let n = (if ranges.len() > 1 {
            1int
        } else {
            0int
        }) + range_lines(range_code(mc, symbols_view(function), r).unwrap(), 0, r.start, 0, r.start as int, function).len();
        let code = range_code(mc, symbols_view(function), r).unwrap();
        listing_owners(mc, function, ranges.drop_last()) + Seq::new(n as nat, |j: int| (r, code))
    }
}

/// Listing one more instruction extends the lines listed so far by that instruction's block.
proof fn lemma_range_step(
    listed: Seq<DisassemblyLineInfo>,
    block: Seq<DisassemblyLineInfo>,
    code: Seq<u8>,
    pos: int,
    range_start: usize,
    p: usize,
    lo: int,
    function: Option<(usize, &Symbols)>,
    whole: Seq<DisassemblyLineInfo>,
)
    requires
        0 <= pos < code.len(),
        1 <= x86_64_decode(code.skip(pos), (range_start + pos) as u64).len,
        pos + x86_64_decode(code.skip(pos), (range_start + pos) as u64).len <= code.len(),
        block == block_lines(function, (range_start + pos) as usize, p, lo),
        listed + range_lines(code, pos, range_start, p, lo, function) == whole,
    ensures
        ({
            let f = x86_64_decode(code.skip(pos), (range_start + pos) as u64);
            let a = (range_start + pos) as usize;
            (listed + block) + range_lines(code, pos + f.len, range_start, a, a + 1, function) == whole
        }),
{
    let f = x86_64_decode(code.skip(pos), (range_start + pos) as u64);
    let a = (range_start + pos) as usize;
    let rest = range_lines(code, pos + f.len, range_start, a, a + 1, function);
    assert(range_lines(code, pos, range_start, p, lo, function) == block + rest);
    assert((listed + block) + rest =~= listed + (block + rest));
}

/// Lists the instruction at offset `pos` of `code`, at address `ip`: with symbols, the lines for
/// the inlined calls entered and for the source lines passed since the previous instruction of
/// the range (at `prev_static_addr`, the records from address `lo` on not shown yet), then the
/// instruction's own line, whose text `format` gives. Returns the instruction's length.
#[verifier::rlimit(80)]
fn list_instruction<F>(
    res: &mut Disassembly,
    function: Option<(usize, &Symbols)>,
    subfunc_idxs: &mut Vec<Range<usize>>,
    seen: &mut std::collections::HashSet<u32>,
    line_cursor: &mut usize,
    leaf_line: &mut Option<LineInfo>,
    code: &[u8],
    pos: usize,
    ip: u64,
    prev_static_addr: usize,
    Ghost(lo): Ghost<int>,
    range: &Range<usize>,
    palette: &Palette,
    format: &F,
) -> (len: usize) where F: Fn(&[u8], usize, &Range<usize>) -> Vec<Span>
    requires
        forall|c: &[u8], p: usize, q: &Range<usize>| format.requires((c, p, q)),
        pos < code@.len(),
        ip == range.start + pos,
        range.start + code@.len() <= usize::MAX + 1,
        lo <= range.start + pos,
        old(res).text.lines@.len() == old(res).lines@.len(),
        lines_sorted(old(res).lines@),
        old(res).lines@.len() > 0 ==> old(res).lines@.last().static_addr <= range.start + pos,
        annotations_fit(old(res).lines@, subs_of(function)),
        instructions_alone(old(res).lines@),
        instructions_before(old(res).lines@, range.start + pos),
        no_error_lines(old(res).lines@),
        statements_fit(old(res).lines@, function),
        leaves_fit(old(res).lines@, function),
        *old(leaf_line) == leaf_above(old(res).lines@, old(res).lines@.len() as int),
        function matches Some((f, s)) ==> {
            &&& symbols_fit(*s, f as int)
            &&& pointers_fit(
                old(subfunc_idxs)@,
                s.functions@[f as int].subfunction_levels@,
                shard_subfunctions(*s, f as int),
                range.start + pos,
            )
            &&& seen_fits(old(seen)@, old(res).lines@, shard_subfunctions(*s, f as int), function_levels(*s, f as int))
            &&& *old(line_cursor) <= s.lines@.len()
            &&& forall|j: int| 0 <= j < *old(line_cursor) ==> #[trigger] s.lines@[j].addr < lo
            &&& forall|j: int| *old(line_cursor) <= j < s.lines@.len() ==> #[trigger] s.lines@[j].addr >= lo
        },
    ensures
        len == x86_64_decode(code@.skip(pos as int), ip).len,
        1 <= len <= code@.len() - pos,
        len <= 15,
        x86_64_decode(code@.skip(pos as int), ip).ip == ip,
        final(res).text.lines@.len() == final(res).lines@.len(),
        final(res).error == old(res).error,
        final(res).indent_width == old(res).indent_width,
        final(res).symbols_shard == old(res).symbols_shard,
        final(res).widest_line == old(res).widest_line,
        final(res).max_abs_relative_addr == old(res).max_abs_relative_addr,
        old(res).lines@.len() < final(res).lines@.len(),
        final(res).lines@.take(old(res).lines@.len() as int) == old(res).lines@,
        final(res).text.lines@.take(old(res).lines@.len() as int) == old(res).text.lines@,
        forall|i: int|
            old(res).lines@.len() <= i < final(res).lines@.len() ==> #[trigger] final(res).lines@[i].static_addr
                == range.start + pos,
        lines_sorted(final(res).lines@),
        annotations_fit(final(res).lines@, subs_of(function)),
        instructions_alone(final(res).lines@),
        instructions_before(final(res).lines@, range.start + pos + 1),
        no_error_lines(final(res).lines@),
        statements_fit(final(res).lines@, function),
        leaves_fit(final(res).lines@, function),
        *final(leaf_line) == leaf_above(final(res).lines@, final(res).lines@.len() as int),
        instruction_views(final(res).lines@) == instruction_views(old(res).lines@).push(
            instr_view(x86_64_decode(code@.skip(pos as int), ip), ip, range.start),
        ),
        shapes(final(res).lines@.skip(old(res).lines@.len() as int)) == block_lines(
            function,
            (range.start + pos) as usize,
            prev_static_addr,
            lo,
        ),
        texts_fit(
            final(res).lines@,
            final(res).text.lines@,
            old(res).lines@.len() as int,
            line_view(old(res).text.current@),
            function,
            *palette,
        ),
        final(res).text.current@.len() == 0,
        instruction_texts_fit(
            final(res).lines@,
            final(res).text.lines@,
            old(res).lines@.len() as int,
            line_view(old(res).text.current@),
            format,
            Seq::new((final(res).lines@.len() - old(res).lines@.len()) as nat, |j: int| (*range, code@)),
        ),
        function matches Some((f, s)) ==> {
            &&& pointers_fit(
                final(subfunc_idxs)@,
                s.functions@[f as int].subfunction_levels@,
                shard_subfunctions(*s, f as int),
                range.start + pos,
            )
            &&& seen_fits(final(seen)@, final(res).lines@, shard_subfunctions(*s, f as int), function_levels(*s, f as int))
            &&& *final(line_cursor) <= s.lines@.len()
            &&& forall|j: int| 0 <= j < *final(line_cursor) ==> #[trigger] s.lines@[j].addr < range.start + pos + 1
            &&& forall|j: int| *final(line_cursor) <= j < s.lines@.len() ==> #[trigger] s.lines@[j].addr
                >= range.start + pos + 1
        },
{
    let d = decode_at(code, pos, ip);
    let static_addr = d.ip as usize;
    assert(static_addr == range.start + pos);
    let ghost lines_before = res.lines@;
    let ghost text_before = res.text.lines@;
    let ghost cur_before = res.text.current@;
    let ghost c_before = *line_cursor;
    let (subfunction_level, cur_subfunction, is_statement) = match function {
        Some((f, symbols)) => annotate(
            res,
            symbols,
            f,
            palette,
            subfunc_idxs,
            seen,
            line_cursor,
            static_addr,
            prev_static_addr,
            leaf_line,
        ),
        None => (0, None, false),
    };
    let ghost lines_mid = res.lines@;
    let ghost text_mid = res.text.lines@;
    let ghost cur_mid = res.text.current@;
    proof {
        if function is None {
            assert(lines_mid.take(lines_before.len() as int) =~= lines_before);
            assert(text_mid.take(text_before.len() as int) =~= text_before);
            assert(annotation_lines_at(lines_mid, lines_before.len() as int, static_addr));
            assert(texts_fit(lines_mid, text_mid, lines_before.len() as int, line_view(cur_before), function, *palette));
        }
        assert(instruction_views(lines_mid) == instruction_views(lines_before)) by {
            lemma_views_unchanged(lines_before, lines_mid, static_addr);
        }
    }
    let (jump_indicator, jump_target) = jump_for(&d);
    let spans = format(code, pos, range);
    let ghost spans_g = spans;
    res.text.push_spans(spans);
    res.text.close_line();
    let line = DisassemblyLineInfo {
        kind: DisassemblyLineKind::Instruction,
        static_addr,
        relative_addr: (static_addr - range.start) as isize,
        subfunction_level,
        jump_indicator,
        jump_target,
        is_statement,
        leaf_line: *leaf_line,
        subfunction: cur_subfunction,
    };
    res.lines.push(line);
    proof {
        let n0 = lines_before.len() as int;
        assert(res.lines@ == lines_mid.push(line));
        assert(res.text.lines@ == text_mid.push(res.text.lines@.last()));
        assert(res.text.lines@.take(n0) =~= text_before);
        assert(instruction_views(res.lines@) == instruction_views(lines_before).push(instr_view(d, ip, range.start)))
            by {
            lemma_instruction_views_push(lines_mid, line);
            assert(line_instr_view(line) == instr_view(d, ip, range.start));
        }
        assert({
            &&& lines_sorted(res.lines@)
            &&& instructions_alone(res.lines@)
            &&& instructions_before(res.lines@, static_addr + 1)
            &&& no_error_lines(res.lines@)
            &&& statements_fit(res.lines@, function)
            &&& annotations_fit(res.lines@, subs_of(function))
            &&& leaves_fit(res.lines@, function)
            &&& leaf_above(res.lines@, res.lines@.len() as int) == line.leaf_line
            &&& res.lines@.take(n0) == lines_before
            &&& forall|i: int| n0 <= i < res.lines@.len() ==> #[trigger] res.lines@[i].static_addr == static_addr
        }) by {
            match function {
                Some((f, sy)) => {
                    lemma_annotations_extended(lines_before, lines_mid, shard_subfunctions(*sy, f as int));
                },
                None => {},
            }
            lemma_instruction_listed(
                lines_before,
                lines_mid,
                line,
                function,
                n0,
                static_addr as int,
                static_addr + 1,
            );
        }
        match function {
            Some((f, sy)) => {
                assert(seen_fits(seen@, res.lines@, shard_subfunctions(*sy, f as int), function_levels(*sy, f as int))) by {
                    assert forall|id: u32| #[trigger] seen@.contains(id) == identity_named_before(
                        res.lines@,
                        res.lines@.len() as int,
                        shard_subfunctions(*sy, f as int),
                        function_levels(*sy, f as int),
                        id,
                    ) by {
                        assert(res.lines@.take(lines_mid.len() as int) =~= lines_mid);
                        lemma_named_unchanged(lines_mid, res.lines@, shard_subfunctions(*sy, f as int), function_levels(*sy, f as int), id);
                    }
                }
            },
            None => {},
        }
        assert(texts_fit(res.lines@, res.text.lines@, n0, line_view(cur_before), function, *palette)) by {
            lemma_texts_push_free(
                lines_mid,
                text_mid,
                line,
                res.text.lines@.last(),
                n0,
                line_view(cur_before),
                function,
                *palette,
            );
        }
        assert(instruction_texts_fit(
            res.lines@,
            res.text.lines@,
            n0,
            line_view(cur_before),
            format,
            Seq::new((res.lines@.len() - n0) as nat, |j: int| (*range, code@)),
        )) by {
            assert(line_view(res.text.lines@.last()@) =~= line_view(cur_mid) + line_view(spans_g@));
            if lines_mid.len() > lines_before.len() {
                assert(line_view(cur_mid) =~= Seq::<(Seq<char>, Style)>::empty());
            }
            assert forall|i: int| lines_before.len() <= i < lines_mid.len() implies #[trigger] lines_mid[i].kind
                != DisassemblyLineKind::Instruction by {
                assert(lines_mid[i].static_addr == static_addr);
            }
            assert(instruction_texts_fit(
                lines_before,
                text_before,
                n0,
                line_view(cur_before),
                format,
                Seq::new(0, |j: int| (*range, code@)),
            ));
            lemma_instruction_text_step(
                lines_before,
                text_before,
                line_view(cur_before),
                lines_mid,
                text_mid,
                line_view(cur_mid),
                line,
                res.text.lines@.last(),
                n0,
                line_view(cur_before),
                format,
                *range,
                code@,
                code,
                pos,
                spans_g,
            );
        }
        assert(shapes(res.lines@.skip(n0)) == block_lines(function, static_addr, prev_static_addr, lo)) by {
            assert(res.lines@.take(lines_mid.len() as int) =~= lines_mid);
            lemma_shapes_split(lines_mid, res.lines@, n0);
            assert(res.lines@.skip(lines_mid.len() as int) =~= seq![line]);
            assert(shapes(res.lines@.skip(lines_mid.len() as int)) =~= seq![
                plain_line(DisassemblyLineKind::Instruction, static_addr, subfunction_level, cur_subfunction, None),
            ]);
            match function {
                Some((f, sy)) => {
                    lemma_records_window(sy.lines@, lo, static_addr as int, c_before as int, *line_cursor as int, sy.lines@.len() as int);
                    assert(sy.lines@.take(sy.lines@.len() as int) =~= sy.lines@);
                },
                None => {
                    assert(lines_mid.skip(n0) =~= Seq::<DisassemblyLineInfo>::empty());
                },
            }
        }
    }
    d.len
}

/// Lists the instructions of `code`, which sits at the addresses of `range` from its start on:
/// for each, the lines for inlined calls entered and source lines passed (with symbols), then
/// the instruction's own line, whose text `format` gives.
#[verifier::rlimit(40)]
fn list_range<F>(
    res: &mut Disassembly,
    function: Option<(usize, &Symbols)>,
    subfunc_idxs: &mut Vec<Range<usize>>,
    seen: &mut std::collections::HashSet<u32>,
    code: &[u8],
    range: &Range<usize>,
    palette: &Palette,
    format: &F,
) where F: Fn(&[u8], usize, &Range<usize>) -> Vec<Span>
    requires
        forall|c: &[u8], p: usize, q: &Range<usize>| format.requires((c, p, q)),
        old(res).text.lines@.len() == old(res).lines@.len(),
        lines_sorted(old(res).lines@),
        old(res).lines@.len() > 0 ==> old(res).lines@.last().static_addr <= range.start,
        range.start + code@.len() <= usize::MAX + 1,
        annotations_fit(old(res).lines@, subs_of(function)),
        instructions_alone(old(res).lines@),
        instructions_before(old(res).lines@, range.start as int),
        no_error_lines(old(res).lines@),
        statements_fit(old(res).lines@, function),
        leaves_fit(old(res).lines@, function),
        leaf_above(old(res).lines@, old(res).lines@.len() as int) is None,
        function matches Some((f, s)) ==> {
            &&& symbols_fit(*s, f as int)
            &&& pointers_fit(
                old(subfunc_idxs)@,
                s.functions@[f as int].subfunction_levels@,
                shard_subfunctions(*s, f as int),
                range.start as int,
            )
            &&& seen_fits(old(seen)@, old(res).lines@, shard_subfunctions(*s, f as int), function_levels(*s, f as int))
        },
    ensures
        final(res).text.lines@.len() == final(res).lines@.len(),
        final(res).text.lines@.take(old(res).text.lines@.len() as int) == old(res).text.lines@,
        final(res).error == old(res).error,
        final(res).indent_width == old(res).indent_width,
        final(res).symbols_shard == old(res).symbols_shard,
        final(res).widest_line == old(res).widest_line,
        final(res).max_abs_relative_addr == old(res).max_abs_relative_addr,
        lines_sorted(final(res).lines@),
        old(res).lines@.len() <= final(res).lines@.len(),
        final(res).lines@.take(old(res).lines@.len() as int) == old(res).lines@,
        forall|i: int|
            old(res).lines@.len() <= i < final(res).lines@.len() ==> range.start
                <= #[trigger] final(res).lines@[i].static_addr < range.start + code@.len(),
        instruction_views(final(res).lines@) == instruction_views(old(res).lines@) + range_stream(
            code@,
            *range,
        ),
        annotations_fit(final(res).lines@, subs_of(function)),
        instructions_alone(final(res).lines@),
        instructions_before(final(res).lines@, range.start + code@.len()),
        no_error_lines(final(res).lines@),
        statements_fit(final(res).lines@, function),
        leaves_fit(final(res).lines@, function),
        texts_fit(
            final(res).lines@,
            final(res).text.lines@,
            old(res).lines@.len() as int,
            line_view(old(res).text.current@),
            function,
            *palette,
        ),
        final(res).lines@.len() == old(res).lines@.len() ==> final(res).text.current@ == old(res).text.current@,
        final(res).lines@.len() > old(res).lines@.len() ==> final(res).text.current@.len() == 0,
        function matches Some((f, s)) ==> {
            &&& pointers_fit(
                final(subfunc_idxs)@,
                s.functions@[f as int].subfunction_levels@,
                shard_subfunctions(*s, f as int),
                range.start + code@.len(),
            )
            &&& seen_fits(final(seen)@, final(res).lines@, shard_subfunctions(*s, f as int), function_levels(*s, f as int))
        },
        shapes(final(res).lines@.skip(old(res).lines@.len() as int)) == range_lines(
            code@,
            0,
            range.start,
            0,
            range.start as int,
            function,
        ),
        instruction_texts_fit(
            final(res).lines@,
            final(res).text.lines@,
            old(res).lines@.len() as int,
            line_view(old(res).text.current@),
            format,
            Seq::new((final(res).lines@.len() - old(res).lines@.len()) as nat, |j: int| (*range, code@)),
        ),
{
    let ghost n0 = res.lines@.len();
    let ghost text0 = res.text.lines@;
    let ghost cur0 = res.text.current@;
    let ghost carry0 = line_view(res.text.current@);
    let ghost views0 = instruction_views(res.lines@);
    let mut pos: usize = 0;
    let mut ip: u64 = range.start as u64;
    let mut prev_static_addr: usize = 0;
    let mut cur_leaf_line: Option<LineInfo> = None;
    let mut line_cursor: usize = match function {
        Some((_, symbols)) => symbols.first_line_at_or_after(range.start),
        None => 0,
    };
    let ghost mut lo: int = range.start as int;
    let ghost whole = range_lines(code@, 0, range.start, 0, range.start as int, function);
    proof {
        assert(res.lines@.skip(n0 as int) =~= Seq::<DisassemblyLineInfo>::empty());
        assert(shapes(res.lines@.skip(n0 as int)) + whole =~= whole);
        assert(res.lines@.take(n0 as int) =~= res.lines@);
        assert(res.text.lines@.take(n0 as int) =~= res.text.lines@);
        assert(instruction_texts_fit(
            res.lines@,
            res.text.lines@,
            n0 as int,
            carry0,
            format,
            Seq::new((res.lines@.len() - n0) as nat, |j: int| (*range, code@)),
        ));
    }
    while pos < code.len()
        invariant
            forall|c: &[u8], p: usize, q: &Range<usize>| format.requires((c, p, q)),
            pos <= code@.len(),
            range.start + code@.len() <= usize::MAX + 1,
            pos < code@.len() ==> ip == range.start + pos,
            res.text.lines@.len() == res.lines@.len(),
            n0 == text0.len(),
            res.text.lines@.take(n0 as int) == text0,
            res.error == old(res).error,
            res.indent_width == old(res).indent_width,
            res.symbols_shard == old(res).symbols_shard,
            res.widest_line == old(res).widest_line,
            res.max_abs_relative_addr == old(res).max_abs_relative_addr,
            lines_sorted(res.lines@),
            n0 <= res.lines@.len(),
            res.lines@.take(n0 as int) == old(res).lines@,
            res.lines@.len() > 0 ==> res.lines@.last().static_addr <= range.start + pos,
            forall|i: int|
                n0 <= i < res.lines@.len() ==> range.start <= #[trigger] res.lines@[i].static_addr
                    < range.start + code@.len(),
            views0 == instruction_views(old(res).lines@),
            instruction_views(res.lines@) + listing_stream(code@, pos as int, range.start) == views0
                + range_stream(code@, *range),
            annotations_fit(res.lines@, subs_of(function)),
            instructions_alone(res.lines@),
            instructions_before(res.lines@, range.start + pos),
            no_error_lines(res.lines@),
            statements_fit(res.lines@, function),
            leaves_fit(res.lines@, function),
            cur_leaf_line == leaf_above(res.lines@, res.lines@.len() as int),
            carry0 == line_view(cur0),
            cur0 == old(res).text.current@,
            texts_fit(res.lines@, res.text.lines@, n0 as int, carry0, function, *palette),
            res.lines@.len() == n0 ==> res.text.current@ == cur0,
            res.lines@.len() > n0 ==> res.text.current@.len() == 0,
            pos == 0 ==> prev_static_addr == 0 && lo == range.start,
            pos > 0 ==> prev_static_addr < range.start + pos && lo == prev_static_addr + 1,
            whole == range_lines(code@, 0, range.start, 0, range.start as int, function),
            shapes(res.lines@.skip(n0 as int)) + range_lines(code@, pos as int, range.start, prev_static_addr, lo, function) == whole,
            instruction_texts_fit(
                res.lines@,
                res.text.lines@,
                n0 as int,
                carry0,
                format,
                Seq::new((res.lines@.len() - n0) as nat, |j: int| (*range, code@)),
            ),
            function matches Some((f, s)) ==> {
                &&& symbols_fit(*s, f as int)
                &&& pointers_fit(
                    subfunc_idxs@,
                    s.functions@[f as int].subfunction_levels@,
                    shard_subfunctions(*s, f as int),
                    range.start + pos,
                )
                &&& seen_fits(seen@, res.lines@, shard_subfunctions(*s, f as int), function_levels(*s, f as int))
                &&& line_cursor <= s.lines@.len()
                &&& forall|j: int| 0 <= j < line_cursor ==> #[trigger] s.lines@[j].addr < lo
                &&& forall|j: int| line_cursor <= j < s.lines@.len() ==> #[trigger] s.lines@[j].addr >= lo
            },
        decreases code@.len() - pos,
    {
        let ghost lines_before = res.lines@;
        let ghost text_before = res.text.lines@;
        let ghost cur_before = res.text.current@;
        let static_addr = range.start + pos;
        let len = list_instruction(
            res,
            function,
            subfunc_idxs,
            seen,
            &mut line_cursor,
            &mut cur_leaf_line,
            code,
            pos,
            ip,
            prev_static_addr,
            Ghost(lo),
            range,
            palette,
            format,
        );
        proof {
            let f = x86_64_decode(code@.skip(pos as int), ip);
            let rest = listing_stream(code@, pos + len, range.start);
            assert(listing_stream(code@, pos as int, range.start) == seq![instr_view(f, ip, range.start)] + rest);
            assert(instruction_views(res.lines@) + rest =~= instruction_views(lines_before) + listing_stream(
                code@,
                pos as int,
                range.start,
            ));
            assert(res.lines@.take(n0 as int) =~= lines_before.take(n0 as int));
            assert(res.text.lines@.take(n0 as int) =~= text_before.take(n0 as int));
            assert forall|i: int| n0 <= i < res.lines@.len() implies range.start
                <= #[trigger] res.lines@[i].static_addr < range.start + code@.len() by {
                if i < lines_before.len() {
                    assert(res.lines@[i] == res.lines@.take(lines_before.len() as int)[i]);
                }
            }
            if lines_before.len() > n0 {
                assert(line_view(cur_before) =~= Seq::<(Seq<char>, Style)>::empty());
            }
            lemma_texts_chain(
                lines_before,
                text_before,
                line_view(cur_before),
                res.lines@,
                res.text.lines@,
                n0 as int,
                carry0,
                function,
                *palette,
            );
            lemma_instruction_texts_chain(
                lines_before,
                text_before,
                line_view(cur_before),
                res.lines@,
                res.text.lines@,
                n0 as int,
                carry0,
                format,
                Seq::new((lines_before.len() - n0) as nat, |j: int| (*range, code@)),
                Seq::new((res.lines@.len() - lines_before.len()) as nat, |j: int| (*range, code@)),
            );
            assert(Seq::new((lines_before.len() - n0) as nat, |j: int| (*range, code@)) + Seq::new(
                (res.lines@.len() - lines_before.len()) as nat,
                |j: int| (*range, code@),
            ) =~= Seq::new((res.lines@.len() - n0) as nat, |j: int| (*range, code@)));
            lemma_shapes_split(lines_before, res.lines@, n0 as int);
            lemma_range_step(
                shapes(lines_before.skip(n0 as int)),
                block_lines(function, static_addr, prev_static_addr, lo),
                code@,
                pos as int,
                range.start,
                prev_static_addr,
                lo,
                function,
                whole,
            );
            match function {
                Some((f, sy)) => {
                    lemma_pointers_weaken(
                        subfunc_idxs@,
                        sy.functions@[f as int].subfunction_levels@,
                        shard_subfunctions(*sy, f as int),
                        static_addr as int,
                        static_addr + len,
                    );
                },
                None => {},
            }
            lo = static_addr + 1;
        }
        prev_static_addr = static_addr;
        pos = pos + len;
        ip = advance_ip(ip, len);
    }
    proof {
        assert(instruction_views(res.lines@) + listing_stream(code@, pos as int, range.start)
            =~= instruction_views(res.lines@));
        assert(shapes(res.lines@.skip(n0 as int)) + range_lines(code@, pos as int, range.start, prev_static_addr, lo, function)
            =~= shapes(res.lines@.skip(n0 as int)));
    }
}

/// The message of the error that range `r` ends a listing with.
pub open spec fn range_error_message(r: Range<usize>, kind: ErrorKind) -> Seq<char> {
    match kind {
        ErrorKind::Sanity => digits(range_len(r) / 1_000_000, 10) + " MB to disassemble, suspiciously much"@,
        ErrorKind::Dwarf => "function address range out of bounds of executable: "@ + digits(r.start as nat, 16)
            + "-"@ + digits(r.end as nat, 16),
    }
}

/// The bytes of `memory_code`, if given.
pub open spec fn memory_view(memory_code: Option<&[u8]>) -> Option<Seq<u8>> {
    match memory_code {
        Some(c) => Some(c@),
        None => None,
    }
}

/// The symbols of `function`, if given.
pub open spec fn symbols_view(function: Option<(usize, &Symbols)>) -> Option<Symbols> {
    match function {
        Some((_, s)) => Some(*s),
        None => None,
    }
}

/// The lines of `res` after its `nintro` intro lines, what its instruction lines show, and how it
/// ended, are what listing the ranges of `cleaned` in order gives: all of them, or those before
/// the first one that cannot be listed, which then ends the listing with its error.
pub open spec fn listing_follows<F: Fn(&[u8], usize, &Range<usize>) -> Vec<Span>>(
    res: Disassembly,
    cleaned: Seq<Range<usize>>,
    mc: Option<Seq<u8>>,
    syms: Option<Symbols>,
    function: Option<(usize, &Symbols)>,
    nintro: int,
    carry: Seq<(Seq<char>, Style)>,
    format: &F,
) -> bool {
    match res.error {
        None => {
            &&& no_error_lines(res.lines@)
            &&& forall|j: int| 0 <= j < cleaned.len() ==> #[trigger] range_error(mc, syms, cleaned[j]) is None
            &&& instruction_views(res.lines@) == ranges_stream(mc, syms, cleaned)
            &&& shapes(res.lines@.skip(nintro)) == listing_lines(mc, function, cleaned)
            &&& instruction_texts_fit(res.lines@, res.text.lines@, nintro, carry, format, listing_owners(mc, function, cleaned))
        },
        Some(e) => exists|k: int|
            0 <= k < cleaned.len() && {
                &&& forall|j: int| 0 <= j < k ==> #[trigger] range_error(mc, syms, cleaned[j]) is None
                &&& range_error(mc, syms, cleaned[k]) == Some(e.kind)
                &&& e.message@ == range_error_message(cleaned[k], e.kind)
                &&& instruction_views(res.lines@) == ranges_stream(mc, syms, cleaned.take(k))
                &&& res.lines@.len() > 0
                &&& res.lines@.last() == error_line()
                &&& shapes(res.lines@.skip(nintro).drop_last()) == listing_lines(mc, function, cleaned.take(k))
                &&& instruction_texts_fit(
                    res.lines@,
                    res.text.lines@,
                    nintro,
                    carry,
                    format,
                    listing_owners(mc, function, cleaned.take(k)),
                )
            },
    }
}

/// `res` is a listing of `addr_ranges` (of `memory_code`, or else of the executable of
/// `function`'s symbols) after `intro`, styled by `palette`, with instruction texts by `format`.
pub open spec fn is_listing<F: Fn(&[u8], usize, &Range<usize>) -> Vec<Span>>(
    res: Disassembly,
    function: Option<(usize, &Symbols)>,
    addr_ranges: Seq<Range<usize>>,
    memory_code: Option<&[u8]>,
    intro: StyledText,
    palette: Palette,
    format: &F,
) -> bool {
    &&& res.text.lines@.len() == res.lines@.len()
    &&& lines_sorted(res.lines@)
    &&& instructions_alone(res.lines@)
    &&& intro.lines@.len() <= res.lines@.len()
    &&& res.text.lines@.take(intro.lines@.len() as int) == intro.lines@
    &&& forall|i: int| 0 <= i < intro.lines@.len() ==> #[trigger] res.lines@[i] == intro_line()
    &&& res.indent_width == palette.tree_indent.0@.len()
    &&& res.symbols_shard == match function {
        Some((f, s)) => Some(s.functions@[f as int].shard_idx),
        None => None,
    }
    &&& annotations_fit(res.lines@, subs_of(function))
    &&& statements_fit(res.lines@, function)
    &&& leaves_fit(res.lines@, function)
    &&& texts_fit(res.lines@, res.text.lines@, intro.lines@.len() as int, line_view(intro.current@), function, palette)
    &&& res.lines@.len() == intro.lines@.len() ==> res.text.current@ == intro.current@
    &&& res.lines@.len() > intro.lines@.len() ==> res.text.current@.len() == 0
    &&& (res.error matches Some(e) ==> line_view(res.text.lines@.last()@) == (if res.lines@.len() - 1 == intro.lines@.len() {
        line_view(intro.current@)
    } else {
        Seq::empty()
    }) + seq![(e.message@, palette.error)])
    &&& forall|i: int| 0 <= i < res.lines@.len() ==> line_extent(res, i) <= res.widest_line
    &&& (res.widest_line == 0 || exists|i: int| 0 <= i < res.lines@.len() && res.widest_line == line_extent(res, i))
    &&& forall|i: int|
        0 <= i < res.lines@.len() ==> abs_isize(#[trigger] res.lines@[i].relative_addr) <= res.max_abs_relative_addr
    &&& (res.max_abs_relative_addr == 0 || exists|i: int|
        0 <= i < res.lines@.len() && res.max_abs_relative_addr == abs_isize(res.lines@[i].relative_addr))
    &&& exists|cleaned: Seq<Range<usize>>|
        #![trigger is_cleanup_of(cleaned, addr_ranges)]
        is_cleanup_of(cleaned, addr_ranges) && listing_follows(
            res,
            cleaned,
            memory_view(memory_code),
            symbols_view(function),
            function,
            intro.lines@.len() as int,
            line_view(intro.current@),
            format,
        )
}

/// A copy of `levels`.
fn copy_levels(levels: &Vec<Range<usize>>) -> (r: Vec<Range<usize>>)
    ensures
        r@ == levels@,
{
    let mut r: Vec<Range<usize>> = Vec::new();
    let mut i: usize = 0;
    while i < levels.len()
        invariant
            i <= levels@.len(),
            r@ == levels@.take(i as int),
        decreases levels@.len() - i,
    {
        r.push(Range { start: levels[i].start, end: levels[i].end });
        proof {
            assert(r@ =~= levels@.take(i + 1));
        }
        i = i + 1;
    }
    proof {
        assert(levels@.take(i as int) =~= levels@);
    }
    r
}

/// An error line at the end keeps what came before it.
proof fn lemma_error_ends(
    before: Disassembly,
    res: Disassembly,
    function: Option<(usize, &Symbols)>,
    nintro: usize,
    intro_lines: Seq<Vec<Span>>,
)
    requires
        before.text.lines@.len() == before.lines@.len(),
        nintro <= before.lines@.len(),
        before.text.lines@.take(nintro as int) == intro_lines,
        forall|i: int| 0 <= i < nintro ==> #[trigger] before.lines@[i] == intro_line(),
        lines_sorted(before.lines@),
        annotations_fit(before.lines@, subs_of(function)),
        statements_fit(before.lines@, function),
        leaves_fit(before.lines@, function),
        res.lines@ == before.lines@.push(error_line()),
        res.text.lines@.len() == before.text.lines@.len() + 1,
        res.text.lines@.drop_last() == before.text.lines@,
    ensures
        res.text.lines@.take(nintro as int) == intro_lines,
        forall|i: int| 0 <= i < nintro ==> #[trigger] res.lines@[i] == intro_line(),
        lines_sorted(res.lines@),
        annotations_fit(res.lines@, subs_of(function)),
        statements_fit(res.lines@, function),
        leaves_fit(res.lines@, function),
        instruction_views(res.lines@) == instruction_views(before.lines@),
        res.lines@.last() == error_line(),
{
    assert(res.lines@ =~= before.lines@.push(error_line()));
    lemma_leaves_push(before.lines@, error_line(), function);
    assert forall|i: int| 0 <= i < res.lines@.len() implies line_statement_ok(#[trigger] res.lines@[i], function) by {
        if i < before.lines@.len() {
            assert(res.lines@[i] == before.lines@[i]);
        }
    }
    assert(res.text.lines@.take(nintro as int) =~= before.text.lines@.take(nintro as int));
    assert forall|i: int| 0 <= i < nintro implies #[trigger] res.lines@[i] == intro_line() by {
        assert(res.lines@[i] == before.lines@[i]);
    }
    assert forall|i: int, j: int| 0 <= i <= j < res.lines@.len() implies res.lines@[i].static_addr
        <= res.lines@[j].static_addr by {
        if j < before.lines@.len() {
            assert(res.lines@[i] == before.lines@[i]);
            assert(res.lines@[j] == before.lines@[j]);
        }
    }
    assert(res.lines@.drop_last() =~= before.lines@);
    lemma_plain_push(before.lines@, res.lines@, subs_of(function));
}

/// Listing one more range adds its separator (after the first) and its lines.
proof fn lemma_listing_lines_step(mc: Option<Seq<u8>>, function: Option<(usize, &Symbols)>, cleaned: Seq<Range<usize>>, k: int)
    requires
        0 <= k < cleaned.len(),
    ensures
        listing_lines(mc, function, cleaned.take(k + 1)) == listing_lines(mc, function, cleaned.take(k)) + (if k > 0 {
            seq![separator_line(cleaned[k])]
        } else {
            Seq::empty()
        }) + range_lines(
            range_code(mc, symbols_view(function), cleaned[k]).unwrap(),
            0,
            cleaned[k].start,
            0,
            cleaned[k].start as int,
            function,
        ),
{
    assert(cleaned.take(k + 1).drop_last() =~= cleaned.take(k));
    assert(cleaned.take(k + 1).last() == cleaned[k]);
}

/// Listing one more range adds owners for its separator (after the first) and its lines.
proof fn lemma_listing_owners_step(mc: Option<Seq<u8>>, function: Option<(usize, &Symbols)>, cleaned: Seq<Range<usize>>, k: int)
    requires
        0 <= k < cleaned.len(),
    ensures
        listing_owners(mc, function, cleaned.take(k + 1)) == listing_owners(mc, function, cleaned.take(k)) + Seq::new(
            ((if k > 0 {
                1int
            } else {
                0int
            }) + range_lines(
                range_code(mc, symbols_view(function), cleaned[k]).unwrap(),
                0,
                cleaned[k].start,
                0,
                cleaned[k].start as int,
                function,
            ).len()) as nat,
            |j: int| (cleaned[k], range_code(mc, symbols_view(function), cleaned[k]).unwrap()),
        ),
{
    assert(cleaned.take(k + 1).drop_last() =~= cleaned.take(k));
    assert(cleaned.take(k + 1).last() == cleaned[k]);
}

/// Listing one more range adds its instructions.
proof fn lemma_ranges_stream_step(mc: Option<Seq<u8>>, syms: Option<Symbols>, cleaned: Seq<Range<usize>>, k: int)
    requires
        0 <= k < cleaned.len(),
    ensures
        ranges_stream(mc, syms, cleaned.take(k + 1)) == ranges_stream(mc, syms, cleaned.take(k)) + range_stream(
            range_code(mc, syms, cleaned[k]).unwrap(),
            cleaned[k],
        ),
{
    assert(cleaned.take(k + 1).drop_last() =~= cleaned.take(k));
}

/// Disassembles `addr_ranges`, after ordering and merging them: the code of each comes from
/// `memory_code` when given, or else from the executable of `function`'s symbols, whose source
/// lines and inlined calls are then interleaved with the instructions. The listing begins with
/// `intro`; ranges after the first are parted by a separator line; `format` gives each
/// instruction's text. A range longer than 100 000 000 addresses, or whose code the executable
/// does not hold, ends the listing with an error.
#[verifier::rlimit(100)]
#[verifier::spinoff_prover]
pub fn disassemble_addr_ranges<F>(
    function: Option<(usize, &Symbols)>,
    addr_ranges: Vec<Range<usize>>,
    memory_code: Option<&[u8]>,
    intro: StyledText,
    palette: &Palette,
    format: &F,
) -> (res: Disassembly) where F: Fn(&[u8], usize, &Range<usize>) -> Vec<Span>
    requires
        forall|c: &[u8], p: usize, q: &Range<usize>| format.requires((c, p, q)),
        function is None && memory_code is None ==> forall|cl: Seq<Range<usize>>|
            #[trigger] is_cleanup_of(cl, addr_ranges@) ==> cl.len() == 0 || range_len(cl[0]) > max_range_len(),
        memory_code matches Some(c) ==> forall|cl: Seq<Range<usize>>|
            #[trigger] is_cleanup_of(cl, addr_ranges@) ==> cl.len() <= 1 && (cl.len() == 1 ==> cl[0].start + c@.len()
                <= usize::MAX + 1),
        function matches Some((f, s)) ==> symbols_fit(*s, f as int),
    ensures
        is_listing(res, function, addr_ranges@, memory_code, intro, *palette, format),
{
    let ghost mc = memory_view(memory_code);
    let ghost syms = symbols_view(function);
    let ghost input = addr_ranges@;
    let ghost intro_lines = intro.lines@;
    let ghost intro_g = intro;
    let mut addr_ranges = addr_ranges;
    clean_up_ranges(&mut addr_ranges);
    let ghost cleaned = addr_ranges@;
    proof {
        lemma_cleanup_len(cleaned, input);
        assert(is_cleanup_of(cleaned, input));
    }
    let indent_width = palette.tree_indent.0.as_str().unicode_len();
    let mut res = Disassembly {
        text: intro,
        lines: Vec::new(),
        error: None,
        max_abs_relative_addr: 0,
        indent_width,
        widest_line: 0,
        symbols_shard: None,
    };
    let mut subfunc_idxs: Vec<Range<usize>> = Vec::new();
    let mut seen: std::collections::HashSet<u32> = std::collections::HashSet::new();
    while res.lines.len() < res.text.num_lines()
        invariant
            res.text.lines@ == intro_lines,
            res.text.current@ == intro_g.current@,
            res.lines@.len() <= intro_lines.len(),
            res.error is None,
            res.indent_width == palette.tree_indent.0@.len(),
            res.widest_line == 0,
            res.max_abs_relative_addr == 0,
            res.symbols_shard is None,
            forall|i: int| 0 <= i < res.lines@.len() ==> #[trigger] res.lines@[i] == intro_line(),
        decreases intro_lines.len() - res.lines@.len(),
    {
        res.lines.push(DisassemblyLineInfo { kind: DisassemblyLineKind::Intro, static_addr: 0, ..Default::default() });
    }
    if let Some((function_idx, symbols)) = function {
        let f = &symbols.functions[function_idx];
        res.symbols_shard = Some(f.shard_idx);
        subfunc_idxs = copy_levels(&f.subfunction_levels);
    }
    let nintro = res.lines.len();
    proof {
        assert(res.lines@.skip(nintro as int) =~= Seq::<DisassemblyLineInfo>::empty());
        assert(shapes(res.lines@.skip(nintro as int)) =~= Seq::<DisassemblyLineInfo>::empty());
        assert(listing_lines(mc, function, cleaned.take(0)) =~= Seq::<DisassemblyLineInfo>::empty());
        assert(listing_owners(mc, function, cleaned.take(0)) =~= Seq::<(Range<usize>, Seq<u8>)>::empty());
        match function {
            Some((f, sy)) => {
                let init = sy.functions@[f as int].subfunction_levels@;
                assert forall|k: int| 0 <= k < subfunc_idxs@.len() implies {
                    &&& init[k].start <= #[trigger] subfunc_idxs@[k].start <= subfunc_idxs@[k].end
                    &&& subfunc_idxs@[k].end == init[k].end
                    &&& forall|t: int| init[k].start <= t < subfunc_idxs@[k].start ==> #[trigger] shard_subfunctions(
                        *sy,
                        f as int,
                    )[t].addr_range.end <= 0
                } by {
                    assert(init[k].start <= init[k].end);
                }
                if cleaned.len() > 0 {
                    lemma_pointers_weaken(
                        subfunc_idxs@,
                        init,
                        shard_subfunctions(*sy, f as int),
                        0,
                        cleaned[0].start as int,
                    );
                }
            },
            None => {},
        }
        assert(res.text.lines@.take(nintro as int) =~= intro_lines);
        assert forall|i: int, j: int| 0 <= i <= j < res.lines@.len() implies res.lines@[i].static_addr
            <= res.lines@[j].static_addr by {
            assert(res.lines@[i] == intro_line());
            assert(res.lines@[j] == intro_line());
        }
        assert forall|i: int| 0 <= i < res.lines@.len() implies line_nesting_ok(#[trigger] res.lines@[i], subs_of(function)) by {
            assert(res.lines@[i] == intro_line());
        }
        lemma_intro_views(res.lines@);
        assert(cleaned.take(0) =~= Seq::<Range<usize>>::empty());
        assert forall|i: int| 0 <= i < res.lines@.len() implies #[trigger] res.lines@[i].kind
            != DisassemblyLineKind::Instruction && res.lines@[i].kind != DisassemblyLineKind::Error
            && line_statement_ok(res.lines@[i], function) by {
            assert(res.lines@[i] == intro_line());
        }
        assert forall|i: int| 0 <= i < res.lines@.len() implies #[trigger] line_leaf_ok(res.lines@, i, function) by {
            assert(res.lines@[i] == intro_line());
        }
        if res.lines@.len() > 0 {
            assert(res.lines@[res.lines@.len() - 1] == intro_line());
        }
        assert forall|id: u32| #[trigger] seen@.contains(id) == identity_named_before(
            res.lines@,
            res.lines@.len() as int,
            subs_of(function).unwrap(),
            function_levels(*function.unwrap().1, function.unwrap().0 as int),
            id,
        ) by {
            let levels = function_levels(*function.unwrap().1, function.unwrap().0 as int);
            if identity_named_before(res.lines@, res.lines@.len() as int, subs_of(function).unwrap(), levels, id) {
                let j = choose|j: int| 0 <= j < res.lines@.len() && #[trigger] names_identity(
                    res.lines@,
                    j,
                    subs_of(function).unwrap(),
                    levels,
                    id,
                );
                assert(res.lines@[j] == intro_line());
            }
        }
    }
    let n = addr_ranges.len();
    let mut range_idx: usize = 0;
    let mut failure: Option<Error> = None;
    while range_idx < n
        invariant_except_break
            failure is None,
        invariant
            forall|c: &[u8], p: usize, q: &Range<usize>| format.requires((c, p, q)),
            function is None && memory_code is None ==> cleaned.len() == 0 || range_len(cleaned[0]) > max_range_len(),
            memory_code matches Some(c) ==> cleaned.len() <= 1 && (cleaned.len() == 1 ==> cleaned[0].start + c@.len()
                <= usize::MAX + 1),
            function matches Some((f, s)) ==> symbols_fit(*s, f as int),
            mc == memory_view(memory_code),
            syms == symbols_view(function),
            is_cleanup_of(cleaned, input),
            separated(cleaned),
            cleaned.len() <= input.len(),
            n == cleaned.len(),
            addr_ranges@ == cleaned,
            range_idx <= n,
            range_idx == 0 ==> res.lines@.len() == nintro,
            res.text.lines@.len() == res.lines@.len(),
            nintro == intro_lines.len(),
            nintro <= res.lines@.len(),
            res.text.lines@.take(nintro as int) == intro_lines,
            forall|i: int| 0 <= i < nintro ==> #[trigger] res.lines@[i] == intro_line(),
            res.error is None,
            res.indent_width == palette.tree_indent.0@.len(),
            res.symbols_shard == match function {
                Some((f, s)) => Some(s.functions@[f as int].shard_idx),
                None => None,
            },
            res.widest_line == 0,
            res.max_abs_relative_addr == 0,
            lines_sorted(res.lines@),
            range_idx > 0 && memory_code is None && res.lines@.len() > 0 ==> res.lines@.last().static_addr
                <= cleaned[range_idx - 1].end,
            annotations_fit(res.lines@, subs_of(function)),
            instructions_alone(res.lines@),
            no_error_lines(res.lines@),
            statements_fit(res.lines@, function),
            leaves_fit(res.lines@, function),
            range_idx == 0 ==> leaf_above(res.lines@, res.lines@.len() as int) is None,
            intro_g.lines@ == intro_lines,
            texts_fit(res.lines@, res.text.lines@, nintro as int, line_view(intro_g.current@), function, *palette),
            res.lines@.len() == nintro ==> res.text.current@ == intro_g.current@,
            res.lines@.len() > nintro ==> res.text.current@.len() == 0,
            function matches Some((f, s)) ==> seen_fits(seen@, res.lines@, shard_subfunctions(*s, f as int), function_levels(*s, f as int)),
            shapes(res.lines@.skip(nintro as int)) == listing_lines(mc, function, cleaned.take(range_idx as int)),
            listing_owners(mc, function, cleaned.take(range_idx as int)).len() == res.lines@.len() - nintro,
            instruction_texts_fit(
                res.lines@,
                res.text.lines@,
                nintro as int,
                line_view(intro_g.current@),
                format,
                listing_owners(mc, function, cleaned.take(range_idx as int)),
            ),
            function matches Some((f, s)) ==> range_idx < n ==> pointers_fit(
                subfunc_idxs@,
                s.functions@[f as int].subfunction_levels@,
                shard_subfunctions(*s, f as int),
                cleaned[range_idx as int].start as int,
            ),
            forall|i: int|
                0 <= i < res.lines@.len() && #[trigger] res.lines@[i].kind == DisassemblyLineKind::Instruction
                    ==> range_idx > 0 && (memory_code is None ==> res.lines@[i].static_addr < cleaned[range_idx
                    - 1].end),
            instruction_views(res.lines@) == ranges_stream(mc, syms, cleaned.take(range_idx as int)),
            forall|j: int| 0 <= j < range_idx ==> #[trigger] range_error(mc, syms, cleaned[j]) is None,
        ensures
            failure matches Some(e) ==> {
                &&& range_idx < n
                &&& range_error(mc, syms, cleaned[range_idx as int]) == Some(e.kind)
                &&& e.message@ == range_error_message(cleaned[range_idx as int], e.kind)
            },
            failure is None ==> range_idx == n,
        decreases n - range_idx,
    {
        let range = Range { start: addr_ranges[range_idx].start, end: addr_ranges[range_idx].end };
        let len = if range.end > range.start { range.end - range.start } else { 0 };
        if len > 100_000_000 {
            let mut message = String::new();
            push_digits(&mut message, len / 1_000_000, 10);
            message.append(" MB to disassemble, suspiciously much");
            proof {
                assert(message@ == range_error_message(range, ErrorKind::Sanity));
            }
            failure = Some(Error { kind: ErrorKind::Sanity, message });
            break;
        }
        let code_found: Option<&[u8]> = match memory_code {
            Some(c) => Some(c),
            None => match function {
                Some((_, symbols)) => match symbols.executable.addr_range_to_offset_range(range.start, range.end) {
                    None => None,
                    Some((s, e)) => Some(&symbols.executable.data.as_slice()[s..e]),
                },
                None => None,
            },
        };
        let code = match code_found {
            None => {
                let mut message = String::from_str("function address range out of bounds of executable: ");
                push_digits(&mut message, range.start, 16);
                message.append("-");
                push_digits(&mut message, range.end, 16);
                proof {
                    assert(message@ =~= range_error_message(range, ErrorKind::Dwarf));
                }
                failure = Some(Error { kind: ErrorKind::Dwarf, message });
                break;
            },
            Some(c) => c,
        };
        assert(range_code(mc, syms, range) == Some(code@));
        proof {
            if memory_code is Some {
                assert(range_idx == 0);
            }
        }
        if range_idx != 0 {
            proof {
                assert(cleaned[range_idx - 1].end < cleaned[range_idx as int].start);
            }
            let ghost before = res.lines@;
            let ghost tbefore = res.text.lines@;
            let ghost cbefore = res.text.current@;
            res.text.push_str("──────────", palette.disas_default);
            res.text.close_line();
            res.lines.push(DisassemblyLineInfo { kind: DisassemblyLineKind::Separator, static_addr: range.start, ..Default::default() });
            proof {
                assert(res.lines@.drop_last() =~= before);
                lemma_plain_push(before, res.lines@, subs_of(function));
                assert(res.lines@ =~= before.push(res.lines@.last()));
                lemma_leaves_push(before, res.lines@.last(), function);
                assert(res.lines@.take(before.len() as int) =~= before);
                assert(res.text.lines@.take(tbefore.len() as int) =~= tbefore);
                assert(res.lines@[before.len() as int] == res.lines@.last());
                assert(res.text.lines@[before.len() as int] == res.text.lines@.last());
                assert(line_view(res.text.lines@.last()@) =~= line_view(cbefore) + separator_text(*palette));
                assert(text_ok(res.lines@, res.text.lines@, before.len() as int, before.len() as int, line_view(cbefore), function, *palette));
                if before.len() > nintro {
                    assert(line_view(cbefore) =~= Seq::<(Seq<char>, Style)>::empty());
                }
                lemma_texts_chain(
                    before,
                    tbefore,
                    line_view(cbefore),
                    res.lines@,
                    res.text.lines@,
                    nintro as int,
                    line_view(intro_g.current@),
                    function,
                    *palette,
                );
                lemma_shapes_split(before, res.lines@, nintro as int);
                assert(shapes(res.lines@.skip(before.len() as int)) =~= seq![separator_line(range)]);
                assert(instruction_texts_fit(res.lines@, res.text.lines@, before.len() as int, line_view(cbefore), format, seq![(range, code@)]));
                lemma_instruction_texts_chain(
                    before,
                    tbefore,
                    line_view(cbefore),
                    res.lines@,
                    res.text.lines@,
                    nintro as int,
                    line_view(intro_g.current@),
                    format,
                    listing_owners(mc, function, cleaned.take(range_idx as int)),
                    seq![(range, code@)],
                );
                match function {
                    Some((f, sy)) => {
                        assert forall|id: u32| #[trigger] seen@.contains(id) == identity_named_before(
                            res.lines@,
                            res.lines@.len() as int,
                            shard_subfunctions(*sy, f as int),
                            function_levels(*sy, f as int),
                            id,
                        ) by {
                            lemma_named_unchanged(before, res.lines@, shard_subfunctions(*sy, f as int), function_levels(*sy, f as int), id);
                        }
                    },
                    None => {},
                }
                assert forall|i: int, j: int| 0 <= i <= j < res.lines@.len() implies res.lines@[i].static_addr
                    <= res.lines@[j].static_addr by {
                    if j < before.len() {
                        assert(res.lines@[i] == before[i]);
                        assert(res.lines@[j] == before[j]);
                    } else if i < before.len() {
                        assert(res.lines@[i] == before[i]);
                        assert(before[i].static_addr <= before.last().static_addr);
                    }
                }
                assert forall|i: int| 0 <= i < res.lines@.len() implies #[trigger] res.lines@[i].kind
                    != DisassemblyLineKind::Error && line_statement_ok(res.lines@[i], function) by {
                    if i < before.len() {
                        assert(res.lines@[i] == before[i]);
                    }
                }
                assert forall|i: int, j: int|
                    0 <= i < j < res.lines@.len() && #[trigger] res.lines@[i].kind == DisassemblyLineKind::Instruction
                        implies res.lines@[i].static_addr < #[trigger] res.lines@[j].static_addr by {
                    assert(res.lines@[i] == before[i]);
                    if j < before.len() {
                        assert(res.lines@[j] == before[j]);
                    }
                }
                assert(res.text.lines@.take(nintro as int) =~= tbefore.take(nintro as int));
            }
        }
        proof {
            assert forall|i: int|
                0 <= i < res.lines@.len() && #[trigger] res.lines@[i].kind == DisassemblyLineKind::Instruction
                    implies res.lines@[i].static_addr < range.start by {
                if range_idx == 0 {
                } else {
                    assert(cleaned[range_idx - 1].end < cleaned[range_idx as int].start);
                }
            }
        }
        let ghost before = res.lines@;
        let ghost tbefore = res.text.lines@;
        let ghost cbefore = res.text.current@;
        let ghost owners_cur = listing_owners(mc, function, cleaned.take(range_idx as int)) + if range_idx > 0 {
            seq![(range, code@)]
        } else {
            Seq::empty()
        };
        proof {
            if range_idx == 0 {
                assert(owners_cur =~= listing_owners(mc, function, cleaned.take(range_idx as int)));
            }
            assert(instruction_texts_fit(
                res.lines@,
                res.text.lines@,
                nintro as int,
                line_view(intro_g.current@),
                format,
                owners_cur,
            ));
            assert(owners_cur.len() == res.lines@.len() - nintro);
            assert(shapes(res.lines@.skip(nintro as int)) == listing_lines(mc, function, cleaned.take(range_idx as int)) + (
            if range_idx > 0 {
                seq![separator_line(range)]
            } else {
                Seq::empty()
            }));
        }
        list_range(&mut res, function, &mut subfunc_idxs, &mut seen, code, &range, palette, format);
        proof {
            lemma_shapes_split(before, res.lines@, nintro as int);
            lemma_listing_lines_step(mc, function, cleaned, range_idx as int);
            lemma_listing_owners_step(mc, function, cleaned, range_idx as int);
            if before.len() > nintro {
                assert(line_view(cbefore) =~= Seq::<(Seq<char>, Style)>::empty());
            }
            let m = (res.lines@.len() - before.len()) as nat;
            assert(shapes(res.lines@.skip(before.len() as int)).len() == m);
            lemma_instruction_texts_chain(
                before,
                tbefore,
                line_view(cbefore),
                res.lines@,
                res.text.lines@,
                nintro as int,
                line_view(intro_g.current@),
                format,
                owners_cur,
                Seq::new(m, |j: int| (range, code@)),
            );
            assert(owners_cur + Seq::new(m, |j: int| (range, code@)) =~= listing_owners(mc, function, cleaned.take(range_idx + 1)));
            assert(shapes(res.lines@.skip(nintro as int)) =~= listing_lines(mc, function, cleaned.take(range_idx + 1)));
            match function {
                Some((f, sy)) => {
                    if range_idx + 1 < n {
                        assert(memory_code is None);
                        assert(code@.len() == range.end - range.start);
                        assert(cleaned[range_idx as int].end < cleaned[range_idx + 1].start);
                        lemma_pointers_weaken(
                            subfunc_idxs@,
                            sy.functions@[f as int].subfunction_levels@,
                            shard_subfunctions(*sy, f as int),
                            range.start + code@.len(),
                            cleaned[range_idx + 1].start as int,
                        );
                    }
                },
                None => {},
            }
            if before.len() > nintro {
                assert(line_view(cbefore) =~= Seq::<(Seq<char>, Style)>::empty());
            }
            lemma_texts_chain(
                before,
                tbefore,
                line_view(cbefore),
                res.lines@,
                res.text.lines@,
                nintro as int,
                line_view(intro_g.current@),
                function,
                *palette,
            );
            lemma_ranges_stream_step(mc, syms, cleaned, range_idx as int);
            assert(res.lines@.take(nintro as int) =~= before.take(nintro as int));
            assert(res.text.lines@.take(nintro as int) =~= tbefore.take(nintro as int));
            assert forall|i: int| 0 <= i < nintro implies #[trigger] res.lines@[i] == intro_line() by {
                assert(res.lines@.take(before.len() as int)[i] == res.lines@[i]);
            }
            if memory_code is None && res.lines@.len() > 0 {
                if res.lines@.len() > before.len() {
                    assert(res.lines@.last().static_addr < range.start + code@.len());
                } else {
                    assert(res.lines@ =~= before);
                }
            }
            if memory_code is Some {
                assert(n == 1);
            }
            assert forall|i: int|
                0 <= i < res.lines@.len() && #[trigger] res.lines@[i].kind == DisassemblyLineKind::Instruction
                    implies range_idx + 1 > 0 && (memory_code is None ==> res.lines@[i].static_addr
                    < cleaned[range_idx as int].end) by {
                if memory_code is None {
                    assert(range.start + code@.len() == range.end);
                }
            }
        }
        range_idx = range_idx + 1;
    }
    if let Some(e) = failure {
        let ghost before = res;
        let ghost k = range_idx as int;
        let res = res.with_error(e, palette);
        proof {
            lemma_error_ends(before, res, function, nintro, intro_lines);
            assert(res.text.lines@ == before.text.lines@.push(res.text.lines@.last()));
            lemma_texts_push_free(
                before.lines@,
                before.text.lines@,
                error_line(),
                res.text.lines@.last(),
                nintro as int,
                line_view(intro_g.current@),
                function,
                *palette,
            );
            if before.lines@.len() > nintro {
                assert(line_view(before.text.current@) =~= Seq::<(Seq<char>, Style)>::empty());
            }
            assert(res.lines@.skip(nintro as int).drop_last() =~= before.lines@.skip(nintro as int));
            lemma_instruction_texts_push_other(
                before.lines@,
                before.text.lines@,
                error_line(),
                res.text.lines@.last(),
                nintro as int,
                line_view(intro_g.current@),
                format,
                listing_owners(mc, function, cleaned.take(range_idx as int)),
            );
            assert(listing_follows(res, cleaned, mc, syms, function, nintro as int, line_view(intro_g.current@), format));
        }
        return res;
    }
    proof {
        assert(cleaned.take(n as int) =~= cleaned);
    }
    let ghost before = res;
    let res = res.finish();
    proof {
        assert(listing_follows(res, cleaned, mc, syms, function, nintro as int, line_view(intro_g.current@), format));
    }
    res
}

/// Disassembles function `function_idx` of `symbols`, over its address ranges
/// `static_addr_ranges`, reading the code from the executable and interleaving source lines and
/// inlined calls; `format` gives each instruction's text.
pub fn disassemble_function<F>(
    function_idx: usize,
    static_addr_ranges: Vec<Range<usize>>,
    symbols: &Symbols,
    intro: StyledText,
    palette: &Palette,
    format: &F,
) -> (res: Disassembly) where F: Fn(&[u8], usize, &Range<usize>) -> Vec<Span>
    requires
        forall|c: &[u8], p: usize, q: &Range<usize>| format.requires((c, p, q)),
        symbols_fit(*symbols, function_idx as int),
    ensures
        is_listing(res, Some((function_idx, symbols)), static_addr_ranges@, None, intro, *palette, format),
{
    disassemble_addr_ranges(Some((function_idx, symbols)), static_addr_ranges, None, intro, palette, format)
}

/// Disassembles `code`, which sits at the addresses of `range` from its start on; `format`
/// gives each instruction's text.
pub fn disassemble_memory<F>(
    range: Range<usize>,
    code: &[u8],
    intro: StyledText,
    palette: &Palette,
    format: &F,
) -> (res: Disassembly) where F: Fn(&[u8], usize, &Range<usize>) -> Vec<Span>
    requires
        forall|c: &[u8], p: usize, q: &Range<usize>| format.requires((c, p, q)),
        range.start + code@.len() <= usize::MAX + 1,
    ensures
        is_listing(res, None, seq![range], Some(code), intro, *palette, format),
{
    let ranges = vec![range];
    assert(ranges@ == seq![range]);
    proof {
        assert forall|cl: Seq<Range<usize>>| #[trigger] is_cleanup_of(cl, ranges@) implies cl.len() <= 1 && (cl.len()
            == 1 ==> cl[0].start + code@.len() <= usize::MAX + 1) by {
            lemma_cleanup_single(cl, ranges@);
        }
    }
    disassemble_addr_ranges(None, ranges, Some(code), intro, palette, format)
}

/// Looking up the address of an instruction line of a listing finds that line: the listing
/// splits at that address right after it, and nowhere else.
pub proof fn lemma_instruction_lines_found(lines: Seq<DisassemblyLineInfo>, i: int)
    requires
        lines_sorted(lines),
        instructions_alone(lines),
        0 <= i < lines.len(),
        lines[i].kind == DisassemblyLineKind::Instruction,
    ensures
        splits_at(lines, lines[i].static_addr, i + 1),
        forall|p: int| splits_at(lines, lines[i].static_addr, p) ==> p == i + 1,
{
    let x = lines[i].static_addr;
    assert forall|k: int| i + 1 <= k < lines.len() implies lines[k].static_addr > x by {
        assert(lines[i].kind == DisassemblyLineKind::Instruction);
        assert(lines[i].static_addr < lines[k].static_addr);
    }
    assert forall|p: int| splits_at(lines, x, p) implies p == i + 1 by {
        if p < i + 1 {
            assert(lines[i].static_addr > x);
        } else if p > i + 1 {
            assert(lines[i + 1].static_addr <= x);
            assert(lines[i].static_addr < lines[i + 1].static_addr);
        }
    }
}


/// The arrow and branch target of line `l` fit the way control leaves instruction `f`: a call,
/// direct or not, shows `→` and no target; a return shows `←` and no target; a direct branch
/// shows its target, below (`↓`) or above (`↑`) the instruction at `ip`; and only an instruction
/// that goes on to the next one shows no arrow at all.
pub open spec fn arrow_fits(l: DisassemblyLineInfo, f: InstrFacts, ip: u64) -> bool {
    &&& (f.flow == FlowKind::Call || f.flow == FlowKind::IndirectCall) ==> l.jump_indicator == '→'
        && l.jump_target is None
    &&& f.flow == FlowKind::Return ==> l.jump_indicator == '←' && l.jump_target is None
    &&& (f.flow == FlowKind::UnconditionalBranch || f.flow == FlowKind::ConditionalBranch) && f.first_operand
        != FirstOperand::Other ==> {
        &&& l.jump_target == Some(f.near_branch_target as usize)
        &&& (l.jump_indicator == '↓' <==> f.near_branch_target > ip)
        &&& (l.jump_indicator == '↑' <==> f.near_branch_target <= ip)
    }
    &&& (l.jump_indicator == ' ' <==> f.flow == FlowKind::Next)
}

/// An instruction line shows up among what the instruction lines show.
proof fn lemma_instruction_line_viewed(lines: Seq<DisassemblyLineInfo>, i: int)
    requires
        0 <= i < lines.len(),
        lines[i].kind == DisassemblyLineKind::Instruction,
    ensures
        instruction_views(lines).contains(line_instr_view(lines[i])),
    decreases lines.len(),
{
    let rest = instruction_views(lines.drop_last());
    if i == lines.len() - 1 {
        assert(instruction_views(lines) == rest.push(line_instr_view(lines[i])));
        assert(instruction_views(lines)[rest.len() as int] == line_instr_view(lines[i]));
    } else {
        assert(lines.drop_last()[i] == lines[i]);
        lemma_instruction_line_viewed(lines.drop_last(), i);
        let j = choose|j: int| 0 <= j < rest.len() && rest[j] == line_instr_view(lines[i]);
        if lines.last().kind == DisassemblyLineKind::Instruction {
            assert(instruction_views(lines)[j] == rest[j]);
        }
    }
}

/// What the listing of code from offset `pos` shows is what decoding gives at some offset from
/// `pos` on.
proof fn lemma_listing_stream_member(code: Seq<u8>, pos: int, range_start: usize, v: InstrView)
    requires
        listing_stream(code, pos, range_start).contains(v),
    ensures
        exists|p: int|
            pos <= p < code.len() && v == #[trigger] instr_view(
                x86_64_decode(code.skip(p), (range_start + p) as u64),
                (range_start + p) as u64,
                range_start,
            ),
    decreases code.len() - pos,
{
    let st = listing_stream(code, pos, range_start);
    let j = choose|j: int| 0 <= j < st.len() && st[j] == v;
    let ip = (range_start + pos) as u64;
    let f = x86_64_decode(code.skip(pos), ip);
    if j == 0 {
        assert(v == instr_view(f, ip, range_start));
    } else {
        let rest = listing_stream(code, pos + f.len, range_start);
        assert(st == seq![instr_view(f, ip, range_start)] + rest);
        assert(rest[j - 1] == v);
        lemma_listing_stream_member(code, pos + f.len, range_start, v);
    }
}

/// What the listing of several ranges shows comes from one of them.
proof fn lemma_ranges_stream_member(mc: Option<Seq<u8>>, syms: Option<Symbols>, ranges: Seq<Range<usize>>, v: InstrView)
    requires
        ranges_stream(mc, syms, ranges).contains(v),
    ensures
        exists|k: int|
            0 <= k < ranges.len() && #[trigger] range_stream(range_code(mc, syms, ranges[k]).unwrap(), ranges[k]).contains(v),
    decreases ranges.len(),
{
    let a = ranges_stream(mc, syms, ranges.drop_last());
    let b = range_stream(range_code(mc, syms, ranges.last()).unwrap(), ranges.last());
    assert(ranges_stream(mc, syms, ranges) == a + b);
    let j = choose|j: int| 0 <= j < a.len() + b.len() && (a + b)[j] == v;
    if j < a.len() {
        assert(a[j] == v);
        assert(a.contains(v));
        lemma_ranges_stream_member(mc, syms, ranges.drop_last(), v);
        let k = choose|k: int|
            0 <= k < ranges.drop_last().len() && #[trigger] range_stream(
                range_code(mc, syms, ranges.drop_last()[k]).unwrap(),
                ranges.drop_last()[k],
            ).contains(v);
        assert(ranges.drop_last()[k] == ranges[k]);
    } else {
        assert(b[j - a.len()] == v);
        assert(range_stream(range_code(mc, syms, ranges[ranges.len() - 1]).unwrap(), ranges[ranges.len() - 1]).contains(v));
    }
}

/// Every instruction line of a listing shows an instruction decoded from the code of one of the
/// listed ranges (`w.0[w.1]`, of the ordered and merged ranges `w.0`), at an offset `w.2` into
/// it, at that range's start plus the offset; and its arrow and branch target fit how control
/// leaves that instruction (`arrow_fits`): a call, direct or indirect, shows `→`, and only an
/// instruction that falls through shows no arrow.
pub proof fn lemma_listing_arrows<F: Fn(&[u8], usize, &Range<usize>) -> Vec<Span>>(
    res: Disassembly,
    function: Option<(usize, &Symbols)>,
    addr_ranges: Seq<Range<usize>>,
    memory_code: Option<&[u8]>,
    intro: StyledText,
    palette: Palette,
    format: &F,
    i: int,
) -> (w: (Seq<Range<usize>>, int, int))
    requires
        is_listing(res, function, addr_ranges, memory_code, intro, palette, format),
        0 <= i < res.lines@.len(),
        res.lines@[i].kind == DisassemblyLineKind::Instruction,
    ensures
        is_cleanup_of(w.0, addr_ranges),
        0 <= w.1 < w.0.len(),
        range_code(memory_view(memory_code), symbols_view(function), w.0[w.1]) is Some,
        0 <= w.2 < range_code(memory_view(memory_code), symbols_view(function), w.0[w.1]).unwrap().len(),
        res.lines@[i].static_addr == ((w.0[w.1].start + w.2) as u64) as usize,
        arrow_fits(
            res.lines@[i],
            x86_64_decode(
                range_code(memory_view(memory_code), symbols_view(function), w.0[w.1]).unwrap().skip(w.2),
                (w.0[w.1].start + w.2) as u64,
            ),
            (w.0[w.1].start + w.2) as u64,
        ),
{
    let mc = memory_view(memory_code);
    let syms = symbols_view(function);
    let cleaned = choose|cleaned: Seq<Range<usize>>|
        #![trigger is_cleanup_of(cleaned, addr_ranges)]
        is_cleanup_of(cleaned, addr_ranges) && listing_follows(
            res,
            cleaned,
            mc,
            syms,
            function,
            intro.lines@.len() as int,
            line_view(intro.current@),
            format,
        );
    let v = line_instr_view(res.lines@[i]);
    lemma_instruction_line_viewed(res.lines@, i);
    let n: int = match res.error {
        None => cleaned.len() as int,
        Some(e) => choose|k: int|
            0 <= k < cleaned.len() && {
                &&& forall|j: int| 0 <= j < k ==> #[trigger] range_error(mc, syms, cleaned[j]) is None
                &&& range_error(mc, syms, cleaned[k]) == Some(e.kind)
                &&& e.message@ == range_error_message(cleaned[k], e.kind)
                &&& instruction_views(res.lines@) == ranges_stream(mc, syms, cleaned.take(k))
                &&& res.lines@.len() > 0
                &&& res.lines@.last() == error_line()
                &&& shapes(res.lines@.skip(intro.lines@.len() as int).drop_last()) == listing_lines(mc, function, cleaned.take(k))
                &&& instruction_texts_fit(
                    res.lines@,
                    res.text.lines@,
                    intro.lines@.len() as int,
                    line_view(intro.current@),
                    format,
                    listing_owners(mc, function, cleaned.take(k)),
                )
            },
    };
    let listed = cleaned.take(n);
    assert(res.error is None ==> listed =~= cleaned);
    assert(instruction_views(res.lines@) == ranges_stream(mc, syms, listed));
    lemma_ranges_stream_member(mc, syms, listed, v);
    let k = choose|k: int| 0 <= k < listed.len() && #[trigger] range_stream(range_code(mc, syms, listed[k]).unwrap(), listed[k]).contains(v);
    let r = listed[k];
    assert(r == cleaned[k]);
    assert(range_error(mc, syms, cleaned[k]) is None);
    let code = range_code(mc, syms, r).unwrap();
    lemma_listing_stream_member(code, 0, r.start, v);
    let p = choose|p: int|
        0 <= p < code.len() && v == #[trigger] instr_view(x86_64_decode(code.skip(p), (r.start + p) as u64), (r.start + p) as u64, r.start);
    let f = x86_64_decode(code.skip(p), (r.start + p) as u64);
    assert(arrow_fits(res.lines@[i], f, (r.start + p) as u64));
    (cleaned, k, p)
}

/// In a listing of memory, every instruction line shows the instruction decoded at its offset
/// `p` into the code, at the range's start plus `p`, with an arrow that fits how control leaves
/// it: on `call rax` at the range's start, for one, the arrow `→` and no branch target.
pub proof fn lemma_memory_listing_arrows<F: Fn(&[u8], usize, &Range<usize>) -> Vec<Span>>(
    res: Disassembly,
    range: Range<usize>,
    code: &[u8],
    intro: StyledText,
    palette: Palette,
    format: &F,
    i: int,
) -> (p: int)
    requires
        is_listing(res, None, seq![range], Some(code), intro, palette, format),
        range.start + code@.len() <= usize::MAX + 1,
        0 <= i < res.lines@.len(),
        res.lines@[i].kind == DisassemblyLineKind::Instruction,
    ensures
        0 <= p < code@.len(),
        res.lines@[i].static_addr == range.start + p,
        arrow_fits(res.lines@[i], x86_64_decode(code@.skip(p), (range.start + p) as u64), (range.start + p) as u64),
{
    let w = lemma_listing_arrows(res, None, seq![range], Some(code), intro, palette, format, i);
    lemma_cleanup_single(w.0, seq![range]);
    assert(w.0[w.1] == range);
    w.2
}

} // verus!
