//! Writing the lines that come before an instruction: the inlined calls entered and the source
//! lines passed since the previous one.
use crate::disassembly::{default_line, Disassembly, DisassemblyLineInfo, DisassemblyLineKind};
use crate::lines::{
    annotation_lines_at, callee_name, chain, entered_at, first_live, identity_named_before, is_opening, leaf_above,
    leaves_fit, line_nesting_ok, nesting_of,
    lemma_leaf_above_prefix, lemma_leaves_push, lemma_named_before_prefix, lemma_named_unchanged,
    lemma_shapes_split, lemma_texts_chain, line_number_text, names_identity, nesting_fits, plain_line,
    seen_fits, shapes, statement_at, text_ok, texts_fit,
};
use crate::numfmt::{digits, push_digits};
use crate::style::{line_view, Palette, Style};
use crate::symbols::{function_levels, shard_subfunctions, symbols_fit, LineInfo, Subfunction, Symbols};
use std::ops::Range;
use vstd::prelude::*;

verus! {

/// `:` followed by `n` in decimal.
fn colon_number(n: usize) -> (s: String)
    ensures
        s@ == seq![':'] + digits(n as nat, 10),
{
    let mut s = String::from_str(":");
    proof {
        reveal_strlit(":");
    }
    push_digits(&mut s, n, 10);
    s
}

/// Writes a line for source line `line` (where its file is known) at address `static_addr`,
/// and makes it the current leaf line.
fn write_line_number(
    res: &mut Disassembly,
    symbols: &Symbols,
    palette: &Palette,
    line: LineInfo,
    kind: DisassemblyLineKind,
    static_addr: usize,
    subfunction_level: u16,
    leaf_line: &mut Option<LineInfo>,
    subfunction: Option<usize>,
)
    requires
        old(res).text.lines@.len() == old(res).lines@.len(),
        line.file_idx matches Some(i) ==> i < symbols.files@.len(),
    ensures
        final(res).text.lines@.len() == final(res).lines@.len(),
        final(res).error == old(res).error,
        final(res).indent_width == old(res).indent_width,
        final(res).symbols_shard == old(res).symbols_shard,
        final(res).widest_line == old(res).widest_line,
        final(res).max_abs_relative_addr == old(res).max_abs_relative_addr,
        match line.file_idx {
            None => {
                &&& *final(res) == *old(res)
                &&& *final(leaf_line) == *old(leaf_line)
            },
            Some(i) => {
                &&& final(res).lines@ == old(res).lines@.push(
                    (DisassemblyLineInfo {
                        kind,
                        static_addr,
                        subfunction_level,
                        leaf_line: Some(line),
                        subfunction,
                        ..default_line()
                    }),
                )
                &&& final(res).text.lines@.drop_last() == old(res).text.lines@
                &&& line_view(final(res).text.lines@.last()@) == line_view(old(res).text.current@)
                    + line_number_text(symbols.files@[i as int]@, line, *palette)
                &&& final(res).text.current@.len() == 0
                &&& *final(leaf_line) == Some(line)
            },
        },
{
    let file = match line.file_idx {
        None => {
            return ;
        },
        Some(f) => f,
    };
    *leaf_line = Some(line);
    let ghost cur0 = res.text.current@;
    res.text.push_str(symbols.files[file].as_str(), palette.disas_filename);
    if line.line != 0 {
        let s = colon_number(line.line);
        res.text.push_str(s.as_str(), palette.line_number);
        if line.column != 0 {
            let c = colon_number(line.column);
            res.text.push_str(c.as_str(), palette.column_number);
        }
    }
    let ghost cur1 = res.text.current@;
    proof {
        let t = line_number_text(symbols.files@[file as int]@, line, *palette);
        assert(line_view(cur1) =~= line_view(cur0) + t);
    }
    res.text.close_line();
    res.lines.push(
        DisassemblyLineInfo {
            kind,
            static_addr,
            subfunction_level,
            leaf_line: *leaf_line,
            subfunction,
            ..Default::default()
        },
    );
}

/// Writes the lines for entering inlined call `t` (`subfunction`) at nesting level
/// `subfunction_level`, inside inlined call `parent`, at address `static_addr`: the line of the
/// call (where its file is known), then the inlined function's name, marked `[cont]` where a
/// piece of the same inlined call was listed before. Both lines carry `parent`.
fn write_inlined_call(
    res: &mut Disassembly,
    symbols: &Symbols,
    f: usize,
    palette: &Palette,
    subfunction: &Subfunction,
    t: usize,
    static_addr: usize,
    subfunction_level: u16,
    leaf_line: &mut Option<LineInfo>,
    parent: Option<usize>,
    seen: &mut std::collections::HashSet<u32>,
)
    requires
        old(res).text.lines@.len() == old(res).lines@.len(),
        subfunction.callee_idx == usize::MAX || subfunction.callee_idx < symbols.functions@.len(),
        subfunction.call_line.file_idx matches Some(i) ==> i < symbols.files@.len(),
        symbols_fit(*symbols, f as int),
        t < shard_subfunctions(*symbols, f as int).len(),
        shard_subfunctions(*symbols, f as int)[t as int] == *subfunction,
        1 <= subfunction_level <= chain(shard_subfunctions(*symbols, f as int), function_levels(*symbols, f as int), static_addr, 0).len(),
        chain(shard_subfunctions(*symbols, f as int), function_levels(*symbols, f as int), static_addr, 0)[subfunction_level - 1]
            == t,
        leaves_fit(old(res).lines@, Some((f, symbols))),
        *old(leaf_line) == leaf_above(old(res).lines@, old(res).lines@.len() as int),
        seen_fits(old(seen)@, old(res).lines@, shard_subfunctions(*symbols, f as int), function_levels(*symbols, f as int)),
    ensures
        leaves_fit(final(res).lines@, Some((f, symbols))),
        *final(leaf_line) == leaf_above(final(res).lines@, final(res).lines@.len() as int),
        seen_fits(final(seen)@, final(res).lines@, shard_subfunctions(*symbols, f as int), function_levels(*symbols, f as int)),
        texts_fit(
            final(res).lines@,
            final(res).text.lines@,
            old(res).lines@.len() as int,
            line_view(old(res).text.current@),
            Some((f, symbols)),
            *palette,
        ),
        final(res).text.current@.len() == 0,
        shapes(final(res).lines@.skip(old(res).lines@.len() as int)) == opening_lines(
            shard_subfunctions(*symbols, f as int),
            t,
            subfunction_level,
            parent,
            static_addr,
        ),
        final(res).text.lines@.len() == final(res).lines@.len(),
        final(res).error == old(res).error,
        final(res).indent_width == old(res).indent_width,
        final(res).symbols_shard == old(res).symbols_shard,
        final(res).widest_line == old(res).widest_line,
        final(res).max_abs_relative_addr == old(res).max_abs_relative_addr,
        old(res).lines@.len() < final(res).lines@.len(),
        final(res).lines@.take(old(res).lines@.len() as int) == old(res).lines@,
        final(res).text.lines@.take(old(res).text.lines@.len() as int) == old(res).text.lines@,
        forall|i: int|
            old(res).lines@.len() <= i < final(res).lines@.len() ==> {
                &&& #[trigger] final(res).lines@[i].static_addr == static_addr
                &&& final(res).lines@[i].kind != DisassemblyLineKind::Instruction
                &&& final(res).lines@[i].kind != DisassemblyLineKind::Error
                &&& final(res).lines@[i].subfunction_level == subfunction_level
                &&& final(res).lines@[i].subfunction == parent
                &&& is_opening(final(res).lines@[i])
                &&& !final(res).lines@[i].is_statement
            },
{
    let ghost lines0 = res.lines@;
    let ghost text0 = res.text.lines@;
    let ghost cur0 = res.text.current@;
    let ghost seen0 = seen@;
    let ghost subs = shard_subfunctions(*symbols, f as int);
    let ghost levels = function_levels(*symbols, f as int);
    let name = if subfunction.callee_idx == usize::MAX {
        proof {
            reveal_strlit("?");
        }
        String::from_str("?")
    } else {
        symbols.functions[subfunction.callee_idx].name.clone()
    };
    write_line_number(
        res,
        symbols,
        palette,
        subfunction.call_line,
        DisassemblyLineKind::InlinedCallLineNumber,
        static_addr,
        subfunction_level,
        leaf_line,
        parent,
    );
    let ghost lines1 = res.lines@;
    let ghost text1 = res.text.lines@;
    let ghost cur1 = res.text.current@;
    proof {
        if subfunction.call_line.file_idx is Some {
            assert(lines1.drop_last() == lines0);
            assert(lines1 =~= lines0.push(lines1.last()));
            assert(entered_at(subs, levels, lines1.last()) == Some(t));
            lemma_leaves_push(lines0, lines1.last(), Some((f, symbols)));
            assert(lines1[lines0.len() as int] == lines1.last());
            assert(text_ok(lines1, text1, lines0.len() as int, lines0.len() as int, line_view(cur0), Some((f, symbols)), *palette));
            assert(line_view(cur1) =~= Seq::<(Seq<char>, Style)>::empty());
        } else {
            assert(lines1 =~= lines0);
        }
        assert(texts_fit(lines1, text1, lines0.len() as int, line_view(cur0), Some((f, symbols)), *palette));
        assert(lines1.take(lines0.len() as int) =~= lines0);
        assert forall|id: u32| identity_named_before(lines1, lines1.len() as int, subs, levels, id) == seen0.contains(id) by {
            lemma_named_unchanged(lines0, lines1, subs, levels, id);
        }
    }
    res.text.push_str(name.as_str(), palette.default_dim);
    let first_piece = seen.insert(subfunction.identity);
    if !first_piece {
        res.text.push_str(" [cont]", palette.default_dim);
    }
    res.text.close_line();
    res.lines.push(
        DisassemblyLineInfo {
            kind: DisassemblyLineKind::InlinedFunctionName,
            static_addr,
            subfunction_level,
            leaf_line: *leaf_line,
            subfunction: parent,
            ..Default::default()
        },
    );
    proof {
        assert(res.lines@ == lines1.push(res.lines@.last()));
        assert(res.lines@.take(lines1.len() as int) =~= lines1);
        lemma_leaf_above_prefix(lines1, res.lines@, lines1.len() as int);
        lemma_leaves_push(lines1, res.lines@.last(), Some((f, symbols)));
        assert(lines1.take(lines0.len() as int) =~= lines0);
        assert(res.lines@.take(lines0.len() as int) =~= lines0);
        assert(text1.take(text0.len() as int) =~= text0);
        assert(res.text.lines@.take(text0.len() as int) =~= text0);
        assert forall|i: int| lines0.len() <= i < res.lines@.len() implies {
            &&& #[trigger] res.lines@[i].static_addr == static_addr
            &&& res.lines@[i].kind != DisassemblyLineKind::Instruction
            &&& res.lines@[i].kind != DisassemblyLineKind::Error
            &&& res.lines@[i].subfunction_level == subfunction_level
            &&& res.lines@[i].subfunction == parent
            &&& is_opening(res.lines@[i])
            &&& !res.lines@[i].is_statement
        } by {
            if i < lines1.len() {
                assert(res.lines@[i] == lines1[i]);
            }
        }
        let n1 = lines1.len() as int;
        let id = subfunction.identity;
        assert(entered_at(subs, levels, res.lines@.last()) == Some(t));
        assert(shapes(res.lines@.skip(lines0.len() as int)) =~= opening_lines(subs, t, subfunction_level, parent, static_addr)) by {
            if subfunction.call_line.file_idx is Some {
                assert(res.lines@[lines0.len() as int] == lines1[lines0.len() as int]);
            }
        }
        lemma_named_before_prefix(lines1, res.lines@, n1, subs, levels, id);
        assert(res.lines@[n1] == res.lines@.last());
        assert(text_ok(res.lines@, res.text.lines@, n1, n1, line_view(cur1), Some((f, symbols)), *palette)) by {
            assert(name@ == callee_name(*symbols, *subfunction));
            assert(res.text.lines@[n1] == res.text.lines@.last());
            if first_piece {
                assert(line_view(res.text.lines@[n1]@) =~= line_view(cur1) + seq![(name@, palette.default_dim)]);
            } else {
                assert(line_view(res.text.lines@[n1]@) =~= line_view(cur1) + (seq![(name@, palette.default_dim)]
                    + seq![(" [cont]"@, palette.default_dim)]));
            }
        }
        assert(texts_fit(res.lines@, res.text.lines@, n1, line_view(cur1), Some((f, symbols)), *palette));
        lemma_texts_chain(
            lines1,
            text1,
            line_view(cur1),
            res.lines@,
            res.text.lines@,
            lines0.len() as int,
            line_view(cur0),
            Some((f, symbols)),
            *palette,
        );
        assert forall|x: u32| #[trigger] seen@.contains(x) == identity_named_before(
            res.lines@,
            res.lines@.len() as int,
            subs,
            levels,
            x,
        ) by {
            lemma_named_before_prefix(lines1, res.lines@, n1, subs, levels, x);
            assert(seen0.contains(x) == identity_named_before(lines1, n1, subs, levels, x));
            if identity_named_before(res.lines@, res.lines@.len() as int, subs, levels, x) {
                let j = choose|j: int| 0 <= j < res.lines@.len() && #[trigger] names_identity(res.lines@, j, subs, levels, x);
                if j < n1 {
                    assert(identity_named_before(res.lines@, n1, subs, levels, x));
                }
            }
            if x == id {
                assert(names_identity(res.lines@, n1, subs, levels, x));
            }
            if seen0.contains(x) {
                let j = choose|j: int| 0 <= j < n1 && #[trigger] names_identity(res.lines@, j, subs, levels, x);
                assert(names_identity(res.lines@, j, subs, levels, x));
            }
        }
    }
}

/// `new` is `old` with lines added at address `a` that are neither instructions nor errors nor
/// statement starts, nested within the inlined calls of `ss`, and saying what they should of
/// source lines; its text gained one line per line, each showing what its line's kind fixes (the
/// first after the text that `old` left pending), and nothing else changed.
pub open spec fn appended_at(
    old: Disassembly,
    new: Disassembly,
    a: usize,
    ss: Seq<Subfunction>,
    function: Option<(usize, &Symbols)>,
    palette: Palette,
) -> bool {
    &&& new.text.lines@.len() == new.lines@.len()
    &&& new.error == old.error
    &&& new.indent_width == old.indent_width
    &&& new.symbols_shard == old.symbols_shard
    &&& new.widest_line == old.widest_line
    &&& new.max_abs_relative_addr == old.max_abs_relative_addr
    &&& old.lines@.len() <= new.lines@.len()
    &&& new.lines@.take(old.lines@.len() as int) == old.lines@
    &&& new.text.lines@.take(old.text.lines@.len() as int) == old.text.lines@
    &&& annotation_lines_at(new.lines@, old.lines@.len() as int, a)
    &&& forall|i: int| old.lines@.len() <= i < new.lines@.len() ==> line_nesting_ok(#[trigger] new.lines@[i], Some(ss))
    &&& leaves_fit(new.lines@, function)
    &&& texts_fit(new.lines@, new.text.lines@, old.lines@.len() as int, line_view(old.text.current@), function, palette)
    &&& new.lines@.len() == old.lines@.len() ==> new.text.current@ == old.text.current@
    &&& new.lines@.len() > old.lines@.len() ==> new.text.current@.len() == 0
}

/// Two appends at the same address make one.
proof fn lemma_appended_trans(
    d0: Disassembly,
    d1: Disassembly,
    d2: Disassembly,
    a: usize,
    ss: Seq<Subfunction>,
    function: Option<(usize, &Symbols)>,
    palette: Palette,
)
    requires
        d0.text.lines@.len() == d0.lines@.len(),
        appended_at(d0, d1, a, ss, function, palette),
        appended_at(d1, d2, a, ss, function, palette),
    ensures
        appended_at(d0, d2, a, ss, function, palette),
{
    let n0 = d0.lines@.len() as int;
    let n1 = d1.lines@.len() as int;
    if n1 > n0 {
        assert(line_view(d1.text.current@) =~= Seq::<(Seq<char>, Style)>::empty());
    }
    lemma_texts_chain(
        d1.lines@,
        d1.text.lines@,
        line_view(d1.text.current@),
        d2.lines@,
        d2.text.lines@,
        n0,
        line_view(d0.text.current@),
        function,
        palette,
    );
    assert(d2.lines@.take(n0) =~= d2.lines@.take(n1).take(n0));
    assert(d2.text.lines@.take(n0) =~= d2.text.lines@.take(n1).take(n0));
    assert forall|i: int| n0 <= i < d2.lines@.len() implies #[trigger] d2.lines@[i].static_addr == a
        && d2.lines@[i].kind != DisassemblyLineKind::Instruction && d2.lines@[i].kind != DisassemblyLineKind::Error
        && !d2.lines@[i].is_statement && line_nesting_ok(d2.lines@[i], Some(ss)) by {
        if i < n1 {
            assert(d2.lines@[i] == d2.lines@.take(n1)[i]);
            assert(d1.lines@[i].static_addr == a);
            assert(line_nesting_ok(d1.lines@[i], Some(ss)));
        } else {
            assert(d2.lines@[i].static_addr == a);
        }
    }
    assert forall|i: int| n0 <= i < d2.lines@.len() implies line_nesting_ok(#[trigger] d2.lines@[i], Some(ss)) by {
        if i < n1 {
            assert(d2.lines@[i] == d2.lines@.take(n1)[i]);
            assert(line_nesting_ok(d1.lines@[i], Some(ss)));
        }
    }
}

/// Moves nesting level `k` of the walk through the inlined calls past the calls that end at or
/// before `static_addr`; returns where that level now stands.
fn skip_ended_calls(subfunc_idxs: &mut Vec<Range<usize>>, symbols: &Symbols, f: usize, k: usize, static_addr: usize) -> (s: usize)
    requires
        symbols_fit(*symbols, f as int),
        k < old(subfunc_idxs)@.len(),
        pointers_fit(
            old(subfunc_idxs)@,
            symbols.functions@[f as int].subfunction_levels@,
            shard_subfunctions(*symbols, f as int),
            static_addr as int,
        ),
    ensures
        pointers_fit(
            final(subfunc_idxs)@,
            symbols.functions@[f as int].subfunction_levels@,
            shard_subfunctions(*symbols, f as int),
            static_addr as int,
        ),
        final(subfunc_idxs)@ == old(subfunc_idxs)@.update(
            k as int,
            Range { start: s, end: old(subfunc_idxs)@[k as int].end },
        ),
        s == first_live(
            shard_subfunctions(*symbols, f as int),
            symbols.functions@[f as int].subfunction_levels@[k as int].start as int,
            symbols.functions@[f as int].subfunction_levels@[k as int].end as int,
            static_addr,
        ),
{
    let ghost subs = shard_subfunctions(*symbols, f as int);
    let ghost init = symbols.functions@[f as int].subfunction_levels@;
    let subfunctions = &symbols.shards[symbols.functions[f].shard_idx].subfunctions;
    assert(subfunctions@ == subs);
    assert(init[k as int] == symbols.functions@[f as int].subfunction_levels@[k as int]);
    assert(init[k as int].start <= init[k as int].end <= subs.len());
    let mut s = subfunc_idxs[k].start;
    let e = subfunc_idxs[k].end;
    let ghost s0 = s as int;
    while s < e && subfunctions[s].addr_range.end <= static_addr
        invariant
            s0 <= s <= e,
            e <= subfunctions@.len(),
            subfunctions@ == subs,
            first_live(subs, s as int, e as int, static_addr) == first_live(subs, s0, e as int, static_addr),
            forall|t: int| s0 <= t < s ==> #[trigger] subs[t].addr_range.end <= static_addr,
        decreases e - s,
    {
        s = s + 1;
    }
    proof {
        lemma_first_live_skip(subs, init[k as int].start as int, s0, e as int, static_addr);
    }
    let ghost idxs0 = subfunc_idxs@;
    subfunc_idxs.set(k, Range { start: s, end: e });
    proof {
        assert forall|j: int| 0 <= j < subfunc_idxs@.len() implies {
            &&& init[j].start <= #[trigger] subfunc_idxs@[j].start <= subfunc_idxs@[j].end
            &&& subfunc_idxs@[j].end == init[j].end
            &&& forall|t: int| init[j].start <= t < subfunc_idxs@[j].start ==> #[trigger] subs[t].addr_range.end <= static_addr
        } by {
            if j != k {
                assert(subfunc_idxs@[j] == idxs0[j]);
            } else {
                assert forall|t: int| init[j].start <= t < subfunc_idxs@[j].start implies #[trigger] subs[t].addr_range.end
                    <= static_addr by {
                    if t < s0 {
                        assert(idxs0[j].start == s0);
                    }
                }
            }
        }
    }
    s
}

/// Opens inlined call `s` of the shard at nesting level `subfunction_level`, inside inlined call
/// `parent`, for the instruction at `static_addr`, writing its lines where it starts after
/// `prev_static_addr`, the previous instruction of the range.
fn open_inlined_call(
    res: &mut Disassembly,
    symbols: &Symbols,
    f: usize,
    palette: &Palette,
    s: usize,
    static_addr: usize,
    prev_static_addr: usize,
    subfunction_level: u16,
    parent: Option<usize>,
    leaf_line: &mut Option<LineInfo>,
    seen: &mut std::collections::HashSet<u32>,
)
    requires
        symbols_fit(*symbols, f as int),
        s < shard_subfunctions(*symbols, f as int).len(),
        shard_subfunctions(*symbols, f as int)[s as int].addr_range.start <= static_addr
            < shard_subfunctions(*symbols, f as int)[s as int].addr_range.end,
        1 <= subfunction_level <= chain(shard_subfunctions(*symbols, f as int), function_levels(*symbols, f as int), static_addr, 0).len(),
        chain(shard_subfunctions(*symbols, f as int), function_levels(*symbols, f as int), static_addr, 0)[subfunction_level - 1]
            == s,
        subfunction_level == 1 <==> parent is None,
        parent matches Some(p) ==> {
            &&& p < shard_subfunctions(*symbols, f as int).len()
            &&& shard_subfunctions(*symbols, f as int)[p as int].addr_range.start <= static_addr
                < shard_subfunctions(*symbols, f as int)[p as int].addr_range.end
        },
        old(res).text.lines@.len() == old(res).lines@.len(),
        leaves_fit(old(res).lines@, Some((f, symbols))),
        *old(leaf_line) == leaf_above(old(res).lines@, old(res).lines@.len() as int),
        seen_fits(old(seen)@, old(res).lines@, shard_subfunctions(*symbols, f as int), function_levels(*symbols, f as int)),
    ensures
        appended_at(*old(res), *final(res), static_addr, shard_subfunctions(*symbols, f as int), Some((f, symbols)), *palette),
        *final(leaf_line) == leaf_above(final(res).lines@, final(res).lines@.len() as int),
        seen_fits(final(seen)@, final(res).lines@, shard_subfunctions(*symbols, f as int), function_levels(*symbols, f as int)),
        shapes(final(res).lines@.skip(old(res).lines@.len() as int)) == if shard_subfunctions(*symbols, f as int)[s as int].addr_range.start
            > prev_static_addr {
            opening_lines(shard_subfunctions(*symbols, f as int), s, subfunction_level, parent, static_addr)
        } else {
            Seq::empty()
        },
{
    let ghost subs_spec = shard_subfunctions(*symbols, f as int);
    let ghost d0 = *res;
    let subfunctions = &symbols.shards[symbols.functions[f].shard_idx].subfunctions;
    assert(subfunctions@ == subs_spec);
    let subfunction = &subfunctions[s];
    proof {
        assert(subs_spec[s as int] == *subfunction);
        assert(res.lines@.take(res.lines@.len() as int) =~= res.lines@);
        assert(res.text.lines@.take(res.text.lines@.len() as int) =~= res.text.lines@);
        assert(res.lines@.skip(res.lines@.len() as int) =~= Seq::<DisassemblyLineInfo>::empty());
        assert(shapes(res.lines@.skip(res.lines@.len() as int)) =~= Seq::<DisassemblyLineInfo>::empty());
        assert(texts_fit(res.lines@, res.text.lines@, res.lines@.len() as int, line_view(res.text.current@), Some((f, symbols)), *palette));
        assert forall|i: int| res.lines@.len() <= i < res.lines@.len() implies line_nesting_ok(
            #[trigger] res.lines@[i],
            Some(subs_spec),
        ) by {}
    }
    if subfunction.addr_range.start > prev_static_addr {
        write_inlined_call(
            res,
            symbols,
            f,
            palette,
            subfunction,
            s,
            static_addr,
            subfunction_level,
            leaf_line,
            parent,
            seen,
        );
        proof {
            assert forall|i: int| d0.lines@.len() <= i < res.lines@.len() implies line_nesting_ok(
                #[trigger] res.lines@[i],
                Some(subs_spec),
            ) by {
                assert(res.lines@[i].static_addr == static_addr);
                assert(is_opening(res.lines@[i]));
            }
        }
    }
}

/// Writes, for the instruction at `static_addr`, the lines of the inlined calls entered since the
/// previous instruction, level by level from the outermost; returns the instruction's nesting
/// level and innermost inlined call.
fn enter_inlined_calls(
    res: &mut Disassembly,
    symbols: &Symbols,
    f: usize,
    palette: &Palette,
    subfunc_idxs: &mut Vec<Range<usize>>,
    seen: &mut std::collections::HashSet<u32>,
    static_addr: usize,
    prev_static_addr: usize,
    leaf_line: &mut Option<LineInfo>,
) -> (r: (u16, Option<usize>))
    requires
        symbols_fit(*symbols, f as int),
        old(res).text.lines@.len() == old(res).lines@.len(),
        leaves_fit(old(res).lines@, Some((f, symbols))),
        *old(leaf_line) == leaf_above(old(res).lines@, old(res).lines@.len() as int),
        seen_fits(old(seen)@, old(res).lines@, shard_subfunctions(*symbols, f as int), function_levels(*symbols, f as int)),
        pointers_fit(
            old(subfunc_idxs)@,
            symbols.functions@[f as int].subfunction_levels@,
            shard_subfunctions(*symbols, f as int),
            static_addr as int,
        ),
    ensures
        appended_at(*old(res), *final(res), static_addr, shard_subfunctions(*symbols, f as int), Some((f, symbols)), *palette),
        *final(leaf_line) == leaf_above(final(res).lines@, final(res).lines@.len() as int),
        seen_fits(final(seen)@, final(res).lines@, shard_subfunctions(*symbols, f as int), function_levels(*symbols, f as int)),
        nesting_fits(r.0, r.1, shard_subfunctions(*symbols, f as int), static_addr),
        pointers_fit(
            final(subfunc_idxs)@,
            symbols.functions@[f as int].subfunction_levels@,
            shard_subfunctions(*symbols, f as int),
            static_addr as int,
        ),
        r == nesting_of(chain(shard_subfunctions(*symbols, f as int), symbols.functions@[f as int].subfunction_levels@, static_addr, 0)),
        shapes(final(res).lines@.skip(old(res).lines@.len() as int)) == entries_lines(
            shard_subfunctions(*symbols, f as int),
            chain(shard_subfunctions(*symbols, f as int), symbols.functions@[f as int].subfunction_levels@, static_addr, 0),
            static_addr,
            prev_static_addr,
        ),
{
    let ghost d0 = *res;
    let ghost subs_spec = shard_subfunctions(*symbols, f as int);
    let ghost init = symbols.functions@[f as int].subfunction_levels@;
    let ghost mut entered: Seq<usize> = Seq::empty();
    let subfunctions = &symbols.shards[symbols.functions[f].shard_idx].subfunctions;
    assert(subfunctions@ == subs_spec);
    let mut subfunction_level: u16 = 0;
    let mut cur_subfunction: Option<usize> = None;
    let nlevels = subfunc_idxs.len();
    proof {
        assert(res.lines@.take(res.lines@.len() as int) =~= res.lines@);
        assert(res.text.lines@.take(res.text.lines@.len() as int) =~= res.text.lines@);
        assert(res.lines@.skip(res.lines@.len() as int) =~= Seq::<DisassemblyLineInfo>::empty());
        assert(shapes(res.lines@.skip(res.lines@.len() as int)) =~= Seq::<DisassemblyLineInfo>::empty());
        assert(chain(subs_spec, init, static_addr, 0) =~= entered + chain(subs_spec, init, static_addr, 0));
    }
    let mut k: usize = 0;
    while k < nlevels
        invariant
            symbols_fit(*symbols, f as int),
            subfunctions@ == subs_spec,
            subs_spec == shard_subfunctions(*symbols, f as int),
            init == symbols.functions@[f as int].subfunction_levels@,
            nlevels == subfunc_idxs@.len(),
            pointers_fit(subfunc_idxs@, init, subs_spec, static_addr as int),
            k <= nlevels,
            entered.len() == k,
            chain(subs_spec, init, static_addr, 0) == entered + chain(subs_spec, init, static_addr, k as int),
            (subfunction_level, cur_subfunction) == nesting_of(entered),
            subfunction_level == k,
            nesting_fits(subfunction_level, cur_subfunction, subs_spec, static_addr),
            shapes(res.lines@.skip(d0.lines@.len() as int)) == entries_lines(subs_spec, entered, static_addr, prev_static_addr),
            d0.text.lines@.len() == d0.lines@.len(),
            appended_at(d0, *res, static_addr, subs_spec, Some((f, symbols)), *palette),
            *leaf_line == leaf_above(res.lines@, res.lines@.len() as int),
            seen_fits(seen@, res.lines@, subs_spec, init),
        ensures
            chain(subs_spec, init, static_addr, 0) == entered,
        decreases nlevels - k,
    {
        let s = skip_ended_calls(subfunc_idxs, symbols, f, k, static_addr);
        let e = subfunc_idxs[k].end;
        proof {
            assert(k < init.len());
            assert(init[k as int].start <= init[k as int].end <= subs_spec.len());
            assert(subfunc_idxs@[k as int].start == s);
            assert(e == init[k as int].end);
            lemma_first_live_range(subs_spec, init[k as int].start as int, init[k as int].end as int, static_addr);
        }
        if s == e || subfunctions[s].addr_range.start > static_addr {
            proof {
                assert(chain(subs_spec, init, static_addr, k as int) =~= Seq::<usize>::empty());
                assert(entered + chain(subs_spec, init, static_addr, k as int) =~= entered);
            }
            break;
        }
        let ghost entered_before = entered;
        proof {
            assert(chain(subs_spec, init, static_addr, k as int) == seq![s] + chain(subs_spec, init, static_addr, k + 1));
            assert(entered + chain(subs_spec, init, static_addr, k as int) =~= entered.push(s) + chain(
                subs_spec,
                init,
                static_addr,
                k + 1,
            ));
            entered = entered.push(s);
            assert(entered.drop_last() =~= entered_before);
        }
        let ghost d1 = *res;
        let parent = cur_subfunction;
        proof {
            assert(chain(subs_spec, init, static_addr, 0)[k as int] == s);
            assert(parent == if entered.len() > 1 { Some(entered[entered.len() - 2]) } else { None::<usize> });
        }
        cur_subfunction = Some(s);
        subfunction_level = subfunction_level + 1;
        open_inlined_call(res, symbols, f, palette, s, static_addr, prev_static_addr, subfunction_level, parent, leaf_line, seen);
        proof {
            lemma_appended_trans(d0, d1, *res, static_addr, subs_spec, Some((f, symbols)), *palette);
            lemma_shapes_split(d1.lines@, res.lines@, d0.lines@.len() as int);
            assert(entries_lines(subs_spec, entered, static_addr, prev_static_addr) == entries_lines(
                subs_spec,
                entered_before,
                static_addr,
                prev_static_addr,
            ) + shapes(res.lines@.skip(d1.lines@.len() as int)));
        }
        k = k + 1;
    }
    (subfunction_level, cur_subfunction)
}

/// Writes a line for each source line record from `line_cursor` on, up to `static_addr`, and
/// returns whether one of them marks `static_addr` as a statement's start.
fn write_source_lines(
    res: &mut Disassembly,
    symbols: &Symbols,
    f: usize,
    palette: &Palette,
    line_cursor: &mut usize,
    static_addr: usize,
    subfunction_level: u16,
    cur_subfunction: Option<usize>,
    leaf_line: &mut Option<LineInfo>,
) -> (is_statement: bool)
    requires
        symbols_fit(*symbols, f as int),
        nesting_fits(subfunction_level, cur_subfunction, shard_subfunctions(*symbols, f as int), static_addr),
        old(res).text.lines@.len() == old(res).lines@.len(),
        *old(line_cursor) <= symbols.lines@.len(),
        forall|j: int| 0 <= j < *old(line_cursor) ==> #[trigger] symbols.lines@[j].addr < static_addr,
        leaves_fit(old(res).lines@, Some((f, symbols))),
        *old(leaf_line) == leaf_above(old(res).lines@, old(res).lines@.len() as int),
    ensures
        appended_at(*old(res), *final(res), static_addr, shard_subfunctions(*symbols, f as int), Some((f, symbols)), *palette),
        *final(leaf_line) == leaf_above(final(res).lines@, final(res).lines@.len() as int),
        *final(line_cursor) <= symbols.lines@.len(),
        forall|j: int| 0 <= j < *final(line_cursor) ==> #[trigger] symbols.lines@[j].addr <= static_addr,
        forall|j: int| *final(line_cursor) <= j < symbols.lines@.len() ==> #[trigger] symbols.lines@[j].addr > static_addr,
        is_statement == statement_at(Some((f, symbols)), static_addr),
        forall|i: int|
            old(res).lines@.len() <= i < final(res).lines@.len() ==> #[trigger] final(res).lines@[i].kind
                == DisassemblyLineKind::LeafLineNumber,
        *old(line_cursor) <= *final(line_cursor),
        shapes(final(res).lines@.skip(old(res).lines@.len() as int)) == source_lines(
            symbols.lines@.subrange(*old(line_cursor) as int, *final(line_cursor) as int),
            static_addr,
            subfunction_level,
            cur_subfunction,
        ),
{
    let ghost d0 = *res;
    let ghost c0 = *line_cursor;
    let ghost subs_spec = shard_subfunctions(*symbols, f as int);
    let mut is_statement = false;
    proof {
        assert(res.lines@.take(res.lines@.len() as int) =~= res.lines@);
        assert(res.text.lines@.take(res.text.lines@.len() as int) =~= res.text.lines@);
        assert(res.lines@.skip(res.lines@.len() as int) =~= Seq::<DisassemblyLineInfo>::empty());
        assert(shapes(res.lines@.skip(res.lines@.len() as int)) =~= Seq::<DisassemblyLineInfo>::empty());
        assert(symbols.lines@.subrange(c0 as int, c0 as int) =~= Seq::<LineInfo>::empty());
    }
    let nlines = symbols.lines.len();
    while *line_cursor < nlines && symbols.lines[*line_cursor].addr <= static_addr
        invariant
            symbols_fit(*symbols, f as int),
            subs_spec == shard_subfunctions(*symbols, f as int),
            nesting_fits(subfunction_level, cur_subfunction, subs_spec, static_addr),
            nlines == symbols.lines@.len(),
            *line_cursor <= nlines,
            c0 <= *line_cursor,
            forall|j: int| 0 <= j < c0 ==> #[trigger] symbols.lines@[j].addr < static_addr,
            forall|j: int| 0 <= j < *line_cursor ==> #[trigger] symbols.lines@[j].addr <= static_addr,
            is_statement == exists|j: int|
                c0 <= j < *line_cursor && #[trigger] symbols.lines@[j].addr == static_addr
                    && symbols.lines@[j].is_statement,
            d0.text.lines@.len() == d0.lines@.len(),
            appended_at(d0, *res, static_addr, subs_spec, Some((f, symbols)), *palette),
            *leaf_line == leaf_above(res.lines@, res.lines@.len() as int),
            forall|i: int|
                d0.lines@.len() <= i < res.lines@.len() ==> #[trigger] res.lines@[i].kind
                    == DisassemblyLineKind::LeafLineNumber,
            shapes(res.lines@.skip(d0.lines@.len() as int)) == source_lines(
                symbols.lines@.subrange(c0 as int, *line_cursor as int),
                static_addr,
                subfunction_level,
                cur_subfunction,
            ),
        decreases nlines - *line_cursor,
    {
        let line = symbols.lines[*line_cursor];
        proof {
            let r0 = symbols.lines@.subrange(c0 as int, *line_cursor as int);
            let r1 = symbols.lines@.subrange(c0 as int, *line_cursor + 1);
            assert(r1.drop_last() =~= r0);
            assert(r1.last() == line);
        }
        *line_cursor = *line_cursor + 1;
        let ghost d1 = *res;
        proof {
            assert(symbols.lines@[*line_cursor - 1].file_idx matches Some(i) ==> i < symbols.files@.len());
            assert(symbols.lines@.contains(line));
        }
        write_line_number(
            res,
            symbols,
            palette,
            line,
            DisassemblyLineKind::LeafLineNumber,
            static_addr,
            subfunction_level,
            leaf_line,
            cur_subfunction,
        );
        proof {
            if line.file_idx is Some {
                assert(res.lines@ =~= d1.lines@.push(res.lines@.last()));
                lemma_leaves_push(d1.lines@, res.lines@.last(), Some((f, symbols)));
                assert(res.lines@.take(d1.lines@.len() as int) =~= d1.lines@);
                assert(res.text.lines@.take(d1.text.lines@.len() as int) =~= d1.text.lines@);
                assert forall|i: int| d1.lines@.len() <= i < res.lines@.len() implies #[trigger] res.lines@[i].static_addr
                    == static_addr && res.lines@[i].kind != DisassemblyLineKind::Instruction && res.lines@[i].kind
                    != DisassemblyLineKind::Error && !res.lines@[i].is_statement && line_nesting_ok(
                    res.lines@[i],
                    Some(subs_spec),
                ) by {
                    assert(res.lines@[i] == res.lines@.last());
                }
                assert(appended_at(d1, *res, static_addr, subs_spec, Some((f, symbols)), *palette));
                lemma_appended_trans(d0, d1, *res, static_addr, subs_spec, Some((f, symbols)), *palette);
                lemma_shapes_split(d1.lines@, res.lines@, d0.lines@.len() as int);
                assert(shapes(res.lines@.skip(d1.lines@.len() as int)) =~= seq![
                    plain_line(DisassemblyLineKind::LeafLineNumber, static_addr, subfunction_level, cur_subfunction, Some(line)),
                ]);
            }
        }
        if line.addr == static_addr && line.is_statement {
            is_statement = true;
        }
    }
    proof {
        if *line_cursor < nlines {
            assert forall|j: int| *line_cursor <= j < nlines implies #[trigger] symbols.lines@[j].addr > static_addr by {
                assert(symbols.lines@[*line_cursor as int].addr <= symbols.lines@[j].addr);
            }
        }
        if is_statement {
            let j = choose|j: int| c0 <= j < *line_cursor && #[trigger] symbols.lines@[j].addr == static_addr
                && symbols.lines@[j].is_statement;
            assert(statement_at(Some((f, symbols)), static_addr));
        }
        if statement_at(Some((f, symbols)), static_addr) {
            let j = choose|j: int| 0 <= j < symbols.lines@.len() && #[trigger] symbols.lines@[j].addr == static_addr
                && symbols.lines@[j].is_statement;
            assert(c0 <= j < *line_cursor);
        }
    }
    is_statement
}

/// Before the instruction at `static_addr`: a name line (after the line of the call) for each
/// inlined call entered since the previous instruction, and a line for each source line record
/// up to `static_addr`. Returns the instruction's nesting level, its innermost inlined call,
/// and whether a statement starts at it.
pub(crate) fn annotate(
    res: &mut Disassembly,
    symbols: &Symbols,
    f: usize,
    palette: &Palette,
    subfunc_idxs: &mut Vec<Range<usize>>,
    seen: &mut std::collections::HashSet<u32>,
    line_cursor: &mut usize,
    static_addr: usize,
    prev_static_addr: usize,
    leaf_line: &mut Option<LineInfo>,
) -> (r: (u16, Option<usize>, bool))
    requires
        symbols_fit(*symbols, f as int),
        pointers_fit(
            old(subfunc_idxs)@,
            symbols.functions@[f as int].subfunction_levels@,
            shard_subfunctions(*symbols, f as int),
            static_addr as int,
        ),
        old(res).text.lines@.len() == old(res).lines@.len(),
        *old(line_cursor) <= symbols.lines@.len(),
        forall|j: int| 0 <= j < *old(line_cursor) ==> #[trigger] symbols.lines@[j].addr < static_addr,
        leaves_fit(old(res).lines@, Some((f, symbols))),
        *old(leaf_line) == leaf_above(old(res).lines@, old(res).lines@.len() as int),
        seen_fits(old(seen)@, old(res).lines@, shard_subfunctions(*symbols, f as int), function_levels(*symbols, f as int)),
    ensures
        appended_at(*old(res), *final(res), static_addr, shard_subfunctions(*symbols, f as int), Some((f, symbols)), *palette),
        *final(leaf_line) == leaf_above(final(res).lines@, final(res).lines@.len() as int),
        seen_fits(final(seen)@, final(res).lines@, shard_subfunctions(*symbols, f as int), function_levels(*symbols, f as int)),
        nesting_fits(r.0, r.1, shard_subfunctions(*symbols, f as int), static_addr),
        pointers_fit(
            final(subfunc_idxs)@,
            symbols.functions@[f as int].subfunction_levels@,
            shard_subfunctions(*symbols, f as int),
            static_addr as int,
        ),
        (r.0, r.1) == nesting_of(
            chain(shard_subfunctions(*symbols, f as int), symbols.functions@[f as int].subfunction_levels@, static_addr, 0),
        ),
        *old(line_cursor) <= *final(line_cursor),
        shapes(final(res).lines@.skip(old(res).lines@.len() as int)) == entries_lines(
            shard_subfunctions(*symbols, f as int),
            chain(shard_subfunctions(*symbols, f as int), symbols.functions@[f as int].subfunction_levels@, static_addr, 0),
            static_addr,
            prev_static_addr,
        ) + source_lines(symbols.lines@.subrange(*old(line_cursor) as int, *final(line_cursor) as int), static_addr, r.0, r.1),
        *final(line_cursor) <= symbols.lines@.len(),
        forall|j: int| 0 <= j < *final(line_cursor) ==> #[trigger] symbols.lines@[j].addr <= static_addr,
        forall|j: int| *final(line_cursor) <= j < symbols.lines@.len() ==> #[trigger] symbols.lines@[j].addr > static_addr,
        r.2 == statement_at(Some((f, symbols)), static_addr),
{
    let ghost d0 = *res;
    let (subfunction_level, cur_subfunction) = enter_inlined_calls(
        res,
        symbols,
        f,
        palette,
        subfunc_idxs,
        seen,
        static_addr,
        prev_static_addr,
        leaf_line,
    );
    let ghost d1 = *res;
    let is_statement = write_source_lines(
        res,
        symbols,
        f,
        palette,
        line_cursor,
        static_addr,
        subfunction_level,
        cur_subfunction,
        leaf_line,
    );
    proof {
        lemma_appended_trans(d0, d1, *res, static_addr, shard_subfunctions(*symbols, f as int), Some((f, symbols)), *palette);
        assert forall|id: u32| #[trigger] seen@.contains(id) == identity_named_before(
            res.lines@,
            res.lines@.len() as int,
            shard_subfunctions(*symbols, f as int),
            function_levels(*symbols, f as int),
            id,
        ) by {
            lemma_named_unchanged(d1.lines@, res.lines@, shard_subfunctions(*symbols, f as int), function_levels(*symbols, f as int), id);
        }
        lemma_shapes_split(d1.lines@, res.lines@, d0.lines@.len() as int);
    }
    (subfunction_level, cur_subfunction, is_statement)
}

/// The lines that open inlined call `t` at nesting level `level`, inside inlined call `parent`
/// (none at level 1), at address `a`: the line of the call, where its file is known, then the
/// inlined function's name. Both carry `parent`, the call they are written in.
pub open spec fn opening_lines(subs: Seq<Subfunction>, t: usize, level: u16, parent: Option<usize>, a: usize) -> Seq<
    DisassemblyLineInfo,
> {
    let sub = subs[t as int];
    let call = if sub.call_line.file_idx is Some {
        seq![plain_line(DisassemblyLineKind::InlinedCallLineNumber, a, level, parent, Some(sub.call_line))]
    } else {
        Seq::empty()
    };
    call.push(plain_line(DisassemblyLineKind::InlinedFunctionName, a, level, parent, None))
}

/// The lines that open the inlined calls `ch` (outermost first) for the instruction at `a`,
/// the previous instruction of its range being at `p` (0 for the first): those of each call
/// that starts after `p`.
pub open spec fn entries_lines(subs: Seq<Subfunction>, ch: Seq<usize>, a: usize, p: usize) -> Seq<DisassemblyLineInfo>
    decreases ch.len(),
{
    if ch.len() == 0 {
        Seq::empty()
    } else {
        let t = ch.last();
        let parent = if ch.len() > 1 {
            Some(ch[ch.len() - 2])
        } else {
            None
        };
        let here = if subs[t as int].addr_range.start > p {
            opening_lines(subs, t, ch.len() as u16, parent, a)
        } else {
            Seq::empty()
        };
        entries_lines(subs, ch.drop_last(), a, p) + here
    }
}

/// The source line records of `recs` whose address lies in `lo..=hi`, in order.
pub open spec fn records_in(recs: Seq<LineInfo>, lo: int, hi: int) -> Seq<LineInfo>
    decreases recs.len(),
{
    if recs.len() == 0 {
        Seq::empty()
    } else {
        let r = recs.last();
        records_in(recs.drop_last(), lo, hi) + if lo <= r.addr <= hi {
            seq![r]
        } else {
            Seq::empty()
        }
    }
}

/// The source lines shown for records `recs` before the instruction at `a`, nested at `level`
/// in `sub`: one for each record whose file is known.
pub open spec fn source_lines(recs: Seq<LineInfo>, a: usize, level: u16, sub: Option<usize>) -> Seq<DisassemblyLineInfo>
    decreases recs.len(),
{
    if recs.len() == 0 {
        Seq::empty()
    } else {
        source_lines(recs.drop_last(), a, level, sub) + if recs.last().file_idx is Some {
            seq![plain_line(DisassemblyLineKind::LeafLineNumber, a, level, sub, Some(recs.last()))]
        } else {
            Seq::empty()
        }
    }
}

/// Where the listing's walk through the inlined calls stands, for each nesting level: the calls
/// of that level still ahead (`idxs`), of those the function has at that level (`levels`); the
/// ones passed all end at or before `x`.
pub open spec fn pointers_fit(idxs: Seq<Range<usize>>, levels: Seq<Range<usize>>, subs: Seq<Subfunction>, x: int) -> bool {
    &&& idxs.len() == levels.len()
    &&& forall|k: int|
        0 <= k < idxs.len() ==> {
            &&& levels[k].start <= #[trigger] idxs[k].start <= idxs[k].end
            &&& idxs[k].end == levels[k].end
            &&& forall|t: int| levels[k].start <= t < idxs[k].start ==> #[trigger] subs[t].addr_range.end <= x
        }
}

/// Passed calls that end by `x` end by any `y` after it.
pub(crate) proof fn lemma_pointers_weaken(idxs: Seq<Range<usize>>, levels: Seq<Range<usize>>, subs: Seq<Subfunction>, x: int, y: int)
    requires
        pointers_fit(idxs, levels, subs, x),
        x <= y,
    ensures
        pointers_fit(idxs, levels, subs, y),
{
    assert forall|k: int| 0 <= k < idxs.len() implies {
        &&& levels[k].start <= #[trigger] idxs[k].start <= idxs[k].end
        &&& idxs[k].end == levels[k].end
        &&& forall|t: int| levels[k].start <= t < idxs[k].start ==> #[trigger] subs[t].addr_range.end <= y
    } by {
        assert forall|t: int| levels[k].start <= t < idxs[k].start implies #[trigger] subs[t].addr_range.end <= y by {
            assert(subs[t].addr_range.end <= x);
        }
    }
}

/// Calls that end at or before `a` do not change which call is the first still live.
proof fn lemma_first_live_skip(subs: Seq<Subfunction>, t0: int, t1: int, end: int, a: usize)
    requires
        t0 <= t1 <= end,
        forall|t: int| t0 <= t < t1 ==> #[trigger] subs[t].addr_range.end <= a,
    ensures
        first_live(subs, t0, end, a) == first_live(subs, t1, end, a),
    decreases t1 - t0,
{
    if t0 < t1 {
        lemma_first_live_skip(subs, t0 + 1, t1, end, a);
    }
}

/// The first live call lies in `t..=end`, and where it is a call it ends after `a`.
proof fn lemma_first_live_range(subs: Seq<Subfunction>, t: int, end: int, a: usize)
    requires
        t <= end,
    ensures
        t <= first_live(subs, t, end, a) <= end,
        first_live(subs, t, end, a) < end ==> subs[first_live(subs, t, end, a)].addr_range.end > a,
    decreases end - t,
{
    if t < end && subs[t].addr_range.end <= a {
        lemma_first_live_range(subs, t + 1, end, a);
    }
}

/// Under sorted records, the records in `lo..=hi` are those between the two cursors that part
/// the records below `lo` and those above `hi` from the rest.
pub(crate) proof fn lemma_records_window(recs: Seq<LineInfo>, lo: int, hi: int, c0: int, c1: int, n: int)
    requires
        0 <= c0 <= c1 <= recs.len(),
        0 <= n <= recs.len(),
        forall|j: int| 0 <= j < c0 ==> #[trigger] recs[j].addr < lo,
        forall|j: int| c0 <= j < recs.len() ==> #[trigger] recs[j].addr >= lo,
        forall|j: int| 0 <= j < c1 ==> #[trigger] recs[j].addr <= hi,
        forall|j: int| c1 <= j < recs.len() ==> #[trigger] recs[j].addr > hi,
    ensures
        records_in(recs.take(n), lo, hi) == recs.subrange(
            if n < c0 {
                n
            } else {
                c0
            },
            if n < c1 {
                n
            } else {
                c1
            },
        ),
    decreases n,
{
    if n == 0 {
        assert(records_in(recs.take(0), lo, hi) =~= Seq::<LineInfo>::empty());
    } else {
        lemma_records_window(recs, lo, hi, c0, c1, n - 1);
        assert(recs.take(n).drop_last() =~= recs.take(n - 1));
        assert(recs.take(n).last() == recs[n - 1]);
        let a = if n - 1 < c0 { n - 1 } else { c0 };
        let b = if n - 1 < c1 { n - 1 } else { c1 };
        if c0 <= n - 1 < c1 {
            assert(recs.subrange(a, b + 1) =~= recs.subrange(a, b).push(recs[n - 1]));
        }
    }
}

} // verus!
