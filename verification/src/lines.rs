//! What the lines of a listing say, and what each kind of line owes: nesting, source lines,
//! statement marks and text.
use crate::decoder::{FirstOperand, FlowKind, InstrFacts};
use crate::disassembly::{default_line, lines_sorted, DisassemblyLineInfo, DisassemblyLineKind};
use crate::numfmt::digits;
use crate::style::{line_view, Palette, Span, Style};
use crate::symbols::{shard_subfunctions, LineInfo, Subfunction, Symbols};
use std::ops::Range;
use vstd::prelude::*;

verus! {

/// What the listing shows of an instruction: its address, its offset in its range, the arrow
/// that tells how control leaves it, and where it branches to when that is known.
pub type InstrView = (usize, isize, char, Option<usize>);

/// The arrow for how control leaves instruction `f`, decoded at address `ip`, and its branch
/// target where the target is a near branch operand (an indirect branch has none): down for a
/// target after the instruction's address, up otherwise.
pub open spec fn jump_of(f: InstrFacts, ip: u64) -> (char, Option<usize>) {
    match f.flow {
        FlowKind::Next => (' ', None),
        FlowKind::Return => ('←', None),
        FlowKind::Call | FlowKind::IndirectCall => ('→', None),
        FlowKind::Interrupt | FlowKind::XbeginXabortXend | FlowKind::Exception => ('!', None),
        FlowKind::UnconditionalBranch | FlowKind::IndirectBranch | FlowKind::ConditionalBranch => {
            let target_known = f.flow != FlowKind::IndirectBranch && f.first_operand
                != FirstOperand::Other;
            if !target_known {
                ('↕', None)
            } else if f.near_branch_target > ip {
                ('↓', Some(f.near_branch_target as usize))
            } else {
                ('↑', Some(f.near_branch_target as usize))
            }
        },
    }
}

/// What the listing shows of instruction `f`, decoded at address `ip`, in a range that starts
/// at `range_start`.
pub open spec fn instr_view(f: InstrFacts, ip: u64, range_start: usize) -> InstrView {
    let a = ip as usize;
    (a, (a - range_start) as isize, jump_of(f, ip).0, jump_of(f, ip).1)
}

/// What an instruction line shows.
pub open spec fn line_instr_view(l: DisassemblyLineInfo) -> InstrView {
    (l.static_addr, l.relative_addr, l.jump_indicator, l.jump_target)
}

/// The instruction lines of `lines`, in order, as what they show.
pub open spec fn instruction_views(lines: Seq<DisassemblyLineInfo>) -> Seq<InstrView>
    decreases lines.len(),
{
    if lines.len() == 0 {
        Seq::empty()
    } else {
        let rest = instruction_views(lines.drop_last());
        if lines.last().kind == DisassemblyLineKind::Instruction {
            rest.push(line_instr_view(lines.last()))
        } else {
            rest
        }
    }
}

/// The first of the inlined calls `subs[t..end]` that ends after address `a` (`end` if none
/// does).
pub open spec fn first_live(subs: Seq<Subfunction>, t: int, end: int, a: usize) -> int
    decreases end - t,
{
    if t >= end {
        end
    } else if subs[t].addr_range.end > a {
        t
    } else {
        first_live(subs, t + 1, end, a)
    }
}

/// The inlined calls that hold address `a`, from nesting level `k + 1` inward: at each level,
/// the first of that level's calls (`levels[k]`, indices into `subs`, ordered by address) that
/// ends after `a`, as long as it also starts at or before `a`.
pub open spec fn chain(subs: Seq<Subfunction>, levels: Seq<Range<usize>>, a: usize, k: int) -> Seq<usize>
    decreases levels.len() - k,
{
    if k < 0 || k >= levels.len() {
        Seq::empty()
    } else {
        let t = first_live(subs, levels[k].start as int, levels[k].end as int, a);
        if t >= levels[k].end || subs[t].addr_range.start > a {
            Seq::empty()
        } else {
            seq![t as usize] + chain(subs, levels, a, k + 1)
        }
    }
}

/// The nesting level and innermost inlined call of an instruction inside the calls `ch`.
pub open spec fn nesting_of(ch: Seq<usize>) -> (u16, Option<usize>) {
    (
        ch.len() as u16,
        if ch.len() == 0 {
            None
        } else {
            Some(ch.last())
        },
    )
}

/// The inlined call that an opening line `l` (a call or name line, at the address of the
/// instruction it comes before) opens: the call at its nesting level among those that hold its
/// address.
pub open spec fn entered_at(subs: Seq<Subfunction>, levels: Seq<Range<usize>>, l: DisassemblyLineInfo) -> Option<usize> {
    let ch = chain(subs, levels, l.static_addr, 0);
    if 1 <= l.subfunction_level <= ch.len() {
        Some(ch[l.subfunction_level - 1])
    } else {
        None
    }
}

/// The line opens an inlined call: the line of the call, or the inlined function's name.
pub open spec fn is_opening(l: DisassemblyLineInfo) -> bool {
    l.kind == DisassemblyLineKind::InlinedCallLineNumber || l.kind == DisassemblyLineKind::InlinedFunctionName
}

/// Every line is nested as `line_nesting_ok` says.
pub open spec fn annotations_fit(lines: Seq<DisassemblyLineInfo>, subs: Option<Seq<Subfunction>>) -> bool {
    forall|i: int| 0 <= i < lines.len() ==> line_nesting_ok(#[trigger] lines[i], subs)
}

/// A line's nesting level is 0 exactly where it has no inlined function, except that a line
/// opening an inlined call is one level deeper than the call around it, which it carries (none at
/// level 1); and where a line has an inlined function, that call (of `subs`, or none at all
/// without symbols) holds the line's address.
pub open spec fn line_nesting_ok(l: DisassemblyLineInfo, subs: Option<Seq<Subfunction>>) -> bool {
    &&& if is_opening(l) {
        l.subfunction_level >= 1 && (l.subfunction_level == 1 <==> l.subfunction is None)
    } else {
        l.subfunction_level == 0 <==> l.subfunction is None
    }
    &&& match subs {
        None => l.subfunction is None,
        Some(ss) => l.subfunction matches Some(k) ==> {
            &&& k < ss.len()
            &&& ss[k as int].addr_range.start <= l.static_addr < ss[k as int].addr_range.end
        },
    }
}

/// A source line record of `function`'s symbols marks address `a` as the start of a statement.
pub open spec fn statement_at(function: Option<(usize, &Symbols)>, a: usize) -> bool {
    match function {
        Some((_, s)) => exists|j: int| 0 <= j < s.lines@.len() && #[trigger] s.lines@[j].addr == a && s.lines@[j].is_statement,
        None => false,
    }
}

/// The source line of the nearest line-number line above line `i` in the same range: looking
/// up from line `i - 1`, the first line that is a source or call line gives its record; the
/// intro, a separator or the top of the listing give none.
pub open spec fn leaf_above(lines: Seq<DisassemblyLineInfo>, i: int) -> Option<LineInfo>
    decreases i,
{
    if i <= 0 || i > lines.len() {
        None
    } else {
        let l = lines[i - 1];
        if l.kind == DisassemblyLineKind::Separator || l.kind == DisassemblyLineKind::Intro {
            None
        } else if l.kind == DisassemblyLineKind::LeafLineNumber || l.kind
            == DisassemblyLineKind::InlinedCallLineNumber {
            l.leaf_line
        } else {
            leaf_above(lines, i - 1)
        }
    }
}

/// What line `i` of a listing says of source lines: an instruction or an inlined function's
/// name carries the source line nearest above it in its range; a source line's line carries a
/// record of `function`'s symbols with a known file, at or before its address; a call's line
/// carries, with a known file, the call line of the inlined call it opens (`entered_at`); other
/// lines carry none.
pub open spec fn line_leaf_ok(lines: Seq<DisassemblyLineInfo>, i: int, function: Option<(usize, &Symbols)>) -> bool {
    let l = lines[i];
    if l.kind == DisassemblyLineKind::Instruction || l.kind == DisassemblyLineKind::InlinedFunctionName {
        l.leaf_line == leaf_above(lines, i)
    } else if l.kind == DisassemblyLineKind::LeafLineNumber {
        l.leaf_line matches Some(rec) && rec.file_idx is Some && rec.addr <= l.static_addr && match function {
            Some((_, s)) => s.lines@.contains(rec),
            None => false,
        }
    } else if l.kind == DisassemblyLineKind::InlinedCallLineNumber {
        l.leaf_line matches Some(rec) && rec.file_idx is Some && match function {
            Some((f, s)) => match entered_at(shard_subfunctions(*s, f as int), s.functions@[f as int].subfunction_levels@, l) {
                Some(k) => k < shard_subfunctions(*s, f as int).len() && shard_subfunctions(*s, f as int)[k as int].call_line
                    == rec,
                None => false,
            },
            None => false,
        }
    } else {
        l.leaf_line is None
    }
}

/// Every line of `lines` says what it should of source lines.
pub open spec fn leaves_fit(lines: Seq<DisassemblyLineInfo>, function: Option<(usize, &Symbols)>) -> bool {
    forall|i: int| 0 <= i < lines.len() ==> #[trigger] line_leaf_ok(lines, i, function)
}

/// The source line above line `i` does not change as lines are added after it.
pub(crate) proof fn lemma_leaf_above_prefix(s: Seq<DisassemblyLineInfo>, t: Seq<DisassemblyLineInfo>, i: int)
    requires
        s.len() <= t.len(),
        t.take(s.len() as int) == s,
        0 <= i <= s.len(),
    ensures
        leaf_above(t, i) == leaf_above(s, i),
    decreases i,
{
    if i > 0 {
        assert(t[i - 1] == t.take(s.len() as int)[i - 1]);
        lemma_leaf_above_prefix(s, t, i - 1);
    }
}

/// A line that says what it should of source lines keeps them all fitting, and gives the
/// source line above the next line.
pub(crate) proof fn lemma_leaves_push(s: Seq<DisassemblyLineInfo>, x: DisassemblyLineInfo, function: Option<(usize, &Symbols)>)
    requires
        leaves_fit(s, function),
        line_leaf_ok(s.push(x), s.len() as int, function),
    ensures
        leaves_fit(s.push(x), function),
        leaf_above(s.push(x), s.len() + 1int) == if x.kind == DisassemblyLineKind::Separator || x.kind
            == DisassemblyLineKind::Intro {
            None
        } else if x.kind == DisassemblyLineKind::LeafLineNumber || x.kind
            == DisassemblyLineKind::InlinedCallLineNumber {
            x.leaf_line
        } else {
            leaf_above(s, s.len() as int)
        },
{
    let t = s.push(x);
    assert(t.take(s.len() as int) =~= s);
    assert forall|i: int| 0 <= i < t.len() implies #[trigger] line_leaf_ok(t, i, function) by {
        if i < s.len() {
            assert(line_leaf_ok(s, i, function));
            assert(t[i] == s[i]);
            lemma_leaf_above_prefix(s, t, i);
        }
    }
    lemma_leaf_above_prefix(s, t, s.len() as int);
}

/// Each instruction line is the last line at its address: every later line lies further on.
pub open spec fn instructions_alone(lines: Seq<DisassemblyLineInfo>) -> bool {
    forall|i: int, j: int|
        0 <= i < j < lines.len() && #[trigger] lines[i].kind == DisassemblyLineKind::Instruction
            ==> lines[i].static_addr < #[trigger] lines[j].static_addr
}

/// Every instruction line of `lines` lies before address `a`.
pub open spec fn instructions_before(lines: Seq<DisassemblyLineInfo>, a: int) -> bool {
    forall|i: int|
        0 <= i < lines.len() && #[trigger] lines[i].kind == DisassemblyLineKind::Instruction
            ==> lines[i].static_addr < a
}

/// An instruction pushed after annotation lines at its own address keeps instructions alone
/// at their addresses.
proof fn lemma_alone_extended(
    before: Seq<DisassemblyLineInfo>,
    mid: Seq<DisassemblyLineInfo>,
    after: Seq<DisassemblyLineInfo>,
    line: DisassemblyLineInfo,
    a: usize,
)
    requires
        before.len() <= mid.len(),
        mid.take(before.len() as int) == before,
        annotation_lines_at(mid, before.len() as int, a),
        after == mid.push(line),
        line.static_addr == a,
        instructions_alone(before),
        instructions_before(before, a as int),
    ensures
        instructions_alone(after),
        instructions_before(after, a + 1),
{
    lemma_extended(before, mid, after, line, a);
    assert forall|i: int, j: int|
        0 <= i < j < after.len() && #[trigger] after[i].kind == DisassemblyLineKind::Instruction implies after[i].static_addr
            < #[trigger] after[j].static_addr by {
        assert(i < before.len()) by {
            if i >= before.len() {
                if i < mid.len() {
                    assert(after[i] == mid[i]);
                    assert(mid[i].static_addr == a);
                    assert(mid[i].kind != DisassemblyLineKind::Instruction);
                }
            }
        }
        assert(after[i] == before[i]);
        if j < before.len() {
            assert(after[j] == before[j]);
        } else {
            assert(after[j].static_addr == a);
        }
    }
    assert forall|i: int|
        0 <= i < after.len() && #[trigger] after[i].kind == DisassemblyLineKind::Instruction implies after[i].static_addr
            < a + 1 by {
        if i < before.len() {
            assert(after[i] == before[i]);
        } else {
            assert(after[i].static_addr == a);
        }
    }
}

/// Pushing a line adds it to what the listing shows of instructions where it is one.
pub(crate) proof fn lemma_instruction_views_push(s: Seq<DisassemblyLineInfo>, x: DisassemblyLineInfo)
    ensures
        instruction_views(s.push(x)) == if x.kind == DisassemblyLineKind::Instruction {
            instruction_views(s).push(line_instr_view(x))
        } else {
            instruction_views(s)
        },
{
    assert(s.push(x).drop_last() =~= s);
}

/// What a line-number line shows: the file name, then `:line` where the line is known, then
/// `:column` where that is known too.
pub open spec fn line_number_text(file: Seq<char>, line: LineInfo, palette: Palette) -> Seq<(Seq<char>, Style)> {
    let name = seq![(file, palette.disas_filename)];
    if line.line == 0 {
        name
    } else if line.column == 0 {
        name.push((seq![':'] + digits(line.line as nat, 10), palette.line_number))
    } else {
        name.push((seq![':'] + digits(line.line as nat, 10), palette.line_number)).push(
            (seq![':'] + digits(line.column as nat, 10), palette.column_number),
        )
    }
}

/// Text line `text`, after `prefix`, shows what `format` gives for the instruction at offset
/// `pos` of `code`, the code of range `r`.
pub open spec fn formatted<F: Fn(&[u8], usize, &Range<usize>) -> Vec<Span>>(
    format: &F,
    code: Seq<u8>,
    pos: usize,
    r: Range<usize>,
    prefix: Seq<(Seq<char>, Style)>,
    text: Vec<Span>,
) -> bool {
    exists|c: &[u8], v: Vec<Span>|
        #![trigger format.ensures((c, pos, &r), v)]
        c@ == code && format.ensures((c, pos, &r), v) && line_view(text@) == prefix + line_view(v@)
}

/// Each instruction line from `from` on shows what `format` gives for its own instruction, at its
/// offset in the code of its range (`owners[i - from]` for line `i`, with that code), after `carry`
/// where it is line `from`.
pub open spec fn instruction_texts_fit<F: Fn(&[u8], usize, &Range<usize>) -> Vec<Span>>(
    lines: Seq<DisassemblyLineInfo>,
    texts: Seq<Vec<Span>>,
    from: int,
    carry: Seq<(Seq<char>, Style)>,
    format: &F,
    owners: Seq<(Range<usize>, Seq<u8>)>,
) -> bool {
    forall|i: int|
        from <= i < lines.len() && #[trigger] lines[i].kind == DisassemblyLineKind::Instruction ==> formatted(
            format,
            owners[i - from].1,
            (lines[i].static_addr - owners[i - from].0.start) as usize,
            owners[i - from].0,
            if i == from {
                carry
            } else {
                Seq::empty()
            },
            texts[i],
        )
}

/// Instruction texts that fit from `n0` up to `l1`, and from there (after what `l1` left pending)
/// up to `l2`, fit from `n0` up to `l2`, their owners one after the other.
pub(crate) proof fn lemma_instruction_texts_chain<F: Fn(&[u8], usize, &Range<usize>) -> Vec<Span>>(
    l1: Seq<DisassemblyLineInfo>,
    t1: Seq<Vec<Span>>,
    pending1: Seq<(Seq<char>, Style)>,
    l2: Seq<DisassemblyLineInfo>,
    t2: Seq<Vec<Span>>,
    n0: int,
    carry: Seq<(Seq<char>, Style)>,
    format: &F,
    owners1: Seq<(Range<usize>, Seq<u8>)>,
    owners2: Seq<(Range<usize>, Seq<u8>)>,
)
    requires
        0 <= n0 <= l1.len() <= l2.len(),
        l1.len() == t1.len(),
        l2.len() == t2.len(),
        l2.take(l1.len() as int) == l1,
        t2.take(t1.len() as int) == t1,
        owners1.len() == l1.len() - n0,
        owners2.len() == l2.len() - l1.len(),
        instruction_texts_fit(l1, t1, n0, carry, format, owners1),
        l1.len() == n0 ==> pending1 == carry,
        l1.len() > n0 ==> pending1 == Seq::<(Seq<char>, Style)>::empty(),
        instruction_texts_fit(l2, t2, l1.len() as int, pending1, format, owners2),
    ensures
        instruction_texts_fit(l2, t2, n0, carry, format, owners1 + owners2),
{
    let owners = owners1 + owners2;
    assert forall|i: int| n0 <= i < l2.len() && #[trigger] l2[i].kind == DisassemblyLineKind::Instruction implies formatted(
        format,
        owners[i - n0].1,
        (l2[i].static_addr - owners[i - n0].0.start) as usize,
        owners[i - n0].0,
        if i == n0 {
            carry
        } else {
            Seq::empty()
        },
        t2[i],
    ) by {
        if i < l1.len() {
            assert(l2[i] == l2.take(l1.len() as int)[i]);
            assert(t2[i] == t2.take(t1.len() as int)[i]);
            assert(l1[i].kind == DisassemblyLineKind::Instruction);
            assert(owners[i - n0] == owners1[i - n0]);
        } else {
            assert(owners[i - n0] == owners2[i - l1.len()]);
        }
    }
}

/// Annotation lines, then an instruction line whose text is what `format` gave for that
/// instruction (at offset `pos` of `code`, the code of range `r`), keep the instruction texts of
/// a range fitting.
pub(crate) proof fn lemma_instruction_text_step<F: Fn(&[u8], usize, &Range<usize>) -> Vec<Span>>(
    before: Seq<DisassemblyLineInfo>,
    tb: Seq<Vec<Span>>,
    pending_before: Seq<(Seq<char>, Style)>,
    mid: Seq<DisassemblyLineInfo>,
    tm: Seq<Vec<Span>>,
    pending_mid: Seq<(Seq<char>, Style)>,
    x: DisassemblyLineInfo,
    y: Vec<Span>,
    n0: int,
    carry: Seq<(Seq<char>, Style)>,
    format: &F,
    r: Range<usize>,
    code: Seq<u8>,
    c: &[u8],
    pos: usize,
    v: Vec<Span>,
)
    requires
        0 <= n0 <= before.len() <= mid.len(),
        before.len() == tb.len(),
        mid.len() == tm.len(),
        mid.take(before.len() as int) == before,
        tm.take(tb.len() as int) == tb,
        forall|i: int| before.len() <= i < mid.len() ==> #[trigger] mid[i].kind != DisassemblyLineKind::Instruction,
        instruction_texts_fit(before, tb, n0, carry, format, Seq::new((before.len() - n0) as nat, |j: int| (r, code))),
        before.len() == n0 ==> pending_before == carry,
        before.len() > n0 ==> pending_before == Seq::<(Seq<char>, Style)>::empty(),
        mid.len() == before.len() ==> pending_mid == pending_before,
        mid.len() > before.len() ==> pending_mid == Seq::<(Seq<char>, Style)>::empty(),
        c@ == code,
        format.ensures((c, pos, &r), v),
        x.static_addr - r.start == pos,
        line_view(y@) == pending_mid + line_view(v@),
    ensures
        instruction_texts_fit(
            mid.push(x),
            tm.push(y),
            n0,
            carry,
            format,
            Seq::new((mid.len() + 1 - n0) as nat, |j: int| (r, code)),
        ),
{
    let after = mid.push(x);
    let ta = tm.push(y);
    let owners = Seq::new((mid.len() + 1 - n0) as nat, |j: int| (r, code));
    assert forall|i: int| n0 <= i < after.len() && #[trigger] after[i].kind == DisassemblyLineKind::Instruction implies formatted(
        format,
        owners[i - n0].1,
        (after[i].static_addr - owners[i - n0].0.start) as usize,
        owners[i - n0].0,
        if i == n0 {
            carry
        } else {
            Seq::empty()
        },
        ta[i],
    ) by {
        if i < before.len() {
            assert(after[i] == mid[i]);
            assert(mid[i] == mid.take(before.len() as int)[i]);
            assert(ta[i] == tm[i]);
            assert(tm[i] == tm.take(tb.len() as int)[i]);
            assert(before[i].kind == DisassemblyLineKind::Instruction);
        } else if i < mid.len() {
            assert(after[i] == mid[i]);
        } else {
            assert(ta[i] == y);
            let pre = if i == n0 {
                carry
            } else {
                Seq::<(Seq<char>, Style)>::empty()
            };
            assert(pending_mid == pre);
            assert(after[i] == x);
            assert(c@ == code && format.ensures((c, pos, &r), v) && line_view(y@) == pre + line_view(v@));
        }
    }
}

/// A line that is no instruction keeps the instruction texts fitting.
pub(crate) proof fn lemma_instruction_texts_push_other<F: Fn(&[u8], usize, &Range<usize>) -> Vec<Span>>(
    l: Seq<DisassemblyLineInfo>,
    t: Seq<Vec<Span>>,
    x: DisassemblyLineInfo,
    y: Vec<Span>,
    n0: int,
    carry: Seq<(Seq<char>, Style)>,
    format: &F,
    owners: Seq<(Range<usize>, Seq<u8>)>,
)
    requires
        0 <= n0,
        l.len() == t.len(),
        instruction_texts_fit(l, t, n0, carry, format, owners),
        x.kind != DisassemblyLineKind::Instruction,
    ensures
        instruction_texts_fit(l.push(x), t.push(y), n0, carry, format, owners),
{
    assert forall|i: int| n0 <= i < l.len() + 1 && #[trigger] l.push(x)[i].kind == DisassemblyLineKind::Instruction implies formatted(
        format,
        owners[i - n0].1,
        (l.push(x)[i].static_addr - owners[i - n0].0.start) as usize,
        owners[i - n0].0,
        if i == n0 {
            carry
        } else {
            Seq::empty()
        },
        t.push(y)[i],
    ) by {
        if i < l.len() {
            assert(l.push(x)[i] == l[i]);
            assert(t.push(y)[i] == t[i]);
        } else {
            assert(l.push(x)[i] == x);
        }
    }
}

/// The text of the line that parts one address range from the next.
pub open spec fn separator_text(palette: Palette) -> Seq<(Seq<char>, Style)> {
    seq![("──────────"@, palette.disas_default)]
}

/// The name that the line of an inlined call shows: the inlined function's name, or `?` where
/// it is unknown.
pub open spec fn callee_name(s: Symbols, sub: Subfunction) -> Seq<char> {
    if sub.callee_idx == usize::MAX {
        "?"@
    } else {
        s.functions@[sub.callee_idx as int].name@
    }
}

/// Line `j` of `lines` is the name line of an inlined call (of `subs`, walked by `levels`) whose
/// identity is `id`.
pub open spec fn names_identity(
    lines: Seq<DisassemblyLineInfo>,
    j: int,
    subs: Seq<Subfunction>,
    levels: Seq<Range<usize>>,
    id: u32,
) -> bool {
    &&& lines[j].kind == DisassemblyLineKind::InlinedFunctionName
    &&& entered_at(subs, levels, lines[j]) matches Some(k) && k < subs.len() && subs[k as int].identity == id
}

/// A name line before line `i` is for an inlined call whose identity is `id`.
pub open spec fn identity_named_before(
    lines: Seq<DisassemblyLineInfo>,
    i: int,
    subs: Seq<Subfunction>,
    levels: Seq<Range<usize>>,
    id: u32,
) -> bool {
    exists|j: int| 0 <= j < i && #[trigger] names_identity(lines, j, subs, levels, id)
}

/// The identities in `seen` are those of the inlined calls named by the lines of `lines`.
pub open spec fn seen_fits(
    seen: Set<u32>,
    lines: Seq<DisassemblyLineInfo>,
    subs: Seq<Subfunction>,
    levels: Seq<Range<usize>>,
) -> bool {
    forall|id: u32| #[trigger] seen.contains(id) == identity_named_before(lines, lines.len() as int, subs, levels, id)
}

/// The text that line `i` of a listing shows, where it is fixed by what the line stands for:
/// a source or call line shows its record's place in the source; an inlined function's name
/// line shows the function's name, followed by ` [cont]` where a piece of the same inlined call
/// was named before; a separator shows a rule. Other lines get theirs elsewhere.
pub open spec fn expected_text(
    lines: Seq<DisassemblyLineInfo>,
    i: int,
    function: Option<(usize, &Symbols)>,
    palette: Palette,
) -> Option<Seq<(Seq<char>, Style)>> {
    let l = lines[i];
    if l.kind == DisassemblyLineKind::Separator {
        Some(separator_text(palette))
    } else {
        match function {
            None => None,
            Some((f, s)) => if l.kind == DisassemblyLineKind::LeafLineNumber || l.kind
                == DisassemblyLineKind::InlinedCallLineNumber {
                match l.leaf_line {
                    Some(rec) => match rec.file_idx {
                        Some(fi) => Some(line_number_text(s.files@[fi as int]@, rec, palette)),
                        None => None,
                    },
                    None => None,
                }
            } else if l.kind == DisassemblyLineKind::InlinedFunctionName {
                let subs = shard_subfunctions(*s, f as int);
                let levels = s.functions@[f as int].subfunction_levels@;
                match entered_at(subs, levels, l) {
                    Some(k) => {
                        let sub = subs[k as int];
                        let cont = if identity_named_before(lines, i, subs, levels, sub.identity) {
                            seq![(" [cont]"@, palette.default_dim)]
                        } else {
                            Seq::empty()
                        };
                        Some(seq![(callee_name(*s, sub), palette.default_dim)] + cont)
                    },
                    None => None,
                }
            } else {
                None
            },
        }
    }
}

/// Line `i` shows the text expected of it, after `carry` where it is line `from`, the first
/// written after text `carry` was left pending.
pub open spec fn text_ok(
    lines: Seq<DisassemblyLineInfo>,
    texts: Seq<Vec<Span>>,
    i: int,
    from: int,
    carry: Seq<(Seq<char>, Style)>,
    function: Option<(usize, &Symbols)>,
    palette: Palette,
) -> bool {
    expected_text(lines, i, function, palette) matches Some(t) ==> line_view(texts[i]@) == (if i == from {
        carry
    } else {
        Seq::empty()
    }) + t
}

/// The lines from `from` on show the text expected of them.
pub open spec fn texts_fit(
    lines: Seq<DisassemblyLineInfo>,
    texts: Seq<Vec<Span>>,
    from: int,
    carry: Seq<(Seq<char>, Style)>,
    function: Option<(usize, &Symbols)>,
    palette: Palette,
) -> bool {
    forall|i: int| from <= i < lines.len() ==> #[trigger] text_ok(lines, texts, i, from, carry, function, palette)
}

/// The text expected of a line does not change as lines are added after it.
proof fn lemma_expected_text_prefix(
    s: Seq<DisassemblyLineInfo>,
    t: Seq<DisassemblyLineInfo>,
    i: int,
    function: Option<(usize, &Symbols)>,
    palette: Palette,
)
    requires
        s.len() <= t.len(),
        t.take(s.len() as int) == s,
        0 <= i < s.len(),
    ensures
        expected_text(t, i, function, palette) == expected_text(s, i, function, palette),
{
    assert(t[i] == s[i]);
    assert forall|subs: Seq<Subfunction>, levels: Seq<Range<usize>>, id: u32| identity_named_before(
        t,
        i,
        subs,
        levels,
        id,
    ) == identity_named_before(s, i, subs, levels, id) by {
        lemma_named_before_prefix(s, t, i, subs, levels, id);
    }
}

/// Whether an inlined call was named before line `i` does not change as lines are added after it.
pub(crate) proof fn lemma_named_before_prefix(
    s: Seq<DisassemblyLineInfo>,
    t: Seq<DisassemblyLineInfo>,
    i: int,
    subs: Seq<Subfunction>,
    levels: Seq<Range<usize>>,
    id: u32,
)
    requires
        s.len() <= t.len(),
        t.take(s.len() as int) == s,
        0 <= i <= s.len(),
    ensures
        identity_named_before(t, i, subs, levels, id) == identity_named_before(s, i, subs, levels, id),
{
    if identity_named_before(t, i, subs, levels, id) {
        let j = choose|j: int| 0 <= j < i && #[trigger] names_identity(t, j, subs, levels, id);
        assert(t[j] == t.take(s.len() as int)[j]);
        assert(names_identity(s, j, subs, levels, id));
    }
    if identity_named_before(s, i, subs, levels, id) {
        let j = choose|j: int| 0 <= j < i && #[trigger] names_identity(s, j, subs, levels, id);
        assert(t[j] == t.take(s.len() as int)[j]);
        assert(names_identity(t, j, subs, levels, id));
    }
}

/// Lines that are no name lines leave the identities named as they were.
pub(crate) proof fn lemma_named_unchanged(
    s: Seq<DisassemblyLineInfo>,
    t: Seq<DisassemblyLineInfo>,
    subs: Seq<Subfunction>,
    levels: Seq<Range<usize>>,
    id: u32,
)
    requires
        s.len() <= t.len(),
        t.take(s.len() as int) == s,
        forall|i: int| s.len() <= i < t.len() ==> #[trigger] t[i].kind != DisassemblyLineKind::InlinedFunctionName,
    ensures
        identity_named_before(t, t.len() as int, subs, levels, id) == identity_named_before(
            s,
            s.len() as int,
            subs,
            levels,
            id,
        ),
{
    lemma_named_before_prefix(s, t, s.len() as int, subs, levels, id);
    if identity_named_before(t, t.len() as int, subs, levels, id) {
        let j = choose|j: int| 0 <= j < t.len() && #[trigger] names_identity(t, j, subs, levels, id);
        assert(j < s.len());
    }
}

/// Texts that fit from `n0` up to `d1`, and from there (after what `d1` left pending) up to
/// `d2`, fit from `n0` up to `d2`.
pub(crate) proof fn lemma_texts_chain(
    l1: Seq<DisassemblyLineInfo>,
    t1: Seq<Vec<Span>>,
    pending1: Seq<(Seq<char>, Style)>,
    l2: Seq<DisassemblyLineInfo>,
    t2: Seq<Vec<Span>>,
    n0: int,
    carry: Seq<(Seq<char>, Style)>,
    function: Option<(usize, &Symbols)>,
    palette: Palette,
)
    requires
        0 <= n0 <= l1.len() <= l2.len(),
        l1.len() == t1.len(),
        l2.len() == t2.len(),
        l2.take(l1.len() as int) == l1,
        t2.take(t1.len() as int) == t1,
        texts_fit(l1, t1, n0, carry, function, palette),
        l1.len() == n0 ==> pending1 == carry,
        l1.len() > n0 ==> pending1 == Seq::<(Seq<char>, Style)>::empty(),
        texts_fit(l2, t2, l1.len() as int, pending1, function, palette),
    ensures
        texts_fit(l2, t2, n0, carry, function, palette),
{
    assert forall|i: int| n0 <= i < l2.len() implies #[trigger] text_ok(l2, t2, i, n0, carry, function, palette) by {
        if i < l1.len() {
            assert(text_ok(l1, t1, i, n0, carry, function, palette));
            lemma_expected_text_prefix(l1, l2, i, function, palette);
            assert(t2[i] == t1[i]);
        } else {
            assert(text_ok(l2, t2, i, l1.len() as int, pending1, function, palette));
        }
    }
}

/// A line for which no text is fixed keeps the texts fitting.
pub(crate) proof fn lemma_texts_push_free(
    l: Seq<DisassemblyLineInfo>,
    t: Seq<Vec<Span>>,
    x: DisassemblyLineInfo,
    y: Vec<Span>,
    n0: int,
    carry: Seq<(Seq<char>, Style)>,
    function: Option<(usize, &Symbols)>,
    palette: Palette,
)
    requires
        0 <= n0 <= l.len(),
        l.len() == t.len(),
        texts_fit(l, t, n0, carry, function, palette),
        expected_text(l.push(x), l.len() as int, function, palette) is None,
    ensures
        texts_fit(l.push(x), t.push(y), n0, carry, function, palette),
{
    assert(l.push(x).take(l.len() as int) =~= l);
    assert forall|i: int| n0 <= i < l.len() + 1 implies #[trigger] text_ok(
        l.push(x),
        t.push(y),
        i,
        n0,
        carry,
        function,
        palette,
    ) by {
        if i < l.len() {
            assert(text_ok(l, t, i, n0, carry, function, palette));
            lemma_expected_text_prefix(l, l.push(x), i, function, palette);
            assert(t.push(y)[i] == t[i]);
        }
    }
}

/// The lines of `lines` from index `from` on are all at address `a`, and none is an instruction.
pub open spec fn annotation_lines_at(lines: Seq<DisassemblyLineInfo>, from: int, a: usize) -> bool {
    forall|i: int|
        from <= i < lines.len() ==> #[trigger] lines[i].static_addr == a && lines[i].kind
            != DisassemblyLineKind::Instruction && lines[i].kind != DisassemblyLineKind::Error
            && !lines[i].is_statement
}

/// A line is marked as a statement's start exactly where it is an instruction at an address
/// that a source line record marks so.
pub open spec fn line_statement_ok(l: DisassemblyLineInfo, function: Option<(usize, &Symbols)>) -> bool {
    l.is_statement == (l.kind == DisassemblyLineKind::Instruction && statement_at(function, l.static_addr))
}

/// Every line of `lines` is marked as a statement's start exactly where it should be.
pub open spec fn statements_fit(lines: Seq<DisassemblyLineInfo>, function: Option<(usize, &Symbols)>) -> bool {
    forall|i: int| 0 <= i < lines.len() ==> line_statement_ok(#[trigger] lines[i], function)
}

/// No line of `lines` is an error line.
pub open spec fn no_error_lines(lines: Seq<DisassemblyLineInfo>) -> bool {
    forall|i: int| 0 <= i < lines.len() ==> #[trigger] lines[i].kind != DisassemblyLineKind::Error
}

/// The nesting level and inlined call for an instruction at `a`: level 0 exactly where there is
/// no call, and a call of `subs` that holds `a`.
pub open spec fn nesting_fits(level: u16, sub: Option<usize>, subs: Seq<Subfunction>, a: usize) -> bool {
    &&& (level == 0 <==> sub is None)
    &&& sub matches Some(k) ==> {
        &&& k < subs.len()
        &&& subs[k as int].addr_range.start <= a < subs[k as int].addr_range.end
    }
}

/// What a line says, leaving out what other clauses fix: an instruction's offset, arrow,
/// branch target and statement mark, and the source line that a line other than a source or
/// call line carries along.
pub open spec fn shape(l: DisassemblyLineInfo) -> DisassemblyLineInfo {
    let instr = l.kind == DisassemblyLineKind::Instruction;
    DisassemblyLineInfo {
        relative_addr: if instr {
            0
        } else {
            l.relative_addr
        },
        jump_indicator: if instr {
            ' '
        } else {
            l.jump_indicator
        },
        jump_target: if instr {
            None
        } else {
            l.jump_target
        },
        is_statement: false,
        leaf_line: if l.kind == DisassemblyLineKind::LeafLineNumber || l.kind
            == DisassemblyLineKind::InlinedCallLineNumber {
            l.leaf_line
        } else {
            None
        },
        ..l
    }
}

/// What the lines of `lines` say, as `shape` keeps it.
pub open spec fn shapes(lines: Seq<DisassemblyLineInfo>) -> Seq<DisassemblyLineInfo> {
    lines.map_values(|l: DisassemblyLineInfo| shape(l))
}

/// A line of kind `kind` at address `a`, nested at `level` in inlined call `sub`, carrying
/// source line `leaf`, with nothing else set.
pub open spec fn plain_line(
    kind: DisassemblyLineKind,
    a: usize,
    level: u16,
    sub: Option<usize>,
    leaf: Option<LineInfo>,
) -> DisassemblyLineInfo {
    DisassemblyLineInfo { kind, static_addr: a, subfunction_level: level, subfunction: sub, leaf_line: leaf, ..default_line() }
}

/// What lines from `n0` on say splits where `s` ends and `t` goes on.
pub(crate) proof fn lemma_shapes_split(s: Seq<DisassemblyLineInfo>, t: Seq<DisassemblyLineInfo>, n0: int)
    requires
        0 <= n0 <= s.len() <= t.len(),
        t.take(s.len() as int) == s,
    ensures
        shapes(t.skip(n0)) == shapes(s.skip(n0)) + shapes(t.skip(s.len() as int)),
{
    assert(t.skip(n0) =~= s.skip(n0) + t.skip(s.len() as int)) by {
        assert forall|i: int| 0 <= i < s.len() - n0 implies t.skip(n0)[i] == s.skip(n0)[i] by {
            assert(t[n0 + i] == t.take(s.len() as int)[n0 + i]);
        }
    }
    assert(shapes(t.skip(n0)) =~= shapes(s.skip(n0)) + shapes(t.skip(s.len() as int)));
}

/// The inlined calls that the lines of a listing may refer to: none without symbols.
pub open spec fn subs_of(function: Option<(usize, &Symbols)>) -> Option<Seq<Subfunction>> {
    match function {
        Some((f, s)) => Some(shard_subfunctions(*s, f as int)),
        None => None,
    }
}

/// Pushing an instruction's line after the annotation lines written for it keeps what the
/// listing's lines owe: order, instructions alone at their addresses, no error lines, statement
/// marks, nesting and source lines; and it leaves the lines from `n0` on within `lo..hi`.
pub(crate) proof fn lemma_instruction_listed(
    before: Seq<DisassemblyLineInfo>,
    mid: Seq<DisassemblyLineInfo>,
    line: DisassemblyLineInfo,
    function: Option<(usize, &Symbols)>,
    n0: int,
    lo: int,
    hi: int,
)
    requires
        before.len() <= mid.len(),
        mid.take(before.len() as int) == before,
        annotation_lines_at(mid, before.len() as int, line.static_addr),
        line.kind == DisassemblyLineKind::Instruction,
        lines_sorted(before),
        before.len() > 0 ==> before.last().static_addr <= line.static_addr,
        instructions_alone(before),
        instructions_before(before, line.static_addr as int),
        no_error_lines(before),
        statements_fit(before, function),
        line.is_statement == statement_at(function, line.static_addr),
        annotations_fit(mid, subs_of(function)),
        line_nesting_ok(line, subs_of(function)),
        leaves_fit(mid, function),
        line.leaf_line == leaf_above(mid, mid.len() as int),
        0 <= n0 <= before.len(),
        forall|i: int| n0 <= i < before.len() ==> lo <= #[trigger] before[i].static_addr < hi,
        lo <= line.static_addr < hi,
    ensures
        lines_sorted(mid.push(line)),
        instructions_alone(mid.push(line)),
        instructions_before(mid.push(line), line.static_addr + 1),
        no_error_lines(mid.push(line)),
        statements_fit(mid.push(line), function),
        annotations_fit(mid.push(line), subs_of(function)),
        leaves_fit(mid.push(line), function),
        leaf_above(mid.push(line), mid.len() + 1int) == line.leaf_line,
        mid.push(line).take(n0) == before.take(n0),
        forall|i: int| n0 <= i < mid.len() + 1 ==> lo <= #[trigger] mid.push(line)[i].static_addr < hi,
{
    let a = line.static_addr;
    let after = mid.push(line);
    lemma_extended(before, mid, after, line, a);
    lemma_alone_extended(before, mid, after, line, a);
    lemma_annotations_push(mid, line, subs_of(function));
    assert(after.take(mid.len() as int) =~= mid);
    lemma_leaf_above_prefix(mid, after, mid.len() as int);
    lemma_leaves_push(mid, line, function);
    assert(after.take(n0) =~= before.take(n0));
    assert forall|i: int| 0 <= i < after.len() implies #[trigger] after[i].kind != DisassemblyLineKind::Error
        && line_statement_ok(after[i], function) by {
        if i < before.len() {
            assert(after[i] == before[i]);
        } else if i < mid.len() {
            assert(after[i] == mid[i]);
            assert(mid[i].static_addr == a);
        }
    }
    assert forall|i: int, j: int| 0 <= i <= j < after.len() implies after[i].static_addr <= after[j].static_addr by {
        if j >= before.len() {
            assert(after[j].static_addr == a);
            if i < before.len() {
                assert(after[i] == before[i]);
                assert(before[i].static_addr <= before.last().static_addr);
            } else {
                assert(after[i].static_addr == a);
            }
        } else {
            assert(after[i] == before[i]);
            assert(after[j] == before[j]);
        }
    }
    assert forall|i: int| n0 <= i < mid.len() + 1 implies lo <= #[trigger] after[i].static_addr < hi by {
        if i < before.len() {
            assert(after[i] == before[i]);
        } else {
            assert(after[i].static_addr == a);
        }
    }
}

/// Lines added whose nesting fits keep the nesting of all lines fitting.
pub(crate) proof fn lemma_annotations_extended(
    before: Seq<DisassemblyLineInfo>,
    mid: Seq<DisassemblyLineInfo>,
    ss: Seq<Subfunction>,
)
    requires
        before.len() <= mid.len(),
        mid.take(before.len() as int) == before,
        annotations_fit(before, Some(ss)),
        forall|i: int| before.len() <= i < mid.len() ==> line_nesting_ok(#[trigger] mid[i], Some(ss)),
    ensures
        annotations_fit(mid, Some(ss)),
{
    assert forall|i: int| 0 <= i < mid.len() implies line_nesting_ok(#[trigger] mid[i], Some(ss)) by {
        if i < before.len() {
            assert(mid.take(before.len() as int)[i] == mid[i]);
            assert(line_nesting_ok(before[i], Some(ss)));
        }
    }
}

/// A line whose nesting fits keeps the nesting of all lines fitting.
proof fn lemma_annotations_push(lines: Seq<DisassemblyLineInfo>, line: DisassemblyLineInfo, subs: Option<Seq<Subfunction>>)
    requires
        annotations_fit(lines, subs),
        line_nesting_ok(line, subs),
    ensures
        annotations_fit(lines.push(line), subs),
{
    let l2 = lines.push(line);
    assert forall|i: int| 0 <= i < l2.len() implies line_nesting_ok(#[trigger] l2[i], subs) by {
        if i < lines.len() {
            assert(l2[i] == lines[i]);
        }
    }
}

/// After annotation lines and a line at address `a`, the earlier lines are as they were and
/// the new ones are at `a`.
proof fn lemma_extended(
    before: Seq<DisassemblyLineInfo>,
    mid: Seq<DisassemblyLineInfo>,
    after: Seq<DisassemblyLineInfo>,
    line: DisassemblyLineInfo,
    a: usize,
)
    requires
        before.len() <= mid.len(),
        mid.take(before.len() as int) == before,
        annotation_lines_at(mid, before.len() as int, a),
        after == mid.push(line),
        line.static_addr == a,
    ensures
        forall|k: int| 0 <= k < before.len() ==> after[k] == before[k],
        forall|k: int| before.len() <= k < after.len() ==> #[trigger] after[k].static_addr == a,
{
    assert forall|k: int| 0 <= k < before.len() implies after[k] == before[k] by {
        assert(after[k] == mid[k]);
        assert(mid.take(before.len() as int)[k] == mid[k]);
    }
    assert forall|k: int| before.len() <= k < after.len() implies #[trigger] after[k].static_addr == a by {
        if k < mid.len() {
            assert(after[k] == mid[k]);
            assert(mid[k].static_addr == a);
        }
    }
}

/// Lines that are not instructions leave what the listing shows of its instructions as it was.
pub(crate) proof fn lemma_views_unchanged(before: Seq<DisassemblyLineInfo>, after: Seq<DisassemblyLineInfo>, a: usize)
    requires
        before.len() <= after.len(),
        after.take(before.len() as int) == before,
        annotation_lines_at(after, before.len() as int, a),
    ensures
        instruction_views(after) == instruction_views(before),
    decreases after.len() - before.len(),
{
    if after.len() > before.len() {
        let shorter = after.drop_last();
        assert(shorter.take(before.len() as int) =~= before);
        assert forall|i: int| before.len() <= i < shorter.len() implies #[trigger] shorter[i].static_addr == a
            && shorter[i].kind != DisassemblyLineKind::Instruction by {
            assert(shorter[i] == after[i]);
            assert(after[i].static_addr == a);
        }
        lemma_views_unchanged(before, shorter, a);
        assert(after[after.len() - 1].static_addr == a);
        assert(after[after.len() - 1].kind != DisassemblyLineKind::Instruction);
    } else {
        assert(after =~= before);
    }
}

/// The line that stands for a line of the intro text.
pub open spec fn intro_line() -> DisassemblyLineInfo {
    DisassemblyLineInfo { kind: DisassemblyLineKind::Intro, static_addr: 0, ..default_line() }
}

/// The line that parts one address range from the next, at the address where the next starts.
pub open spec fn separator_line(r: Range<usize>) -> DisassemblyLineInfo {
    DisassemblyLineInfo { kind: DisassemblyLineKind::Separator, static_addr: r.start, ..default_line() }
}

/// Intro lines show no instructions.
pub(crate) proof fn lemma_intro_views(lines: Seq<DisassemblyLineInfo>)
    requires
        forall|i: int| 0 <= i < lines.len() ==> #[trigger] lines[i] == intro_line(),
    ensures
        instruction_views(lines) == Seq::<InstrView>::empty(),
    decreases lines.len(),
{
    if lines.len() > 0 {
        assert forall|i: int| 0 <= i < lines.drop_last().len() implies #[trigger] lines.drop_last()[i] == intro_line() by {
            assert(lines.drop_last()[i] == lines[i]);
        }
        lemma_intro_views(lines.drop_last());
        assert(lines[lines.len() - 1] == intro_line());
    }
}

/// A line that is no instruction and has no inlined function leaves what the listing shows of
/// its instructions as it was, and fits any inlined calls.
pub(crate) proof fn lemma_plain_push(before: Seq<DisassemblyLineInfo>, after: Seq<DisassemblyLineInfo>, subs: Option<Seq<Subfunction>>)
    requires
        after.len() == before.len() + 1,
        after.drop_last() == before,
        after.last().kind != DisassemblyLineKind::Instruction,
        !is_opening(after.last()),
        after.last().subfunction_level == 0,
        after.last().subfunction is None,
        annotations_fit(before, subs),
    ensures
        instruction_views(after) == instruction_views(before),
        annotations_fit(after, subs),
{
    assert(after =~= before.push(after.last()));
    lemma_instruction_views_push(before, after.last());
    lemma_annotations_push(before, after.last(), subs);
}

} // verus!
