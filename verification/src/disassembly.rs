//! A disassembled stretch of code: lines of text, and what each line stands for.
use crate::decoder::MAX_X86_INSTRUCTION_BYTES;
use crate::style::{line_view, spans_width, Palette, StyledText};
use crate::symbols::LineInfo;
use vstd::prelude::*;

verus! {

/// What a line of a listing shows.
#[derive(Clone, Copy, PartialEq, Eq, Structural, Debug)]
pub enum DisassemblyLineKind {
    Intro,
    InlinedCallLineNumber,
    InlinedFunctionName,
    LeafLineNumber,
    Instruction,
    Separator,
    Error,
}

/// What one line of the listing stands for.
#[derive(Clone, Copy, PartialEq, Eq, Structural, Debug)]
pub struct DisassemblyLineInfo {
    pub kind: DisassemblyLineKind,
    /// The address of the line's instruction, or of the next one; 0 for the intro and
    /// `usize::MAX` for an error. Never decreases from one line to the next.
    pub static_addr: usize,
    /// The instruction's offset from the start of its address range.
    pub relative_addr: isize,
    pub jump_indicator: char,
    pub jump_target: Option<usize>,
    pub is_statement: bool,
    /// The source line of the last line-number line at or before this one.
    pub leaf_line: Option<LineInfo>,
    /// The innermost inlined function holding this line (for a call line or an inlined
    /// function's name: the one around the call, if any; such a line's level is always at
    /// least 1).
    pub subfunction: Option<usize>,
    /// How deep `subfunction` is nested, 0 where there is none; the indentation level.
    pub subfunction_level: u16,
}

/// The line that `Default` gives: an error line at address 0, with nothing else set.
pub open spec fn default_line() -> DisassemblyLineInfo {
    DisassemblyLineInfo {
        kind: DisassemblyLineKind::Error,
        static_addr: 0,
        relative_addr: 0,
        jump_indicator: ' ',
        jump_target: None,
        is_statement: false,
        subfunction_level: 0,
        leaf_line: None,
        subfunction: None,
    }
}

impl Default for DisassemblyLineInfo {
    fn default() -> (l: Self)
        ensures
            l == default_line(),
    {
        DisassemblyLineInfo {
            kind: DisassemblyLineKind::Error,
            static_addr: 0,
            relative_addr: 0,
            jump_indicator: ' ',
            jump_target: None,
            is_statement: false,
            subfunction_level: 0,
            leaf_line: None,
            subfunction: None,
        }
    }
}

/// Why a listing stopped early.
#[derive(Clone, Copy, PartialEq, Eq, Structural, Debug)]
pub enum ErrorKind {
    /// An input that cannot be meant, such as a huge range.
    Sanity,
    /// Debug information that does not fit the executable.
    Dwarf,
}

/// An error, with the message that the listing shows for it.
pub struct Error {
    pub kind: ErrorKind,
    pub message: String,
}

/// A disassembled function or stretch of memory.
pub struct Disassembly {
    pub text: StyledText,
    /// One entry per line of `text`.
    pub lines: Vec<DisassemblyLineInfo>,
    /// The error that ended the listing, also shown as its last line.
    pub error: Option<Error>,
    pub max_abs_relative_addr: usize,
    /// The width of one level of inlined-function indentation.
    pub indent_width: usize,
    pub widest_line: usize,
    /// The symbols shard that `subfunction` indices refer to.
    pub symbols_shard: Option<usize>,
}

/// The addresses of `lines` never decrease, so that they can be searched by address.
pub open spec fn lines_sorted(lines: Seq<DisassemblyLineInfo>) -> bool {
    forall|i: int, j: int| 0 <= i <= j < lines.len() ==> lines[i].static_addr <= lines[j].static_addr
}

/// `p` splits `lines` into those at or before address `x` and those after it.
pub open spec fn splits_at(lines: Seq<DisassemblyLineInfo>, x: usize, p: int) -> bool {
    &&& 0 <= p <= lines.len()
    &&& forall|k: int| 0 <= k < p ==> lines[k].static_addr <= x
    &&& forall|k: int| p <= k < lines.len() ==> lines[k].static_addr > x
}

/// `x` saturated at `usize::MAX`.
pub open spec fn saturate(x: int) -> usize {
    if x > usize::MAX {
        usize::MAX
    } else if x < 0 {
        0
    } else {
        x as usize
    }
}

/// The magnitude of `r`.
pub open spec fn abs_isize(r: isize) -> nat {
    if r < 0 {
        (-r) as nat
    } else {
        r as nat
    }
}

/// How far line `i` reaches to the right: its indentation plus its text.
pub open spec fn line_extent(d: Disassembly, i: int) -> usize {
    saturate(d.lines@[i].subfunction_level * d.indent_width + spans_width(d.text.lines@[i]@))
}

/// `after` is `before` with the widest extent and the largest relative address brought up to
/// date over all lines, and nothing else changed.
pub open spec fn finished_from(before: Disassembly, after: Disassembly) -> bool {
    &&& after.text == before.text
    &&& after.lines == before.lines
    &&& after.error == before.error
    &&& after.indent_width == before.indent_width
    &&& after.symbols_shard == before.symbols_shard
    &&& before.widest_line <= after.widest_line
    &&& forall|i: int| 0 <= i < after.lines@.len() ==> line_extent(after, i) <= after.widest_line
    &&& (after.widest_line == before.widest_line || exists|i: int|
        0 <= i < after.lines@.len() && after.widest_line == line_extent(after, i))
    &&& before.max_abs_relative_addr <= after.max_abs_relative_addr
    &&& forall|i: int|
        0 <= i < after.lines@.len() ==> abs_isize(after.lines@[i].relative_addr) <= after.max_abs_relative_addr
    &&& (after.max_abs_relative_addr == before.max_abs_relative_addr || exists|i: int|
        0 <= i < after.lines@.len() && after.max_abs_relative_addr == abs_isize(
            after.lines@[i].relative_addr,
        ))
}

/// The line that ends a listing with an error.
pub open spec fn error_line() -> DisassemblyLineInfo {
    DisassemblyLineInfo { kind: DisassemblyLineKind::Error, static_addr: usize::MAX, ..default_line() }
}

/// The magnitude of `r`, which always fits in a `usize`.
fn abs_as_usize(r: isize) -> (a: usize)
    ensures
        a == abs_isize(r),
{
    if r < 0 {
        ((-(r + 1)) as usize) + 1
    } else {
        r as usize
    }
}

impl Disassembly {
    /// An empty listing, with an indentation one column wide.
    pub fn new() -> (d: Self)
        ensures
            d.text.lines@.len() == 0,
            d.text.current@.len() == 0,
            d.lines@.len() == 0,
            d.error is None,
            d.max_abs_relative_addr == 0,
            d.indent_width == 1,
            d.widest_line == 0,
            d.symbols_shard is None,
    {
        Self {
            text: StyledText::new(),
            lines: Vec::new(),
            error: None,
            max_abs_relative_addr: 0,
            indent_width: 1,
            widest_line: 0,
            symbols_shard: None,
        }
    }

    /// The number of lines at or before address `x`: where `x` would go in the listing.
    fn partition_point(&self, x: usize) -> (p: usize)
        requires
            lines_sorted(self.lines@),
        ensures
            splits_at(self.lines@, x, p as int),
    {
        let mut lo: usize = 0;
        let mut hi: usize = self.lines.len();
        while lo < hi
            invariant
                0 <= lo <= hi <= self.lines@.len(),
                lines_sorted(self.lines@),
                forall|k: int| 0 <= k < lo ==> self.lines@[k].static_addr <= x,
                forall|k: int| hi <= k < self.lines@.len() ==> self.lines@[k].static_addr > x,
            decreases hi - lo,
        {
            let mid = lo + (hi - lo) / 2;
            if self.lines[mid].static_addr <= x {
                lo = mid + 1;
            } else {
                hi = mid;
            }
        }
        lo
    }

    /// The instruction line at address `static_addr`: the last line at or before that address,
    /// where it is an instruction at exactly that address.
    pub fn static_addr_to_line(&self, static_addr: usize) -> (r: Option<usize>)
        requires
            lines_sorted(self.lines@),
        ensures
            match r {
                Some(i) => {
                    &&& splits_at(self.lines@, static_addr, i + 1)
                    &&& self.lines@[i as int].static_addr == static_addr
                    &&& self.lines@[i as int].kind == DisassemblyLineKind::Instruction
                },
                None => forall|p: int|
                    splits_at(self.lines@, static_addr, p) ==> {
                        ||| p == 0
                        ||| self.lines@[p - 1].static_addr != static_addr
                        ||| self.lines@[p - 1].kind != DisassemblyLineKind::Instruction
                    },
            },
    {
        let idx = self.partition_point(static_addr);
        proof {
            assert forall|p: int| splits_at(self.lines@, static_addr, p) implies p == idx by {
                if p < idx {
                    assert(self.lines@[p].static_addr > static_addr);
                } else if p > idx {
                    assert(self.lines@[idx as int].static_addr <= static_addr);
                }
            }
        }
        if idx > 0 && self.lines[idx - 1].static_addr == static_addr && self.lines[idx - 1].kind
            == DisassemblyLineKind::Instruction {
            Some(idx - 1)
        } else {
            None
        }
    }

    /// The line for `static_pseudo_addr`, which may fall between instructions: the last line at
    /// or before it (line 0 if there is none), and whether that line is an instruction that may
    /// cover the address (it starts less than a maximal instruction length before it).
    pub fn static_pseudo_addr_to_line(&self, static_pseudo_addr: usize) -> (r: (usize, bool))
        requires
            lines_sorted(self.lines@),
        ensures
            exists|p: int|
                #![trigger splits_at(self.lines@, static_pseudo_addr, p)]
                splits_at(self.lines@, static_pseudo_addr, p) && if p == 0 {
                    r == (0usize, false)
                } else {
                    let l = self.lines@[p - 1];
                    &&& r.0 == p - 1
                    &&& r.1 == (l.kind == DisassemblyLineKind::Instruction && l.static_addr
                        + MAX_X86_INSTRUCTION_BYTES > static_pseudo_addr)
                },
    {
        let idx = self.partition_point(static_pseudo_addr);
        if idx == 0 {
            return (0, false);
        }
        let l = &self.lines[idx - 1];
        if l.kind == DisassemblyLineKind::Instruction && static_pseudo_addr - l.static_addr
            < MAX_X86_INSTRUCTION_BYTES {
            (idx - 1, true)
        } else {
            (idx - 1, false)
        }
    }

    /// Ends the listing with error `e`: its message becomes a last line, drawn in the palette's
    /// error style, standing for an error line at address `usize::MAX`; then the listing is
    /// finished.
    pub fn with_error(self, e: Error, palette: &Palette) -> (d: Self)
        requires
            self.error is None,
            self.text.lines@.len() == self.lines@.len(),
        ensures
            d.text.lines@.len() == self.text.lines@.len() + 1,
            d.text.lines@.drop_last() == self.text.lines@,
            line_view(d.text.lines@.last()@) == line_view(self.text.current@) + seq![(e.message@, palette.error)],
            d.text.current@.len() == 0,
            d.lines@ == self.lines@.push(error_line()),
            d.error == Some(e),
            d.indent_width == self.indent_width,
            d.symbols_shard == self.symbols_shard,
            self.widest_line <= d.widest_line,
            self.max_abs_relative_addr <= d.max_abs_relative_addr,
            forall|i: int| 0 <= i < d.lines@.len() ==> line_extent(d, i) <= d.widest_line,
            forall|i: int|
                0 <= i < d.lines@.len() ==> abs_isize(d.lines@[i].relative_addr) <= d.max_abs_relative_addr,
            d.widest_line == self.widest_line || exists|i: int|
                0 <= i < d.lines@.len() && d.widest_line == line_extent(d, i),
            d.max_abs_relative_addr == self.max_abs_relative_addr || exists|i: int|
                0 <= i < d.lines@.len() && d.max_abs_relative_addr == abs_isize(d.lines@[i].relative_addr),
    {
        let mut d = self;
        let ghost cur0 = d.text.current@;
        d.text.push_str(e.message.as_str(), palette.error);
        proof {
            assert(d.text.current@ =~= cur0.push(d.text.current@.last()));
            assert(line_view(d.text.current@) =~= line_view(cur0) + seq![(e.message@, palette.error)]);
        }
        d.text.close_line();
        d.lines.push(DisassemblyLineInfo { kind: DisassemblyLineKind::Error, static_addr: usize::MAX, ..Default::default() });
        d.error = Some(e);
        d.finish()
    }

    /// Brings `widest_line` and `max_abs_relative_addr` up to date over all lines: the widest
    /// extent (indentation plus text width, saturated at `usize::MAX`) and the largest
    /// magnitude of a relative address, never lowering either.
    pub fn finish(self) -> (d: Self)
        requires
            self.text.lines@.len() == self.lines@.len(),
        ensures
            finished_from(self, d),
    {
        let mut d = self;
        let ghost before = d;
        let n = d.lines.len();
        let mut i: usize = 0;
        while i < n
            invariant
                n == d.lines@.len(),
                d.text.lines@.len() == n,
                i <= n,
                d.text == before.text,
                d.lines == before.lines,
                d.error == before.error,
                d.indent_width == before.indent_width,
                d.symbols_shard == before.symbols_shard,
                before.widest_line <= d.widest_line,
                forall|k: int| 0 <= k < i ==> line_extent(before, k) <= d.widest_line,
                d.widest_line == before.widest_line || exists|k: int|
                    0 <= k < i && d.widest_line == line_extent(before, k),
                before.max_abs_relative_addr <= d.max_abs_relative_addr,
                forall|k: int| 0 <= k < i ==> abs_isize(d.lines@[k].relative_addr) <= d.max_abs_relative_addr,
                d.max_abs_relative_addr == before.max_abs_relative_addr || exists|k: int|
                    0 <= k < i && d.max_abs_relative_addr == abs_isize(d.lines@[k].relative_addr),
            decreases n - i,
        {
            let level = d.lines[i].subfunction_level as usize;
            let width = d.text.line_width(i);
            let indent = match level.checked_mul(d.indent_width) {
                Some(m) => m,
                None => usize::MAX,
            };
            let extent = indent.saturating_add(width);
            proof {
                let w = spans_width(d.text.lines@[i as int]@);
                assert(line_extent(d, i as int) == line_extent(before, i as int));
                assert(extent == line_extent(d, i as int)) by (nonlinear_arith)
                    requires
                        level == d.lines@[i as int].subfunction_level,
                        width == saturate(w as int),
                        indent == saturate(level * d.indent_width),
                        extent == saturate(indent + width),
                        line_extent(d, i as int) == saturate(level * d.indent_width + w),
                        level >= 0,
                        d.indent_width >= 0,
                        w >= 0,
                {
                }
            }
            if extent > d.widest_line {
                d.widest_line = extent;
            }
            let a = abs_as_usize(d.lines[i].relative_addr);
            if a > d.max_abs_relative_addr {
                d.max_abs_relative_addr = a;
            }
            i = i + 1;
        }
        proof {
            assert forall|k: int| 0 <= k < n implies line_extent(d, k) == line_extent(before, k) by {}
        }
        d
    }
}

} // verus!
