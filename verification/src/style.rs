//! Styled text, kept as lines of spans, and the palette that styles a listing.
use vstd::prelude::*;

verus! {

/// How a span of text is drawn: a colour the terminal front end understands, and whether it is
/// drawn bold.
#[derive(Clone, Copy, PartialEq, Eq, Structural, Debug)]
pub struct Style {
    pub color: u32,
    pub bold: bool,
}

/// A run of text drawn in one style.
pub struct Span {
    pub text: String,
    pub style: Style,
}

/// The styles of the parts of a disassembly listing.
pub struct Palette {
    pub error: Style,
    pub default_dim: Style,
    pub disas_default: Style,
    pub disas_filename: Style,
    pub line_number: Style,
    pub column_number: Style,
    pub disas_keyword: Style,
    pub disas_mnemonic: Style,
    pub disas_register: Style,
    pub disas_number: Style,
    pub disas_function: Style,
    /// The text that marks one level of inlined-function nesting, and its style.
    pub tree_indent: (String, Style),
}

/// Text made of finished lines of spans, and the spans of the line being written.
pub struct StyledText {
    pub lines: Vec<Vec<Span>>,
    pub current: Vec<Span>,
}

/// The width of a line: one column per character of its spans.
pub open spec fn spans_width(spans: Seq<Span>) -> nat
    decreases spans.len(),
{
    if spans.len() == 0 {
        0
    } else {
        spans_width(spans.drop_last()) + spans.last().text@.len()
    }
}

/// What a span shows: its characters, and its style.
pub open spec fn span_view(s: Span) -> (Seq<char>, Style) {
    (s.text@, s.style)
}

/// What a line shows.
pub open spec fn line_view(spans: Seq<Span>) -> Seq<(Seq<char>, Style)> {
    spans.map_values(|s: Span| span_view(s))
}

/// Makes a span of `text` in `style`.
pub fn make_span(text: &str, style: Style) -> (s: Span)
    ensures
        s.text@ == text@,
        s.style == style,
{
    Span { text: String::from_str(text), style }
}

impl StyledText {
    /// Text with no lines.
    pub fn new() -> (t: StyledText)
        ensures
            t.lines@.len() == 0,
            t.current@.len() == 0,
    {
        StyledText { lines: Vec::new(), current: Vec::new() }
    }

    /// The number of finished lines.
    pub fn num_lines(&self) -> (n: usize)
        ensures
            n == self.lines@.len(),
    {
        self.lines.len()
    }

    /// Appends `text` in `style` to the line being written.
    pub fn push_str(&mut self, text: &str, style: Style)
        ensures
            final(self).lines@ == old(self).lines@,
            final(self).current@.len() == old(self).current@.len() + 1,
            final(self).current@.drop_last() == old(self).current@,
            span_view(final(self).current@.last()) == (text@, style),
    {
        let s = make_span(text, style);
        self.current.push(s);
    }

    /// Appends the spans `spans` to the line being written.
    pub fn push_spans(&mut self, spans: Vec<Span>)
        ensures
            final(self).lines@ == old(self).lines@,
            final(self).current@ == old(self).current@ + spans@,
    {
        let mut spans = spans;
        self.current.append(&mut spans);
    }

    /// Finishes the line being written.
    pub fn close_line(&mut self)
        ensures
            final(self).lines@.len() == old(self).lines@.len() + 1,
            final(self).lines@.drop_last() == old(self).lines@,
            final(self).lines@.last()@ == old(self).current@,
            final(self).current@.len() == 0,
    {
        let mut line: Vec<Span> = Vec::new();
        std::mem::swap(&mut line, &mut self.current);
        self.lines.push(line);
    }

    /// The width of finished line `i`, saturated at `usize::MAX`.
    pub fn line_width(&self, i: usize) -> (w: usize)
        requires
            i < self.lines@.len(),
        ensures
            w == if spans_width(self.lines@[i as int]@) > usize::MAX {
                usize::MAX as nat
            } else {
                spans_width(self.lines@[i as int]@)
            },
    {
        let line = &self.lines[i];
        let mut w: usize = 0;
        let mut k: usize = 0;
        while k < line.len()
            invariant
                k <= line@.len(),
                w == if spans_width(line@.take(k as int)) > usize::MAX {
                    usize::MAX as nat
                } else {
                    spans_width(line@.take(k as int))
                },
            decreases line@.len() - k,
        {
            proof {
                assert(line@.take(k + 1).drop_last() =~= line@.take(k as int));
            }
            let n = line[k].text.as_str().unicode_len();
            w = w.saturating_add(n);
            k = k + 1;
        }
        proof {
            assert(line@.take(line@.len() as int) =~= line@);
        }
        w
    }
}

/// What a piece of formatted instruction text is.
#[derive(Clone, Copy, PartialEq, Eq, Structural, Debug)]
pub enum TextKind {
    Text,
    Directive,
    Prefix,
    Mnemonic,
    Keyword,
    Operator,
    Punctuation,
    Number,
    Register,
    Decorator,
    SelectorValue,
    LabelAddress,
    FunctionAddress,
    Data,
    Label,
    Function,
}

/// The palette's style for instruction text of kind `kind`: keywords and directives, mnemonics
/// and prefixes, registers, numbers and function names each have their own; all else is drawn
/// in the default disassembly style.
pub open spec fn kind_style(palette: Palette, kind: TextKind) -> Style {
    match kind {
        TextKind::Directive | TextKind::Keyword => palette.disas_keyword,
        TextKind::Prefix | TextKind::Mnemonic => palette.disas_mnemonic,
        TextKind::Register => palette.disas_register,
        TextKind::Number => palette.disas_number,
        TextKind::Function => palette.disas_function,
        _ => palette.disas_default,
    }
}

/// The style for instruction text of kind `kind`.
pub fn style_for_kind(palette: &Palette, kind: TextKind) -> (s: Style)
    ensures
        s == kind_style(*palette, kind),
{
    match kind {
        TextKind::Directive | TextKind::Keyword => palette.disas_keyword,
        TextKind::Prefix | TextKind::Mnemonic => palette.disas_mnemonic,
        TextKind::Register => palette.disas_register,
        TextKind::Number => palette.disas_number,
        TextKind::Function => palette.disas_function,
        _ => palette.disas_default,
    }
}

} // verus!
