//! The x86-64 instruction decoder, seen through the facts the listing logic reads.
use vstd::prelude::*;
use iced_x86::{Decoder, DecoderOptions, FlowControl, OpKind};

verus! {

#[verifier::external_type_specification]
#[verifier::external_body]
pub struct ExFlowControl(FlowControl);

#[verifier::external_type_specification]
#[verifier::external_body]
pub struct ExOpKind(OpKind);

/// The longest an x86 instruction can be, in bytes.
pub const MAX_X86_INSTRUCTION_BYTES: usize = 15;

/// How control leaves an instruction.
#[derive(Clone, Copy, PartialEq, Eq, Structural, Debug)]
pub enum FlowKind {
    Next,
    UnconditionalBranch,
    IndirectBranch,
    ConditionalBranch,
    Return,
    Call,
    IndirectCall,
    Interrupt,
    XbeginXabortXend,
    Exception,
}

/// The kind of an instruction's first operand, as far as branch targets go.
#[derive(Clone, Copy, PartialEq, Eq, Structural, Debug)]
pub enum FirstOperand {
    NearBranch16,
    NearBranch32,
    NearBranch64,
    Other,
}

/// What the listing logic reads of one decoded instruction.
#[derive(Clone, Copy, PartialEq, Eq, Structural, Debug)]
pub struct InstrFacts {
    pub ip: u64,
    pub len: usize,
    pub invalid: bool,
    pub flow: FlowKind,
    pub first_operand: FirstOperand,
    pub near_branch_target: u64,
}

/// The address that follows an instruction of `len` bytes at `ip`, wrapping around as the
/// decoder's own instruction pointer does.
pub open spec fn next_ip(ip: u64, len: usize) -> u64 {
    if ip + len > u64::MAX {
        (ip + len - 0x1_0000_0000_0000_0000int) as u64
    } else {
        (ip + len) as u64
    }
}

/// The address after an instruction of `len` bytes at `ip`.
pub fn advance_ip(ip: u64, len: usize) -> (r: u64)
    requires
        len <= 15,
    ensures
        r == next_ip(ip, len),
{
    ip.wrapping_add(len as u64)
}

/// The first instruction that iced-x86's 64-bit decoder, with no options, reads from
/// `bytes` when the first byte sits at address `ip`.
pub uninterp spec fn x86_64_decode(bytes: Seq<u8>, ip: u64) -> InstrFacts;

/// Decodes the instruction at offset `pos` of `code`, at address `ip`, with
/// `iced_x86::Decoder::with_ip(64, .., ip, DecoderOptions::NONE)` and `Decoder::decode`.
/// Claimed of it: the facts are those named by `x86_64_decode` of the bytes from `pos` on;
/// the instruction's address is `ip`; it is at least one byte long (a byte is available), at
/// most 15 bytes, and no longer than what remains of `code` (the decoder never reads past
/// `min(pos + 15, code.len())` and counts what it read, invalid encodings included).
#[verifier::external_body]
pub(crate) fn decode_at(code: &[u8], pos: usize, ip: u64) -> (d: InstrFacts)
    requires
        pos < code@.len(),
    ensures
        d == x86_64_decode(code@.skip(pos as int), ip),
        d.ip == ip,
        1 <= d.len <= 15,
        d.len <= code@.len() - pos,
{
    let raw = Decoder::with_ip(64, &code[pos..], ip, DecoderOptions::NONE).decode();
    InstrFacts {
        ip: raw.ip(),
        len: raw.len(),
        invalid: raw.is_invalid(),
        flow: flow_kind(raw.flow_control()),
        first_operand: first_operand(raw.op0_kind()),
        near_branch_target: raw.near_branch_target(),
    }
}

/// Tells the variants of `iced_x86::FlowControl` apart.
#[verifier::external_body]
fn flow_kind(f: FlowControl) -> FlowKind {
    match f {
        FlowControl::Next => FlowKind::Next,
        FlowControl::UnconditionalBranch => FlowKind::UnconditionalBranch,
        FlowControl::IndirectBranch => FlowKind::IndirectBranch,
        FlowControl::ConditionalBranch => FlowKind::ConditionalBranch,
        FlowControl::Return => FlowKind::Return,
        FlowControl::Call => FlowKind::Call,
        FlowControl::IndirectCall => FlowKind::IndirectCall,
        FlowControl::Interrupt => FlowKind::Interrupt,
        FlowControl::XbeginXabortXend => FlowKind::XbeginXabortXend,
        FlowControl::Exception => FlowKind::Exception,
    }
}

/// Tells the near-branch variants of `iced_x86::OpKind` apart from the others.
#[verifier::external_body]
fn first_operand(k: OpKind) -> FirstOperand {
    match k {
        OpKind::NearBranch16 => FirstOperand::NearBranch16,
        OpKind::NearBranch32 => FirstOperand::NearBranch32,
        OpKind::NearBranch64 => FirstOperand::NearBranch64,
        _ => FirstOperand::Other,
    }
}

} // verus!
