//! Finding where an instruction starts in a stretch of code whose instruction boundaries are
//! unknown, by decoding from each plausible start.
use crate::decoder::{advance_ip, decode_at, next_ip, x86_64_decode, MAX_X86_INSTRUCTION_BYTES};
use vstd::prelude::*;

verus! {

/// The end of the address range that `code` occupies from `range_start` on, saturated.
pub open spec fn range_end_of(range_start: usize, code_len: nat) -> usize {
    if range_start + code_len > usize::MAX {
        usize::MAX
    } else {
        (range_start + code_len) as usize
    }
}

/// The smaller of `a` and `b`.
pub open spec fn min_usize(a: usize, b: usize) -> usize {
    if a <= b {
        a
    } else {
        b
    }
}

/// The larger of `a` and `b`.
pub open spec fn max_usize(a: usize, b: usize) -> usize {
    if a >= b {
        a
    } else {
        b
    }
}

/// `a + b`, saturated at `usize::MAX`.
pub open spec fn sat_add(a: usize, b: int) -> usize {
    if a + b > usize::MAX {
        usize::MAX
    } else {
        (a + b) as usize
    }
}

/// `a - b`, saturated at 0.
pub open spec fn sat_sub(a: usize, b: int) -> usize {
    if a - b < 0 {
        0
    } else {
        (a - b) as usize
    }
}

/// Decoding `code` from offset `pos`, the first instruction at address `ip`, one instruction
/// after the other: is an instruction that starts at `target` met before an invalid
/// instruction, the end of the code, or an instruction that starts past `target`?
pub open spec fn stream_reaches(code: Seq<u8>, pos: int, ip: u64, target: usize) -> bool
    decreases code.len() - pos,
{
    if pos < 0 || pos >= code.len() {
        false
    } else {
        let ins = x86_64_decode(code.skip(pos), ip);
        if ins.invalid || ins.len == 0 {
            false
        } else if ins.ip as usize == target {
            true
        } else if ins.ip as usize > target {
            false
        } else if pos + ins.len > code.len() {
            false
        } else {
            stream_reaches(code, pos + ins.len, next_ip(ip, ins.len), target)
        }
    }
}

/// The inputs that the search for a unique start accepts: the probe start and `ip` lie in the
/// code's address range, and the probe window is not empty.
pub open spec fn unique_probe_accepted(
    code_len: nat,
    range_start: usize,
    probe_start: usize,
    probe_len: usize,
    ip: usize,
) -> bool {
    let range_end = range_end_of(range_start, code_len);
    &&& range_start <= probe_start < range_end
    &&& probe_start <= ip < range_end
    &&& probe_len != 0
}

/// The last candidate start that the search for a unique start tries: at most one maximal
/// instruction length minus one past `probe_start`, and never past `ip` or the probe window.
pub open spec fn unique_last_candidate(
    code_len: nat,
    range_start: usize,
    probe_start: usize,
    probe_len: usize,
    ip: usize,
) -> usize {
    let range_end = range_end_of(range_start, code_len);
    let last_probe_start = min_usize(sat_add(probe_start, probe_len as int), (range_end - 1) as usize);
    let last_start = min_usize(ip, last_probe_start);
    min_usize(sat_add(probe_start, 14), last_start)
}

/// Decoding from candidate start `s` reaches `ip` as an instruction start.
pub open spec fn reaches_from(code: Seq<u8>, range_start: usize, s: usize, ip: usize) -> bool {
    stream_reaches(code, s - range_start, s as u64, ip)
}

/// `s` is the one candidate start, between `probe_start` and the last candidate, from which
/// decoding reaches `ip`.
pub open spec fn is_unique_start(
    code: Seq<u8>,
    range_start: usize,
    probe_start: usize,
    probe_len: usize,
    ip: usize,
    s: usize,
) -> bool {
    let last = unique_last_candidate(code.len(), range_start, probe_start, probe_len, ip);
    &&& unique_probe_accepted(code.len(), range_start, probe_start, probe_len, ip)
    &&& probe_start <= s <= last
    &&& reaches_from(code, range_start, s, ip)
    &&& forall|t: usize|
        probe_start <= t <= last && t != s ==> !#[trigger] reaches_from(code, range_start, t, ip)
}

/// Whether decoding from offset `pos` at address `ip` reaches an instruction at `target`.
fn reaches(code: &[u8], start_pos: usize, start_ip: u64, target: usize) -> (r: bool)
    ensures
        r == stream_reaches(code@, start_pos as int, start_ip, target),
{
    let mut pos = start_pos;
    let mut ip = start_ip;
    while pos < code.len()
        invariant
            stream_reaches(code@, pos as int, ip, target) == stream_reaches(
                code@,
                start_pos as int,
                start_ip,
                target,
            ),
        decreases code@.len() - pos,
    {
        let d = decode_at(code, pos, ip);
        if d.invalid || d.len == 0 {
            return false;
        }
        let instruction_start = d.ip as usize;
        if instruction_start == target {
            return true;
        }
        if instruction_start > target {
            return false;
        }
        ip = advance_ip(ip, d.len);
        pos = pos + d.len;
    }
    false
}

/// Finds the one candidate instruction stream start at or before `ip` from which decoding
/// reaches `ip` as the start of an instruction.
///
/// `ip` is taken to be a real instruction pointer. The candidates are the starts from
/// `probe_start` on, at most one maximal x86 instruction length away, never past `ip` nor past
/// `probe_start + probe_len`; `probe_len` bounds the window, and a caller that wants later starts
/// tried moves `probe_start`. Returns `None` when the inputs lie outside the code's range, when
/// no candidate reaches `ip`, or when two or more do.
pub fn find_unique_instruction_start_before_ip(
    code: &[u8],
    range_start: usize,
    probe_start: usize,
    probe_len: usize,
    ip: usize,
) -> (found: Option<usize>)
    ensures
        match found {
            Some(s) => is_unique_start(code@, range_start, probe_start, probe_len, ip, s),
            None => forall|s: usize| !is_unique_start(code@, range_start, probe_start, probe_len, ip, s),
        },
{
    let range_end = range_start.saturating_add(code.len());
    if probe_start < range_start || probe_start >= range_end || ip < probe_start || ip >= range_end
        || probe_len == 0 {
        return None;
    }
    let a = probe_start.saturating_add(probe_len);
    let last_probe_start = if a <= range_end - 1 { a } else { range_end - 1 };
    let last_start = if ip <= last_probe_start { ip } else { last_probe_start };
    if last_start < probe_start {
        return None;
    }
    let b = probe_start.saturating_add(MAX_X86_INSTRUCTION_BYTES - 1);
    let initial_last_start = if b <= last_start { b } else { last_start };
    let ghost last = unique_last_candidate(code@.len(), range_start, probe_start, probe_len, ip);
    assert(initial_last_start == last);
    let mut reached: Vec<bool> = Vec::new();
    let mut start = probe_start;
    while start <= initial_last_start
        invariant
            unique_probe_accepted(code@.len(), range_start, probe_start, probe_len, ip),
            initial_last_start == last,
            last < range_end_of(range_start, code@.len()),
            probe_start <= start <= last + 1,
            reached@.len() == start - probe_start,
            forall|j: int|
                0 <= j < reached@.len() ==> #[trigger] reached@[j] == reaches_from(
                    code@,
                    range_start,
                    (probe_start + j) as usize,
                    ip,
                ),
        decreases last + 1 - start,
    {
        let hit = reaches(code, start - range_start, start as u64, ip);
        reached.push(hit);
        start = start + 1;
    }
    let found = pick_unique_start(probe_start, &reached);
    proof {
        let n = reached@.len() as int;
        assert(n == last + 1 - probe_start);
        match found {
            Some(f) => {
                assert(reached@[f - probe_start] == reaches_from(code@, range_start, f, ip));
                assert forall|t: usize| probe_start <= t <= last && t != f implies !#[trigger] reaches_from(
                    code@,
                    range_start,
                    t,
                    ip,
                ) by {
                    assert(reached@[t - probe_start] == reaches_from(code@, range_start, t, ip));
                }
                assert(is_unique_start(code@, range_start, probe_start, probe_len, ip, f));
            },
            None => {
                assert forall|s: usize| !is_unique_start(code@, range_start, probe_start, probe_len, ip, s) by {
                    if is_unique_start(code@, range_start, probe_start, probe_len, ip, s) {
                        let i = s - probe_start;
                        assert(reached@[i] == reaches_from(code@, range_start, s, ip));
                        let j = choose|j: int| 0 <= j < n && j != i && reached@[j];
                        assert(reached@[j] == reaches_from(code@, range_start, (probe_start + j) as usize, ip));
                        assert(!reaches_from(code@, range_start, (probe_start + j) as usize, ip));
                    }
                }
            },
        }
    }
    found
}

/// The start whose entry is the one `true` of `reached`, entry `j` standing for start
/// `first + j`; `None` where no entry is `true` or two or more are.
pub fn pick_unique_start(first: usize, reached: &Vec<bool>) -> (found: Option<usize>)
    requires
        first + reached@.len() <= usize::MAX + 1,
    ensures
        match found {
            Some(s) => {
                &&& first <= s < first + reached@.len()
                &&& reached@[s - first]
                &&& forall|j: int| 0 <= j < reached@.len() && j != s - first ==> !#[trigger] reached@[j]
            },
            None => forall|i: int|
                0 <= i < reached@.len() && #[trigger] reached@[i] ==> exists|j: int|
                    0 <= j < reached@.len() && j != i && reached@[j],
        },
{
    let mut found: Option<usize> = None;
    let mut i: usize = 0;
    while i < reached.len()
        invariant
            i <= reached@.len(),
            match found {
                None => forall|j: int| 0 <= j < i ==> !#[trigger] reached@[j],
                Some(k) => {
                    &&& k < i
                    &&& reached@[k as int]
                    &&& forall|j: int| 0 <= j < i && j != k ==> !#[trigger] reached@[j]
                },
            },
        decreases reached@.len() - i,
    {
        if reached[i] {
            if let Some(k) = found {
                proof {
                    assert forall|x: int| 0 <= x < reached@.len() && #[trigger] reached@[x] implies exists|j: int|
                        0 <= j < reached@.len() && j != x && reached@[j] by {
                        if x == i {
                            assert(reached@[k as int]);
                        } else {
                            assert(reached@[i as int]);
                        }
                    }
                }
                return None;
            }
            found = Some(i);
        }
        i = i + 1;
    }
    match found {
        Some(k) => Some(first + k),
        None => None,
    }
}

/// Decoding on from offset `pos` at address `ip`, while the code lasts and the decoded stream
/// ends before `range_end`: how far the stream decodes (`until`, the end of the last
/// instruction decoded), and whether an instruction of it starts at `anchor` (`saw`).
pub open spec fn scan_stream(
    code: Seq<u8>,
    pos: int,
    ip: u64,
    until: usize,
    saw: bool,
    anchor: Option<usize>,
    range_end: usize,
) -> (usize, bool)
    decreases code.len() - pos,
{
    if pos < 0 || pos >= code.len() || until >= range_end {
        (until, saw)
    } else {
        let ins = x86_64_decode(code.skip(pos), ip);
        if ins.invalid || ins.len == 0 {
            (until, saw)
        } else {
            let saw2 = saw || anchor == Some(ins.ip as usize);
            let until2 = ins.ip.saturating_add(ins.len as u64) as usize;
            if pos + ins.len > code.len() {
                (until2, saw2)
            } else {
                scan_stream(code, pos + ins.len, next_ip(ip, ins.len), until2, saw2, anchor, range_end)
            }
        }
    }
}

/// The anchor that the search uses: `ip_anchor` where it lies in the code's address range.
pub open spec fn anchor_in_range(ip_anchor: Option<usize>, range_start: usize, range_end: usize) -> Option<usize> {
    match ip_anchor {
        Some(a) => if range_start <= a < range_end {
            Some(a)
        } else {
            None
        },
        None => None,
    }
}

/// Candidate start `s`: when the instruction decoded at `s` is valid and covers `addr`, and the
/// stream from it passes through the anchor (if any), how far that stream decodes.
pub open spec fn best_candidate(
    code: Seq<u8>,
    range_start: usize,
    range_end: usize,
    addr: usize,
    anchor: Option<usize>,
    s: usize,
) -> Option<usize> {
    let off = s - range_start;
    let ins = x86_64_decode(code.skip(off), s as u64);
    if ins.invalid || ins.len == 0 {
        None
    } else {
        let istart = ins.ip as usize;
        let iend = sat_add(istart, ins.len as int);
        if istart <= addr < iend {
            let saw0 = match anchor {
                None => true,
                Some(a) => istart == a,
            };
            let r = scan_stream(code, off + ins.len, next_ip(s as u64, ins.len), iend, saw0, anchor, range_end);
            if r.1 {
                Some(r.0)
            } else {
                None
            }
        } else {
            None
        }
    }
}

/// The inputs that the search for the best start accepts.
pub open spec fn best_probe_accepted(
    code_len: nat,
    range_start: usize,
    probe_start: usize,
    probe_len: usize,
    addr: usize,
) -> bool {
    let range_end = range_end_of(range_start, code_len);
    &&& range_start <= probe_start < range_end
    &&& probe_start <= addr < range_end
    &&& probe_len != 0
}

/// The first candidate start: one maximal instruction length minus one before `addr`, but not
/// before `probe_start`.
pub open spec fn best_first_candidate(probe_start: usize, addr: usize) -> usize {
    max_usize(sat_sub(addr, 14), probe_start)
}

/// The last candidate start: `addr`, but not past the probe window.
pub open spec fn best_last_candidate(code_len: nat, range_start: usize, probe_start: usize, probe_len: usize, addr: usize) -> usize {
    let range_end = range_end_of(range_start, code_len);
    min_usize(addr, min_usize(sat_add(probe_start, probe_len as int), (range_end - 1) as usize))
}

/// `s` is the candidate whose stream decodes furthest, the earliest of those that tie.
pub open spec fn is_best_start(
    code: Seq<u8>,
    range_start: usize,
    probe_start: usize,
    probe_len: usize,
    addr: usize,
    ip_anchor: Option<usize>,
    s: usize,
) -> bool {
    let range_end = range_end_of(range_start, code.len());
    let anchor = anchor_in_range(ip_anchor, range_start, range_end);
    let first = best_first_candidate(probe_start, addr);
    let last = best_last_candidate(code.len(), range_start, probe_start, probe_len, addr);
    let cand = |t: usize| best_candidate(code, range_start, range_end, addr, anchor, t);
    &&& best_probe_accepted(code.len(), range_start, probe_start, probe_len, addr)
    &&& first <= s <= last
    &&& cand(s) is Some
    &&& forall|t: usize|
        first <= t <= last && (#[trigger] best_candidate(code, range_start, range_end, addr, anchor, t)) is Some
            ==> {
            ||| cand(t).unwrap() < cand(s).unwrap()
            ||| cand(t).unwrap() == cand(s).unwrap() && s <= t
        }
}

/// Whether the search for the best start has any candidate at all.
pub open spec fn has_best_candidate(
    code: Seq<u8>,
    range_start: usize,
    probe_start: usize,
    probe_len: usize,
    addr: usize,
    ip_anchor: Option<usize>,
) -> bool {
    let range_end = range_end_of(range_start, code.len());
    let anchor = anchor_in_range(ip_anchor, range_start, range_end);
    &&& best_probe_accepted(code.len(), range_start, probe_start, probe_len, addr)
    &&& exists|t: usize|
        best_first_candidate(probe_start, addr) <= t <= best_last_candidate(code.len(), range_start, probe_start, probe_len, addr)
            && (#[trigger] best_candidate(code, range_start, range_end, addr, anchor, t)) is Some
}

/// Decodes on as `scan_stream` says.
fn scan(
    code: &[u8],
    start_pos: usize,
    start_ip: u64,
    start_until: usize,
    start_saw: bool,
    anchor: Option<usize>,
    range_end: usize,
) -> (r: (usize, bool))
    ensures
        r == scan_stream(code@, start_pos as int, start_ip, start_until, start_saw, anchor, range_end),
{
    let mut pos = start_pos;
    let mut ip = start_ip;
    let mut decoded_until = start_until;
    let mut saw_ip_anchor = start_saw;
    while pos < code.len() && decoded_until < range_end
        invariant
            scan_stream(code@, pos as int, ip, decoded_until, saw_ip_anchor, anchor, range_end)
                == scan_stream(code@, start_pos as int, start_ip, start_until, start_saw, anchor, range_end),
        decreases code@.len() - pos,
    {
        let d = decode_at(code, pos, ip);
        if d.invalid || d.len == 0 {
            return (decoded_until, saw_ip_anchor);
        }
        if anchor == Some(d.ip as usize) {
            saw_ip_anchor = true;
        }
        decoded_until = d.ip.saturating_add(d.len as u64) as usize;
        ip = advance_ip(ip, d.len);
        pos = pos + d.len;
    }
    (decoded_until, saw_ip_anchor)
}

/// How far the stream from candidate start `start` decodes, where it is a candidate.
fn candidate(
    code: &[u8],
    range_start: usize,
    range_end: usize,
    addr: usize,
    anchor: Option<usize>,
    start: usize,
) -> (r: Option<usize>)
    requires
        range_start <= start,
        start - range_start < code.len(),
    ensures
        r == best_candidate(code@, range_start, range_end, addr, anchor, start),
{
    let d = decode_at(code, start - range_start, start as u64);
    if d.invalid || d.len == 0 {
        return None;
    }
    let instruction_start = d.ip as usize;
    let instruction_end = instruction_start.saturating_add(d.len);
    if instruction_start <= addr && addr < instruction_end {
        let saw0 = match anchor {
            None => true,
            Some(a) => instruction_start == a,
        };
        let (decoded_until, saw_ip_anchor) = scan(
            code,
            start - range_start + d.len,
            advance_ip(start as u64, d.len),
            instruction_end,
            saw0,
            anchor,
            range_end,
        );
        if saw_ip_anchor {
            Some(decoded_until)
        } else {
            None
        }
    } else {
        None
    }
}

/// Finds the start of the instruction that most plausibly covers `addr`.
///
/// Each start from one maximal x86 instruction length before `addr` (but not before
/// `probe_start`) up to `addr` (but not past the probe window) is tried: it is a candidate when
/// the instruction decoded there is valid and covers `addr`, and, where `ip_anchor` lies in the
/// code's range, the stream decoded from there has an instruction that starts at `ip_anchor`
/// (execution only ever stops at instruction starts). Of the candidates, the one whose stream
/// stays valid the longest wins, the earliest start among those that tie.
pub fn find_best_instruction_start_before_addr(
    code: &[u8],
    range_start: usize,
    probe_start: usize,
    probe_len: usize,
    addr: usize,
    ip_anchor: Option<usize>,
) -> (best: Option<usize>)
    ensures
        match best {
            Some(s) => is_best_start(code@, range_start, probe_start, probe_len, addr, ip_anchor, s),
            None => !has_best_candidate(code@, range_start, probe_start, probe_len, addr, ip_anchor),
        },
{
    let range_end = range_start.saturating_add(code.len());
    if probe_start < range_start || probe_start >= range_end || addr < probe_start || addr >= range_end {
        return None;
    }
    let anchor_kept = match ip_anchor {
        Some(a) => if range_start <= a && a < range_end {
            Some(a)
        } else {
            None
        },
        None => None,
    };
    if probe_len == 0 {
        return None;
    }
    let a = probe_start.saturating_add(probe_len);
    let last_probe_start = if a <= range_end - 1 { a } else { range_end - 1 };
    let back = addr.saturating_sub(MAX_X86_INSTRUCTION_BYTES - 1);
    let first_start = if back >= probe_start { back } else { probe_start };
    let last_start = if addr <= last_probe_start { addr } else { last_probe_start };
    let ghost anchor = anchor_in_range(ip_anchor, range_start, range_end);
    let ghost first = best_first_candidate(probe_start, addr);
    let ghost last = best_last_candidate(code@.len(), range_start, probe_start, probe_len, addr);
    assert(first_start == first && last_start == last);
    if first_start > last_start {
        return None;
    }
    let mut cands: Vec<Option<usize>> = Vec::new();
    let mut start = first_start;
    while start <= last_start
        invariant
            best_probe_accepted(code@.len(), range_start, probe_start, probe_len, addr),
            range_end == range_end_of(range_start, code@.len()),
            anchor_kept == anchor,
            anchor == anchor_in_range(ip_anchor, range_start, range_end),
            first == best_first_candidate(probe_start, addr),
            last == best_last_candidate(code@.len(), range_start, probe_start, probe_len, addr),
            first_start == first,
            last_start == last,
            last < range_end,
            first <= start <= last + 1,
            cands@.len() == start - first,
            forall|j: int|
                0 <= j < cands@.len() ==> #[trigger] cands@[j] == best_candidate(
                    code@,
                    range_start,
                    range_end,
                    addr,
                    anchor,
                    (first + j) as usize,
                ),
        decreases last + 1 - start,
    {
        let c = candidate(code, range_start, range_end, addr, anchor_kept, start);
        cands.push(c);
        start = start + 1;
    }
    let best = pick_best_start(first_start, &cands);
    proof {
        let n = cands@.len() as int;
        assert(n == last + 1 - first);
        match best {
            Some(b) => {
                assert(cands@[b - first] == best_candidate(code@, range_start, range_end, addr, anchor, b));
                assert forall|t: usize|
                    first <= t <= last && (#[trigger] best_candidate(code@, range_start, range_end, addr, anchor, t)) is Some
                        implies {
                        ||| best_candidate(code@, range_start, range_end, addr, anchor, t).unwrap() < best_candidate(
                            code@,
                            range_start,
                            range_end,
                            addr,
                            anchor,
                            b,
                        ).unwrap()
                        ||| best_candidate(code@, range_start, range_end, addr, anchor, t).unwrap() == best_candidate(
                            code@,
                            range_start,
                            range_end,
                            addr,
                            anchor,
                            b,
                        ).unwrap() && b <= t
                    } by {
                    assert(cands@[t - first] == best_candidate(code@, range_start, range_end, addr, anchor, t));
                }
                assert(is_best_start(code@, range_start, probe_start, probe_len, addr, ip_anchor, b));
            },
            None => {
                if has_best_candidate(code@, range_start, probe_start, probe_len, addr, ip_anchor) {
                    let t = choose|t: usize|
                        first <= t <= last && (#[trigger] best_candidate(code@, range_start, range_end, addr, anchor, t)) is Some;
                    assert(cands@[t - first] == best_candidate(code@, range_start, range_end, addr, anchor, t));
                }
            },
        }
    }
    best
}

/// The start whose stream decodes furthest, of the candidate starts whose entry in `cands` is
/// `Some` (how far that stream decodes), entry `j` standing for start `first + j`; the
/// earliest of those that tie. `None` where no entry is `Some`.
pub fn pick_best_start(first: usize, cands: &Vec<Option<usize>>) -> (best: Option<usize>)
    requires
        first + cands@.len() <= usize::MAX + 1,
    ensures
        match best {
            Some(s) => {
                &&& first <= s < first + cands@.len()
                &&& cands@[s - first] is Some
                &&& forall|j: int|
                    0 <= j < cands@.len() && (#[trigger] cands@[j]) is Some ==> {
                        ||| cands@[j].unwrap() < cands@[s - first].unwrap()
                        ||| cands@[j].unwrap() == cands@[s - first].unwrap() && s - first <= j
                    }
            },
            None => forall|j: int| 0 <= j < cands@.len() ==> (#[trigger] cands@[j]) is None,
        },
{
    let mut best: Option<(usize, usize)> = None;
    let mut i: usize = 0;
    while i < cands.len()
        invariant
            i <= cands@.len(),
            match best {
                None => forall|j: int| 0 <= j < i ==> (#[trigger] cands@[j]) is None,
                Some((u, b)) => {
                    &&& b < i
                    &&& cands@[b as int] == Some(u)
                    &&& forall|j: int|
                        0 <= j < i && (#[trigger] cands@[j]) is Some ==> {
                            ||| cands@[j].unwrap() < u
                            ||| cands@[j].unwrap() == u && b <= j
                        }
                },
            },
        decreases cands@.len() - i,
    {
        match cands[i] {
            None => {},
            Some(decoded_until) => {
                let better = match best {
                    None => true,
                    Some((best_until, best_idx)) => decoded_until > best_until || decoded_until == best_until
                        && i < best_idx,
                };
                if better {
                    best = Some((decoded_until, i));
                }
            },
        }
        i = i + 1;
    }
    match best {
        Some((_, b)) => Some(first + b),
        None => None,
    }
}


/// The offset and address of instruction `n` (counting from 0) of the stream decoded from offset
/// `pos` at address `ip`, one instruction after the other; `None` where the stream leaves the
/// code, or an instruction before it is invalid, empty or runs past the code.
pub open spec fn nth_instruction(code: Seq<u8>, pos: int, ip: u64, n: nat) -> Option<(int, u64)>
    decreases n,
{
    if pos < 0 || pos >= code.len() {
        None
    } else if n == 0 {
        Some((pos, ip))
    } else {
        let ins = x86_64_decode(code.skip(pos), ip);
        if ins.invalid || ins.len == 0 || pos + ins.len > code.len() {
            None
        } else {
            nth_instruction(code, pos + ins.len, next_ip(ip, ins.len), (n - 1) as nat)
        }
    }
}

/// Instruction `n` of the stream decoded from offset `pos` at address `ip` is valid and starts
/// exactly at address `target`.
pub open spec fn stream_hits(code: Seq<u8>, pos: int, ip: u64, n: nat, target: usize) -> bool {
    match nth_instruction(code, pos, ip, n) {
        Some((p, q)) => {
            let ins = x86_64_decode(code.skip(p), q);
            !ins.invalid && ins.len != 0 && ins.ip as usize == target
        },
        None => false,
    }
}

/// Decoding from offset `pos` at address `ip` reaches `target` only where one instruction of the
/// stream, instruction `n`, starts exactly at `target`: a stream that steps over `target` does
/// not reach it.
pub proof fn lemma_reaching_means_exact_start(code: Seq<u8>, pos: int, ip: u64, target: usize) -> (n: nat)
    requires
        stream_reaches(code, pos, ip, target),
    ensures
        stream_hits(code, pos, ip, n, target),
    decreases code.len() - pos,
{
    let ins = x86_64_decode(code.skip(pos), ip);
    if ins.ip as usize == target {
        0
    } else {
        let m = lemma_reaching_means_exact_start(code, pos + ins.len, next_ip(ip, ins.len), target);
        assert(nth_instruction(code, pos, ip, m + 1) == nth_instruction(code, pos + ins.len, next_ip(ip, ins.len), m));
        m + 1
    }
}

/// Instruction `n` of the stream decoded from offset `pos` at address `ip` starts before address
/// `target`.
pub open spec fn stream_starts_before(code: Seq<u8>, pos: int, ip: u64, n: nat, target: usize) -> bool {
    match nth_instruction(code, pos, ip, n) {
        Some((p, q)) => (x86_64_decode(code.skip(p), q).ip as usize) < target,
        None => false,
    }
}

/// Conversely, a stream one of whose instructions starts exactly at `target`, all before it
/// starting below `target`, reaches `target`.
pub proof fn lemma_exact_start_reaches(code: Seq<u8>, pos: int, ip: u64, target: usize, n: nat)
    requires
        stream_hits(code, pos, ip, n, target),
        forall|m: nat| m < n ==> #[trigger] stream_starts_before(code, pos, ip, m, target),
    ensures
        stream_reaches(code, pos, ip, target),
    decreases n,
{
    if n > 0 {
        let ins = x86_64_decode(code.skip(pos), ip);
        assert(stream_starts_before(code, pos, ip, 0, target));
        let pos2 = pos + ins.len;
        let ip2 = next_ip(ip, ins.len);
        assert(nth_instruction(code, pos, ip, n) == nth_instruction(code, pos2, ip2, (n - 1) as nat));
        assert forall|m: nat| m < n - 1 implies #[trigger] stream_starts_before(code, pos2, ip2, m, target) by {
            assert(nth_instruction(code, pos, ip, m + 1) == nth_instruction(code, pos2, ip2, m));
            assert(stream_starts_before(code, pos, ip, m + 1, target));
        }
        lemma_exact_start_reaches(code, pos2, ip2, target, (n - 1) as nat);
    }
}

/// The start that the search for a unique start finds decodes, as one of its instructions, an
/// instruction that starts exactly at `ip`; every other candidate start of the window does not
/// reach `ip`.
pub proof fn lemma_unique_start_hits_ip(
    code: Seq<u8>,
    range_start: usize,
    probe_start: usize,
    probe_len: usize,
    ip: usize,
    s: usize,
) -> (n: nat)
    requires
        is_unique_start(code, range_start, probe_start, probe_len, ip, s),
    ensures
        stream_hits(code, s - range_start, s as u64, n, ip),
{
    lemma_reaching_means_exact_start(code, s - range_start, s as u64, ip)
}

/// Of two starts that both meet the contract of the search for the best start, on the same
/// inputs, neither is better than the other: they are the same start.
pub proof fn lemma_best_start_unique(
    code: Seq<u8>,
    range_start: usize,
    probe_start: usize,
    probe_len: usize,
    addr: usize,
    ip_anchor: Option<usize>,
    s1: usize,
    s2: usize,
)
    requires
        is_best_start(code, range_start, probe_start, probe_len, addr, ip_anchor, s1),
        is_best_start(code, range_start, probe_start, probe_len, addr, ip_anchor, s2),
    ensures
        s1 == s2,
{
    let range_end = range_end_of(range_start, code.len());
    let anchor = anchor_in_range(ip_anchor, range_start, range_end);
    assert(best_candidate(code, range_start, range_end, addr, anchor, s2) is Some);
    assert(best_candidate(code, range_start, range_end, addr, anchor, s1) is Some);
}

/// An instruction pointer anchor outside the code's address range plays no part in the search
/// for the best start: where `r1` is what the search answers with that anchor and `r2` what it
/// answers with no anchor at all (each as its contract says), the two are the same.
pub proof fn lemma_outside_anchor_ignored(
    code: Seq<u8>,
    range_start: usize,
    probe_start: usize,
    probe_len: usize,
    addr: usize,
    a: usize,
    r1: Option<usize>,
    r2: Option<usize>,
)
    requires
        a < range_start || a >= range_end_of(range_start, code.len()),
        match r1 {
            Some(s) => is_best_start(code, range_start, probe_start, probe_len, addr, Some(a), s),
            None => !has_best_candidate(code, range_start, probe_start, probe_len, addr, Some(a)),
        },
        match r2 {
            Some(s) => is_best_start(code, range_start, probe_start, probe_len, addr, None, s),
            None => !has_best_candidate(code, range_start, probe_start, probe_len, addr, None),
        },
    ensures
        r1 == r2,
{
    let range_end = range_end_of(range_start, code.len());
    assert(anchor_in_range(Some(a), range_start, range_end) == anchor_in_range(None, range_start, range_end));
    let first = best_first_candidate(probe_start, addr);
    let last = best_last_candidate(code.len(), range_start, probe_start, probe_len, addr);
    assert(forall|s: usize|
        is_best_start(code, range_start, probe_start, probe_len, addr, Some(a), s) == is_best_start(
            code,
            range_start,
            probe_start,
            probe_len,
            addr,
            None,
            s,
        ));
    assert(has_best_candidate(code, range_start, probe_start, probe_len, addr, Some(a)) == has_best_candidate(
        code,
        range_start,
        probe_start,
        probe_len,
        addr,
        None,
    ));
    match (r1, r2) {
        (Some(s1), Some(s2)) => {
            lemma_best_start_unique(code, range_start, probe_start, probe_len, addr, None, s1, s2);
        },
        (Some(s1), None) => {
            assert(first <= s1 <= last);
            assert(best_candidate(code, range_start, range_end, addr, None, s1) is Some);
        },
        (None, Some(s2)) => {
            assert(first <= s2 <= last);
            assert(best_candidate(code, range_start, range_end, addr, None, s2) is Some);
        },
        (None, None) => {},
    }
}

} // verus!
