//! What the listing reads of a program's symbols: functions, inlined calls, source line
//! records, file names and the executable's bytes.
use std::ops::Range;
use vstd::prelude::*;

verus! {

/// A source line record: the first address of the code it describes, and the place in the
/// source (file, line and column, 0 where unknown).
#[derive(Clone, Copy, PartialEq, Eq, Structural, Debug)]
pub struct LineInfo {
    pub addr: usize,
    pub file_idx: Option<usize>,
    pub line: usize,
    pub column: usize,
    /// The address starts a statement.
    pub is_statement: bool,
}

/// A function inlined into another: where its code lies, which function was inlined
/// (`usize::MAX` where unknown), the source line of the call, and an identity shared by the
/// pieces of one inlined call.
pub struct Subfunction {
    pub addr_range: Range<usize>,
    pub callee_idx: usize,
    pub call_line: LineInfo,
    pub identity: u32,
}

/// A function: its name (demangled), its addresses, the shard that holds its inlined calls,
/// and, for each nesting level from 1 on, the indices (into the shard's subfunctions) of the
/// inlined calls at that level, ordered by address.
pub struct FunctionInfo {
    pub name: String,
    pub addr: Range<usize>,
    pub shard_idx: usize,
    pub subfunction_levels: Vec<Range<usize>>,
}

/// The inlined calls of a group of functions.
pub struct SymbolsShard {
    pub subfunctions: Vec<Subfunction>,
}

/// The executable's loaded bytes, of which `data[0]` sits at address `base`.
pub struct Executable {
    pub base: usize,
    pub data: Vec<u8>,
}

/// A program's symbols.
pub struct Symbols {
    pub functions: Vec<FunctionInfo>,
    pub shards: Vec<SymbolsShard>,
    /// File names, by file index.
    pub files: Vec<String>,
    /// Source line records, ordered by address.
    pub lines: Vec<LineInfo>,
    pub executable: Executable,
}

/// Where the bytes of addresses `start..end` lie in the executable's data, if they all do.
pub open spec fn offset_range(exe: Executable, start: usize, end: usize) -> Option<(usize, usize)> {
    if exe.base <= start <= end && end - exe.base <= exe.data@.len() {
        Some(((start - exe.base) as usize, (end - exe.base) as usize))
    } else {
        None
    }
}

impl Executable {
    /// The offsets into `data` of the bytes at addresses `start..end`, where they all lie in it.
    pub fn addr_range_to_offset_range(&self, start: usize, end: usize) -> (r: Option<(usize, usize)>)
        ensures
            r == offset_range(*self, start, end),
    {
        if self.base <= start && start <= end && end - self.base <= self.data.len() {
            Some((start - self.base, end - self.base))
        } else {
            None
        }
    }
}

/// The line records are ordered by address.
pub open spec fn line_records_sorted(lines: Seq<LineInfo>) -> bool {
    forall|i: int, j: int| 0 <= i <= j < lines.len() ==> lines[i].addr <= lines[j].addr
}

/// Function `f` of `symbols` can be disassembled: it exists, its shard exists, its levels are
/// index ranges into the shard's subfunctions and are fewer than `u16::MAX`, every callee and
/// file index points at a function and a file, and the line records are ordered.
pub open spec fn symbols_fit(symbols: Symbols, f: int) -> bool {
    &&& 0 <= f < symbols.functions@.len()
    &&& symbols.functions@[f].shard_idx < symbols.shards@.len()
    &&& symbols.functions@[f].subfunction_levels@.len() < u16::MAX
    &&& forall|k: int|
        0 <= k < symbols.functions@[f].subfunction_levels@.len() ==> {
            let r = #[trigger] symbols.functions@[f].subfunction_levels@[k];
            r.start <= r.end <= shard_subfunctions(symbols, f).len()
        }
    &&& forall|k: int|
        0 <= k < shard_subfunctions(symbols, f).len() ==> {
            let s = #[trigger] shard_subfunctions(symbols, f)[k];
            &&& (s.callee_idx == usize::MAX || s.callee_idx < symbols.functions@.len())
            &&& (s.call_line.file_idx matches Some(i) ==> i < symbols.files@.len())
        }
    &&& forall|k: int|
        0 <= k < symbols.lines@.len() ==> (#[trigger] symbols.lines@[k].file_idx matches Some(i) ==> i
            < symbols.files@.len())
    &&& line_records_sorted(symbols.lines@)
}

/// For each nesting level of function `f`, the indices of its inlined calls at that level.
pub open spec fn function_levels(symbols: Symbols, f: int) -> Seq<Range<usize>> {
    symbols.functions@[f].subfunction_levels@
}

/// The inlined calls of the shard that holds function `f`.
pub open spec fn shard_subfunctions(symbols: Symbols, f: int) -> Seq<Subfunction> {
    symbols.shards@[symbols.functions@[f].shard_idx as int].subfunctions@
}

/// The first function whose addresses hold `addr`, if any.
pub open spec fn function_at(functions: Seq<FunctionInfo>, addr: usize) -> Option<usize>
    decreases functions.len(),
{
    if functions.len() == 0 {
        None
    } else {
        match function_at(functions.drop_last(), addr) {
            Some(i) => Some(i),
            None => if functions.last().addr.start <= addr < functions.last().addr.end {
                Some((functions.len() - 1) as usize)
            } else {
                None
            },
        }
    }
}

impl Symbols {
    /// The index of the first line record at or after `addr`.
    pub fn first_line_at_or_after(&self, addr: usize) -> (p: usize)
        requires
            line_records_sorted(self.lines@),
        ensures
            p <= self.lines@.len(),
            forall|k: int| 0 <= k < p ==> self.lines@[k].addr < addr,
            forall|k: int| p <= k < self.lines@.len() ==> self.lines@[k].addr >= addr,
    {
        let mut lo: usize = 0;
        let mut hi: usize = self.lines.len();
        while lo < hi
            invariant
                0 <= lo <= hi <= self.lines@.len(),
                line_records_sorted(self.lines@),
                forall|k: int| 0 <= k < lo ==> self.lines@[k].addr < addr,
                forall|k: int| hi <= k < self.lines@.len() ==> self.lines@[k].addr >= addr,
            decreases hi - lo,
        {
            let mid = lo + (hi - lo) / 2;
            if self.lines[mid].addr < addr {
                lo = mid + 1;
            } else {
                hi = mid;
            }
        }
        lo
    }

    /// The first function whose addresses hold `addr`.
    pub fn addr_to_function(&self, addr: usize) -> (r: Option<usize>)
        ensures
            r == function_at(self.functions@, addr),
            r matches Some(i) ==> i < self.functions@.len(),
    {
        let mut i: usize = 0;
        while i < self.functions.len()
            invariant
                i <= self.functions@.len(),
                function_at(self.functions@.take(i as int), addr) is None,
            decreases self.functions@.len() - i,
        {
            proof {
                assert(self.functions@.take(i + 1).drop_last() =~= self.functions@.take(i as int));
            }
            let f = &self.functions[i];
            if f.addr.start <= addr && addr < f.addr.end {
                proof {
                    lemma_function_at_prefix(self.functions@, (i + 1) as int, addr);
                }
                return Some(i);
            }
            i = i + 1;
        }
        proof {
            assert(self.functions@.take(i as int) =~= self.functions@);
        }
        None
    }
}

/// Once a prefix of `functions` holds a function at `addr`, the whole sequence gives that one.
proof fn lemma_function_at_prefix(functions: Seq<FunctionInfo>, n: int, addr: usize)
    requires
        0 <= n <= functions.len(),
        function_at(functions.take(n), addr) is Some,
    ensures
        function_at(functions, addr) == function_at(functions.take(n), addr),
    decreases functions.len() - n,
{
    if n < functions.len() {
        assert(functions.take(n + 1).drop_last() =~= functions.take(n));
        lemma_function_at_prefix(functions, n + 1, addr);
    } else {
        assert(functions.take(n) =~= functions);
    }
}

/// What a disassembler's symbol resolver is told for a branch target at `addr` while the code
/// of `current_function` is listed: targets inside it are shown relative to its start as `_`;
/// others by the name and start of the function that holds them, where one does.
pub open spec fn branch_symbol(symbols: Option<&Symbols>, current_function: Range<usize>, addr: usize) -> Option<(usize, Seq<char>)> {
    if current_function.start <= addr < current_function.end {
        Some((current_function.start, seq!['_']))
    } else {
        match symbols {
            Some(s) => match function_at(s.functions@, addr) {
                Some(i) => Some((s.functions@[i as int].addr.start, s.functions@[i as int].name@)),
                None => None,
            },
            None => None,
        }
    }
}

/// The symbol to show for a branch target at `addr` while `current_function` is listed: its
/// address, and its text.
pub fn resolve_branch_symbol(symbols: Option<&Symbols>, current_function: &Range<usize>, addr: usize) -> (r: Option<(usize, String)>)
    ensures
        match r {
            Some((a, t)) => branch_symbol(symbols, *current_function, addr) == Some((a, t@)),
            None => branch_symbol(symbols, *current_function, addr) is None,
        },
{
    if current_function.start <= addr && addr < current_function.end {
        let t = String::from_str("_");
        proof {
            reveal_strlit("_");
        }
        return Some((current_function.start, t));
    }
    match symbols {
        Some(s) => match s.addr_to_function(addr) {
            Some(i) => Some((s.functions[i].addr.start, s.functions[i].name.clone())),
            None => None,
        },
        None => None,
    }
}

impl Symbols {
    /// Whether function `f` can be disassembled with these symbols (see `symbols_fit`).
    pub fn can_disassemble(&self, f: usize) -> (r: bool)
        ensures
            r == symbols_fit(*self, f as int),
    {
        if f >= self.functions.len() {
            return false;
        }
        let func = &self.functions[f];
        if func.shard_idx >= self.shards.len() {
            return false;
        }
        let subs = &self.shards[func.shard_idx].subfunctions;
        assert(subs@ == shard_subfunctions(*self, f as int));
        if func.subfunction_levels.len() >= 65535 {
            return false;
        }
        let mut k: usize = 0;
        while k < func.subfunction_levels.len()
            invariant
                f < self.functions@.len(),
                *func == self.functions@[f as int],
                func.shard_idx < self.shards@.len(),
                subs@ == shard_subfunctions(*self, f as int),
                k <= func.subfunction_levels@.len(),
                forall|j: int|
                    0 <= j < k ==> {
                        let r = #[trigger] func.subfunction_levels@[j];
                        r.start <= r.end <= subs@.len()
                    },
            decreases func.subfunction_levels@.len() - k,
        {
            let r = &func.subfunction_levels[k];
            if !(r.start <= r.end && r.end <= subs.len()) {
                proof {
                    assert(self.functions@[f as int].subfunction_levels@[k as int] == *r);
                }
                return false;
            }
            k = k + 1;
        }
        let mut k: usize = 0;
        while k < subs.len()
            invariant
                f < self.functions@.len(),
                *func == self.functions@[f as int],
                func.shard_idx < self.shards@.len(),
                subs@ == shard_subfunctions(*self, f as int),
                k <= subs@.len(),
                forall|j: int|
                    0 <= j < k ==> {
                        let s = #[trigger] subs@[j];
                        &&& (s.callee_idx == usize::MAX || s.callee_idx < self.functions@.len())
                        &&& (s.call_line.file_idx matches Some(i) ==> i < self.files@.len())
                    },
            decreases subs@.len() - k,
        {
            let s = &subs[k];
            proof {
                assert(shard_subfunctions(*self, f as int)[k as int] == *s);
            }
            if !(s.callee_idx == usize::MAX || s.callee_idx < self.functions.len()) {
                return false;
            }
            match s.call_line.file_idx {
                Some(i) => if i >= self.files.len() {
                    return false;
                },
                None => {},
            }
            k = k + 1;
        }
        let mut k: usize = 0;
        while k < self.lines.len()
            invariant
                k <= self.lines@.len(),
                forall|j: int|
                    0 <= j < k ==> (#[trigger] self.lines@[j].file_idx matches Some(i) ==> i < self.files@.len()),
                forall|i: int, j: int| 0 <= i <= j < k ==> self.lines@[i].addr <= self.lines@[j].addr,
            decreases self.lines@.len() - k,
        {
            match self.lines[k].file_idx {
                Some(i) => if i >= self.files.len() {
                    return false;
                },
                None => {},
            }
            if k > 0 && self.lines[k - 1].addr > self.lines[k].addr {
                proof {
                    assert(!line_records_sorted(self.lines@));
                }
                return false;
            }
            proof {
                if k > 0 {
                    assert forall|i: int, j: int| 0 <= i <= j < k + 1 implies self.lines@[i].addr
                        <= self.lines@[j].addr by {
                        if j == k && i < k {
                            assert(self.lines@[i].addr <= self.lines@[k - 1].addr);
                        }
                    }
                }
            }
            k = k + 1;
        }
        true
    }
}

} // verus!
