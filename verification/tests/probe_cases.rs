use disassembly::probe::{pick_best_start, pick_unique_start};
use disassembly::{find_best_instruction_start_before_addr, find_unique_instruction_start_before_ip};

const BASE: usize = 0x1000;

struct UniqueStartCase {
    name: &'static str,
    code: &'static [u8],
    range_start: usize,
    probe_start: usize,
    probe_len: usize,
    ip: usize,
    expected: Option<usize>,
}

struct BestStartCase {
    name: &'static str,
    code: &'static [u8],
    range_start: usize,
    probe_start: usize,
    probe_len: usize,
    addr: usize,
    ip_anchor: Option<usize>,
    expected: Option<usize>,
}

const UNIQUE_RET: &[u8] = &[0x0f, 0x0f, 0x0f, 0x0f, 0xc3];
const LONG_NOP_THEN_RET: &[u8] = &[
    // 14 operand-size prefixes + nop: every suffix ending at 0x90 is also a viable instruction.
    0x66, 0x66, 0x66, 0x66, 0x66, 0x66, 0x66, 0x66,
    0x66, 0x66, 0x66, 0x66, 0x66, 0x66, 0x90,
    0xc3,
];
const JIT_HELLO_PREFIX: &[u8] = &[
    0xb8, 0x01, 0x00, 0x00, 0x00,             // mov eax, 1
    0xbf, 0x01, 0x00, 0x00, 0x00,             // mov edi, 1
    0x48, 0x8d, 0x35, 0x08, 0x00, 0x00, 0x00, // lea rsi, [rip+8]
    0xba, 0x0c, 0x00, 0x00, 0x00,             // mov edx, 12
    0x0f, 0x05,                               // syscall
    0xc3,                                     // ret
];

#[test]
fn find_unique_instruction_start_before_ip_cases() {
    let cases = [
        UniqueStartCase {
            name: "address_at_probe_start",
            code: JIT_HELLO_PREFIX,
            range_start: BASE,
            probe_start: BASE,
            probe_len: JIT_HELLO_PREFIX.len(),
            ip: BASE,
            expected: Some(BASE),
        },
        UniqueStartCase {
            name: "unique_anchored_stream",
            code: &[
                0x0f, 0x0f, 0x0f, 0x0f, 0x0f, 0x0f, 0x0f,
                0x0f, 0x0f, 0x0f, 0x0f, 0x0f, 0x0f, 0x0f,
                0xc3, 0xc3, 0xc3, 0xc3, 0xc3, 0xc3, 0xc3,
            ],
            range_start: BASE,
            probe_start: BASE,
            probe_len: 21,
            ip: BASE + 20,
            expected: Some(BASE + 14),
        },
        UniqueStartCase {
            name: "does_not_scan_whole_probe_window",
            code: &[
                0xcc, 0xcc, 0xcc, 0xcc, 0xcc, 0xcc, 0xcc, 0xcc,
                0xcc, 0xcc, 0xcc, 0xcc, 0xcc, 0xcc, 0xcc, 0xcc,
                0x0f, 0x05, 0xc3,
            ],
            range_start: BASE,
            probe_start: BASE,
            probe_len: 19,
            ip: BASE + 18,
            expected: None,
        },
        UniqueStartCase {
            name: "single_byte_instruction_stream_is_ambiguous",
            code: &[0x90, 0x90, 0x90, 0x90, 0xc3],
            range_start: BASE,
            probe_start: BASE,
            probe_len: 5,
            ip: BASE + 4,
            expected: None,
        },
        UniqueStartCase {
            name: "prefix_chain_is_ambiguous",
            code: LONG_NOP_THEN_RET,
            range_start: BASE,
            probe_start: BASE,
            probe_len: LONG_NOP_THEN_RET.len(),
            ip: BASE + 15,
            expected: None,
        },
        UniqueStartCase {
            name: "anchor_filters_unanchored_candidate",
            code: &[0x0f, 0x1f, 0x40, 0x00, 0xc3],
            range_start: BASE,
            probe_start: BASE,
            probe_len: 5,
            ip: BASE + 4,
            expected: None,
        },
        UniqueStartCase {
            name: "multiple_anchored_candidates_are_ambiguous",
            code: &[0x90, 0x0f, 0x05, 0xc3],
            range_start: BASE,
            probe_start: BASE,
            probe_len: 4,
            ip: BASE + 3,
            expected: None,
        },
        UniqueStartCase {
            name: "probe_before_range",
            code: UNIQUE_RET,
            range_start: BASE,
            probe_start: BASE - 1,
            probe_len: UNIQUE_RET.len(),
            ip: BASE + 4,
            expected: None,
        },
        UniqueStartCase {
            name: "probe_after_range",
            code: UNIQUE_RET,
            range_start: BASE,
            probe_start: BASE + UNIQUE_RET.len(),
            probe_len: 1,
            ip: BASE + 4,
            expected: None,
        },
        UniqueStartCase {
            name: "zero_len_probe",
            code: UNIQUE_RET,
            range_start: BASE,
            probe_start: BASE,
            probe_len: 0,
            ip: BASE + 4,
            expected: None,
        },
    ];

    for case in cases {
        let found = find_unique_instruction_start_before_ip(case.code, case.range_start, case.probe_start, case.probe_len, case.ip);
        assert_eq!(case.expected, found, "{}", case.name);
    }
}

#[test]
fn find_best_instruction_start_before_addr_cases() {
    let cases = [
        BestStartCase {
            name: "address_inside_instruction",
            code: &[0x0f, 0x05],
            range_start: BASE,
            probe_start: BASE,
            probe_len: 1,
            addr: BASE + 1,
            ip_anchor: None,
            expected: Some(BASE),
        },
        BestStartCase {
            name: "jit_mov_eax_one_prefers_real_stream_without_anchor",
            code: JIT_HELLO_PREFIX,
            range_start: BASE,
            probe_start: BASE,
            probe_len: JIT_HELLO_PREFIX.len(),
            addr: BASE + 1,
            ip_anchor: None,
            expected: Some(BASE),
        },
        BestStartCase {
            name: "jit_mov_eax_one_uses_ip_anchor",
            code: JIT_HELLO_PREFIX,
            range_start: BASE,
            probe_start: BASE,
            probe_len: JIT_HELLO_PREFIX.len(),
            addr: BASE + 1,
            ip_anchor: Some(BASE),
            expected: Some(BASE),
        },
        BestStartCase {
            name: "jit_mov_eax_one_rejects_wrong_ip_anchor",
            code: JIT_HELLO_PREFIX,
            range_start: BASE,
            probe_start: BASE,
            probe_len: JIT_HELLO_PREFIX.len(),
            addr: BASE + 1,
            ip_anchor: Some(BASE + 1),
            expected: Some(BASE + 1),
        },
        BestStartCase {
            name: "anchor_before_candidate_window_rejects_all_candidates",
            code: &[0x90, 0x90, 0x0f, 0x05],
            range_start: BASE,
            probe_start: BASE,
            probe_len: 4,
            addr: BASE + 3,
            ip_anchor: Some(BASE),
            expected: None,
        },
        BestStartCase {
            name: "address_at_instruction_start",
            code: UNIQUE_RET,
            range_start: BASE,
            probe_start: BASE,
            probe_len: UNIQUE_RET.len(),
            addr: BASE + 4,
            ip_anchor: None,
            expected: Some(BASE + 4),
        },
        BestStartCase {
            name: "address_in_following_instruction",
            code: UNIQUE_RET,
            range_start: BASE,
            probe_start: BASE,
            probe_len: UNIQUE_RET.len(),
            addr: BASE + 4,
            ip_anchor: None,
            expected: Some(BASE + 4),
        },
        BestStartCase {
            name: "single_byte_stream_chooses_only_containing_start",
            code: &[0x90, 0x90, 0x90, 0x90, 0xc3],
            range_start: BASE,
            probe_start: BASE,
            probe_len: 5,
            addr: BASE + 2,
            ip_anchor: None,
            expected: Some(BASE + 2),
        },
        BestStartCase {
            name: "prefix_chain_tie_chooses_earliest_start",
            code: LONG_NOP_THEN_RET,
            range_start: BASE,
            probe_start: BASE,
            probe_len: LONG_NOP_THEN_RET.len(),
            addr: BASE + 14,
            ip_anchor: None,
            expected: Some(BASE),
        },
        BestStartCase {
            name: "prefix_chain_ret_chooses_ret",
            code: LONG_NOP_THEN_RET,
            range_start: BASE,
            probe_start: BASE,
            probe_len: LONG_NOP_THEN_RET.len(),
            addr: BASE + 15,
            ip_anchor: None,
            expected: Some(BASE + 15),
        },
        BestStartCase {
            name: "address_after_stream",
            code: UNIQUE_RET,
            range_start: BASE,
            probe_start: BASE,
            probe_len: UNIQUE_RET.len(),
            addr: BASE + UNIQUE_RET.len(),
            ip_anchor: None,
            expected: None,
        },
    ];

    for case in cases {
        let found = find_best_instruction_start_before_addr(case.code, case.range_start, case.probe_start, case.probe_len, case.addr, case.ip_anchor);
        assert_eq!(case.expected, found, "{}", case.name);
    }
}

#[test]
fn unique_pick_takes_the_only_reaching_start() {
    assert_eq!(pick_unique_start(0x1000, &vec![false, false, true, false]), Some(0x1002));
    assert_eq!(pick_unique_start(0x1000, &vec![true]), Some(0x1000));
}

#[test]
fn unique_pick_refuses_none_or_several() {
    assert_eq!(pick_unique_start(0x1000, &vec![]), None);
    assert_eq!(pick_unique_start(0x1000, &vec![false, false]), None);
    assert_eq!(pick_unique_start(0x1000, &vec![false, true, false, true]), None);
}

#[test]
fn best_pick_takes_the_furthest_stream_earliest_on_ties() {
    assert_eq!(pick_best_start(0x2000, &vec![None, Some(0x2010), Some(0x2020), Some(0x2020), Some(0x2008)]), Some(0x2002));
    assert_eq!(pick_best_start(0x2000, &vec![Some(0x2005), Some(0x2005)]), Some(0x2000));
}

#[test]
fn best_pick_without_candidates_is_none() {
    assert_eq!(pick_best_start(0x2000, &vec![]), None);
    assert_eq!(pick_best_start(0x2000, &vec![None, None]), None);
}
