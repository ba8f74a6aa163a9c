use snes_iris::cpu::{CpuState, Instruction, Mnemonic, Mode};
use snes_iris::dis::{
    copy_stack, DataEntry, Disassembler, QueueEntry, Rule, SrCpuState, StackDataType, Subroutine,
};
use snes_iris::rom::{Mapper, Rom};

/// A one-bank image with `code` placed at the given addresses of bank 0 and
/// the reset vector pointing at 0x8000.
fn image(code: &[(u32, &[u8])]) -> Rom {
    let mut cart = vec![0u8; 0x8000];
    for &(addr, bytes) in code {
        let at = (addr & 0x7FFF) as usize;
        cart[at..at + bytes.len()].copy_from_slice(bytes);
    }
    cart[0x7FFC] = 0x00;
    cart[0x7FFD] = 0x80;
    Rom::new(cart, Mapper::LoRom)
}

fn analysed(code: &[(u32, &[u8])], rules: Vec<Rule>) -> Disassembler {
    let mut dis = Disassembler::new(image(code));
    dis.process_rules(&rules);
    dis
}

fn entry_point(pc: u32, m: bool, x: bool) -> QueueEntry {
    QueueEntry {
        pc,
        stack: vec![],
        state: CpuState { m, x },
        sr_state: SrCpuState { affect_m: None, affect_x: None },
    }
}

fn effect(m: Option<bool>, x: Option<bool>) -> SrCpuState {
    SrCpuState { affect_m: m, affect_x: x }
}

fn mnemonic_at(dis: &Disassembler, pc: u32) -> Mnemonic {
    dis.entries[&pc].instr.mnemonic
}

#[test]
fn fresh_engine_is_empty() {
    let dis = Disassembler::new(image(&[]));
    assert!(dis.entries.is_empty());
    assert!(dis.labels.is_empty());
    assert!(dis.returns.is_empty());
    assert!(dis.subroutines.is_empty());
    assert!(dis.extra_rules.is_empty());
    assert!(dis.label_names.is_empty());
}

#[test]
fn simple_subroutine() {
    let dis = analysed(&[(0x8000, &[0x60])], vec![]);
    assert_eq!(
        dis.entries[&0x008000].instr,
        Instruction { mnemonic: Mnemonic::RTS, mode: Mode::Imp, size: 0, argument: 0 }
    );
    assert_eq!(dis.entries[&0x008000].subroutine, 0x008000);
    assert_eq!(dis.entries[&0x008000].state, CpuState { m: true, x: true });
    assert!(dis.entries[&0x008000].stack.is_empty());
    assert_eq!(dis.entries.len(), 1);
    assert_eq!(dis.returns.len(), 1);
    assert!(dis.returns.contains(&0x008000));
    assert!(!dis.subroutines[&0x008000].divergent);
    assert_eq!(dis.subroutines[&0x008000].sr_effect, effect(None, None));
    assert!(dis.labels.contains(&0x008000));
    assert!(dis.extra_rules.is_empty());
}

#[test]
fn vectors_outside_rom_get_an_empty_summary() {
    // The interrupt vectors of the image hold zero, which is no ROM address.
    let dis = analysed(&[(0x8000, &[0x60])], vec![]);
    assert_eq!(
        dis.subroutines[&0x000000],
        Subroutine { sr_effect: effect(None, None), divergent: false }
    );
    assert!(!dis.entries.contains_key(&0x000000));
    assert!(!dis.labels.contains(&0x000000));
}

#[test]
fn interrupt_vectors_are_followed() {
    let mut cart = vec![0u8; 0x8000];
    cart[0x0000] = 0x60;
    cart[0x0100] = 0x40; // RTI
    cart[0x0200] = 0x6B; // RTL
    cart[0x7FFC..0x7FFE].copy_from_slice(&[0x00, 0x80]);
    cart[0x7FEE..0x7FF0].copy_from_slice(&[0x00, 0x81]);
    cart[0x7FEA..0x7FEC].copy_from_slice(&[0x00, 0x82]);
    let mut dis = Disassembler::new(Rom::new(cart, Mapper::LoRom));
    dis.process_rules(&vec![]);
    assert_eq!(mnemonic_at(&dis, 0x8000), Mnemonic::RTS);
    assert_eq!(mnemonic_at(&dis, 0x8100), Mnemonic::RTI);
    assert_eq!(mnemonic_at(&dis, 0x8200), Mnemonic::RTL);
    assert!(dis.subroutines.contains_key(&0x8100));
    assert!(dis.subroutines.contains_key(&0x8200));
    assert!(dis.returns.contains(&0x8200));
    // RTI ends the walk but is no return from a subroutine.
    assert!(!dis.returns.contains(&0x8100));
}

#[test]
fn flag_setting_callee() {
    let dis = analysed(
        &[
            (0x8000, &[0x22, 0x00, 0x81, 0x00, 0x6B]),
            (0x8100, &[0xE2, 0x20, 0xC2, 0x10, 0x6B]),
        ],
        vec![],
    );
    assert_eq!(dis.subroutines[&0x008100].sr_effect, effect(Some(true), Some(false)));
    assert!(!dis.subroutines[&0x008100].divergent);
    assert_eq!(dis.entries[&0x008004].state, CpuState { m: true, x: false });
    assert_eq!(mnemonic_at(&dis, 0x008004), Mnemonic::RTL);
    // The caller returns with what the callee did to the flags.
    assert_eq!(dis.subroutines[&0x008000].sr_effect, effect(Some(true), Some(false)));
    // The callee was entered with a long return address on its stack.
    assert_eq!(dis.entries[&0x008100].stack, vec![StackDataType::RetAddr; 3]);
    assert_eq!(dis.entries[&0x008100].subroutine, 0x008100);
    assert_eq!(dis.entries[&0x008102].state, CpuState { m: true, x: true });
    assert_eq!(dis.entries[&0x008104].state, CpuState { m: true, x: false });
    assert!(dis.extra_rules.is_empty());
}

#[test]
fn callee_flags_change_how_the_caller_decodes() {
    // The callee clears M, so the LDA behind the call takes two bytes.
    let dis = analysed(
        &[
            (0x8000, &[0x20, 0x00, 0x81, 0xA9, 0x34, 0x12, 0x60]),
            (0x8100, &[0xC2, 0x20, 0x60]),
        ],
        vec![],
    );
    assert_eq!(dis.subroutines[&0x008100].sr_effect, effect(Some(false), None));
    assert_eq!(
        dis.entries[&0x008003].instr,
        Instruction { mnemonic: Mnemonic::LDA, mode: Mode::Imm, size: 2, argument: 0x1234 }
    );
    assert_eq!(mnemonic_at(&dis, 0x008006), Mnemonic::RTS);
    assert_eq!(dis.entries[&0x008100].stack, vec![StackDataType::RetAddr; 2]);
}

#[test]
fn branch_with_label() {
    let dis = analysed(&[(0x8000, &[0xF0, 0x02, 0xEA, 0xEA, 0x60])], vec![]);
    assert!(dis.labels.contains(&0x008004));
    assert!(dis.labels.contains(&0x008000));
    assert_eq!(dis.labels.len(), 2);
    assert_eq!(mnemonic_at(&dis, 0x008000), Mnemonic::BEQ);
    assert_eq!(mnemonic_at(&dis, 0x008002), Mnemonic::NOP);
    assert_eq!(mnemonic_at(&dis, 0x008003), Mnemonic::NOP);
    assert_eq!(mnemonic_at(&dis, 0x008004), Mnemonic::RTS);
    assert_eq!(dis.entries.len(), 4);
}

#[test]
fn jump_table_rule() {
    let dis = analysed(
        &[
            (0x8000, &[0x6C, 0x04, 0x80, 0x00, 0x00, 0x90, 0x00, 0xA0]),
            (0x9000, &[0x60]),
            (0xA000, &[0x6B]),
        ],
        vec![Rule::JumpTable { pc: 0x008000, size: 2, long: false }],
    );
    assert_eq!(mnemonic_at(&dis, 0x009000), Mnemonic::RTS);
    assert_eq!(mnemonic_at(&dis, 0x00A000), Mnemonic::RTL);
    assert!(dis.subroutines.contains_key(&0x009000));
    assert!(dis.subroutines.contains_key(&0x00A000));
    assert!(dis.labels.contains(&0x009000));
    assert!(dis.labels.contains(&0x00A000));
    assert_eq!(dis.entries[&0x009000].stack, vec![StackDataType::RetAddr; 2]);
    assert_eq!(dis.entries[&0x009000].state, CpuState { m: true, x: true });
    // The jump through the pointer makes the reset handler divergent.
    assert!(dis.subroutines[&0x008000].divergent);
}

#[test]
fn long_jump_table_rule() {
    let dis = analysed(
        &[
            (0x8000, &[0xDC, 0x00, 0x00, 0x00, 0x00, 0x90, 0x00, 0x00, 0xA0, 0x00]),
            (0x9000, &[0x60]),
            (0xA000, &[0x60]),
        ],
        vec![Rule::JumpTable { pc: 0x008000, size: 2, long: true }],
    );
    assert_eq!(mnemonic_at(&dis, 0x009000), Mnemonic::RTS);
    assert_eq!(mnemonic_at(&dis, 0x00A000), Mnemonic::RTS);
    assert_eq!(dis.entries[&0x00A000].stack, vec![StackDataType::RetAddr; 3]);
}

#[test]
fn jump_table_in_another_bank_stays_in_its_bank() {
    let mut cart = vec![0u8; 0x10000];
    cart[0x0000] = 0x60;
    cart[0x7FFC..0x7FFE].copy_from_slice(&[0x00, 0x80]);
    // Bank 1: a table at 0x018004 that points to 0x9000.
    cart[0x8004..0x8006].copy_from_slice(&[0x00, 0x90]);
    cart[0x9000] = 0x60;
    let mut dis = Disassembler::new(Rom::new(cart, Mapper::LoRom));
    dis.process_rules(&vec![Rule::JumpTable { pc: 0x018000, size: 1, long: false }]);
    assert_eq!(mnemonic_at(&dis, 0x019000), Mnemonic::RTS);
    assert!(!dis.entries.contains_key(&0x009000));
}

#[test]
fn rule_outside_rom_is_skipped() {
    let with_rule = analysed(
        &[(0x8000, &[0x60]), (0x9000, &[0x60])],
        vec![Rule::JumpTable { pc: 0x000000, size: 4, long: false }],
    );
    let without = analysed(&[(0x8000, &[0x60]), (0x9000, &[0x60])], vec![]);
    assert_eq!(with_rule.entries, without.entries);
    assert_eq!(with_rule.subroutines, without.subroutines);
    assert_eq!(with_rule.labels, without.labels);
}

#[test]
fn divergent_callee() {
    let dis = analysed(
        &[(0x8000, &[0x20, 0x10, 0x80, 0xEA, 0x60]), (0x8010, &[0x6C, 0x00, 0x00])],
        vec![],
    );
    assert!(dis.subroutines[&0x008010].divergent);
    assert_eq!(dis.subroutines[&0x008010].sr_effect, effect(None, None));
    assert_eq!(dis.extra_rules, vec![Rule::JumpTable { pc: 0x008000, size: 0, long: false }]);
    // The walk ends at the call: what follows it is a table, not code.
    assert!(!dis.entries.contains_key(&0x008003));
    assert!(!dis.subroutines[&0x008000].divergent);
}

#[test]
fn divergent_callee_reached_by_long_call() {
    let dis = analysed(
        &[(0x8000, &[0x22, 0x10, 0x80, 0x00, 0x60]), (0x8010, &[0xDC, 0x00, 0x00])],
        vec![],
    );
    assert!(dis.subroutines[&0x008010].divergent);
    assert_eq!(dis.extra_rules, vec![Rule::JumpTable { pc: 0x008000, size: 0, long: true }]);
}

#[test]
fn return_clears_divergence() {
    // A jump through a pointer on one path, a return on the path walked
    // after it.
    let dis = analysed(&[(0x8000, &[0xF0, 0x03, 0x6C, 0x00, 0x00, 0x60])], vec![]);
    assert_eq!(mnemonic_at(&dis, 0x008002), Mnemonic::JMP);
    assert_eq!(mnemonic_at(&dis, 0x008005), Mnemonic::RTS);
    assert!(!dis.subroutines[&0x008000].divergent);
}

#[test]
fn php_plp_round_trip() {
    let mut dis = Disassembler::new(image(&[(0x8000, &[0x08, 0xC2, 0x30, 0x28, 0x60])]));
    let sub = dis.process(entry_point(0x008000, true, true));
    assert_eq!(sub.sr_effect, effect(None, None));
    assert_eq!(dis.subroutines[&0x008000].sr_effect, effect(None, None));
    assert_eq!(dis.entries[&0x008001].state, CpuState { m: true, x: true });
    assert_eq!(dis.entries[&0x008003].state, CpuState { m: false, x: false });
    assert_eq!(dis.entries[&0x008004].state, CpuState { m: true, x: true });
    assert_eq!(
        dis.entries[&0x008003].stack,
        vec![StackDataType::CpuState {
            state: CpuState { m: true, x: true },
            sr_state: effect(None, None),
        }]
    );
    assert!(dis.entries[&0x008004].stack.is_empty());
}

#[test]
fn flags_forced_outside_php_plp_are_seen() {
    let mut dis = Disassembler::new(image(&[(0x8000, &[0xC2, 0x30, 0x08, 0xE2, 0x20, 0x28, 0x60])]));
    let sub = dis.process(entry_point(0x008000, true, true));
    assert_eq!(sub.sr_effect, effect(Some(false), Some(false)));
    assert_eq!(dis.entries[&0x008006].state, CpuState { m: false, x: false });
}

#[test]
fn process_returns_the_stored_summary() {
    let mut dis = Disassembler::new(image(&[(0x8000, &[0xE2, 0x30, 0x60])]));
    let sub = dis.process(entry_point(0x008000, false, false));
    assert_eq!(sub, Subroutine { sr_effect: effect(Some(true), Some(true)), divergent: false });
    assert_eq!(dis.subroutines[&0x008000], sub);
    // A second request is answered from the table and changes nothing.
    let entries = dis.entries.len();
    let again = dis.process(entry_point(0x008000, true, true));
    assert_eq!(again, sub);
    assert_eq!(dis.entries.len(), entries);
    assert_eq!(dis.entries[&0x008000].state, CpuState { m: false, x: false });
}

#[test]
fn process_outside_rom_stores_an_empty_summary() {
    let mut dis = Disassembler::new(image(&[]));
    for pc in [0x000000u32, 0x007FFF, 0x018000, 0x7E8000, 0x0100_8000] {
        let sub = dis.process(entry_point(pc, true, true));
        assert_eq!(sub, Subroutine { sr_effect: effect(None, None), divergent: false });
        assert_eq!(dis.subroutines[&pc], sub);
    }
    assert!(dis.entries.is_empty());
    assert!(dis.labels.is_empty());
}

#[test]
fn walk_stops_at_the_end_of_the_page() {
    // NOPs up to the last byte of the bank: the walk must not run on into
    // the next bank.
    let mut cart = vec![0u8; 0x10000];
    cart[0x7FF0..0x8000].copy_from_slice(&[0xEA; 16]);
    let mut dis = Disassembler::new(Rom::new(cart, Mapper::LoRom));
    dis.process(entry_point(0x00FFF0, true, true));
    assert_eq!(dis.entries.len(), 16);
    assert!(dis.entries.contains_key(&0x00FFFF));
    assert!(!dis.entries.contains_key(&0x010000));
    assert!(!dis.entries.contains_key(&0x018000));
    assert!(dis.subroutines.contains_key(&0x00FFF0));
}

#[test]
fn walk_stops_where_the_operand_is_cut_off() {
    let mut cart = vec![0u8; 0x8000];
    cart[0x7FFE] = 0xEA;
    cart[0x7FFF] = 0x22; // JSL without its operand
    let mut dis = Disassembler::new(Rom::new(cart, Mapper::LoRom));
    dis.process(entry_point(0x00FFFE, true, true));
    assert_eq!(dis.entries.len(), 1);
    assert!(dis.entries.contains_key(&0x00FFFE));
}

#[test]
fn walk_stops_before_an_overlapping_entry() {
    // First 0x8001 is analysed as code; then a walk from 0x8000 finds an
    // instruction that would run across it.
    let mut dis = Disassembler::new(image(&[(0x8000, &[0xA9, 0x60, 0x60])]));
    dis.process(entry_point(0x008001, true, true));
    assert_eq!(mnemonic_at(&dis, 0x008001), Mnemonic::RTS);
    dis.process(entry_point(0x008000, true, true));
    assert!(!dis.entries.contains_key(&0x008000));
    assert!(dis.labels.contains(&0x008000));
    assert_eq!(
        dis.subroutines[&0x008000],
        Subroutine { sr_effect: effect(None, None), divergent: false }
    );
}

#[test]
fn convergence_adopts_the_known_summary() {
    let mut dis = Disassembler::new(image(&[(0x8000, &[0xEA, 0xEA, 0xE2, 0x20, 0x60])]));
    let inner = dis.process(entry_point(0x008002, true, true));
    assert_eq!(inner.sr_effect, effect(Some(true), None));
    // A walk from 0x8000 runs into the entries of the subroutine at 0x8002.
    let outer = dis.process(entry_point(0x008000, true, true));
    assert_eq!(outer, inner);
    assert_eq!(dis.subroutines[&0x008000], inner);
    assert_eq!(dis.entries[&0x008000].subroutine, 0x008000);
    assert_eq!(dis.entries[&0x008002].subroutine, 0x008002);
}

#[test]
fn recursion_ends() {
    // A subroutine that calls itself, and a pair that call each other.
    let dis = analysed(
        &[
            (0x8000, &[0x20, 0x00, 0x80, 0x20, 0x00, 0x90, 0x60]),
            (0x9000, &[0x20, 0x00, 0xA0, 0x60]),
            (0xA000, &[0x20, 0x00, 0x90, 0x60]),
        ],
        vec![],
    );
    for pc in [0x8000u32, 0x9000, 0xA000] {
        assert!(dis.subroutines.contains_key(&pc));
        assert_eq!(mnemonic_at(&dis, pc), Mnemonic::JSR);
    }
    assert_eq!(mnemonic_at(&dis, 0x8006), Mnemonic::RTS);
    assert_eq!(mnemonic_at(&dis, 0x9003), Mnemonic::RTS);
    assert_eq!(mnemonic_at(&dis, 0xA003), Mnemonic::RTS);
}

#[test]
fn loop_ends() {
    let dis = analysed(&[(0x8000, &[0xEA, 0x80, 0xFD])], vec![]);
    assert_eq!(mnemonic_at(&dis, 0x8000), Mnemonic::NOP);
    assert_eq!(mnemonic_at(&dis, 0x8001), Mnemonic::BRA);
    assert_eq!(dis.entries.len(), 2);
    assert!(dis.returns.is_empty());
    assert!(dis.labels.contains(&0x8000));
}

#[test]
fn stack_effects() {
    let of = |mnemonic| Instruction { mnemonic, mode: Mode::Imp, size: 0, argument: 0 };
    let mut dis = Disassembler::new(image(&[]));
    let narrow = CpuState { m: true, x: true };
    let wide = CpuState { m: false, x: false };
    let data = StackDataType::Data;
    let cases: Vec<(Mnemonic, CpuState, Vec<StackDataType>, Vec<StackDataType>)> = vec![
        (Mnemonic::PHA, narrow, vec![], vec![data]),
        (Mnemonic::PHA, wide, vec![], vec![data, data]),
        (Mnemonic::PHX, narrow, vec![data], vec![data, data]),
        (Mnemonic::PHY, wide, vec![], vec![data, data]),
        (Mnemonic::PHX, CpuState { m: true, x: false }, vec![], vec![data, data]),
        (Mnemonic::PHA, CpuState { m: true, x: false }, vec![], vec![data]),
        (Mnemonic::PEA, narrow, vec![], vec![data, data]),
        (Mnemonic::PER, narrow, vec![], vec![data, data]),
        (Mnemonic::PEI, narrow, vec![], vec![data, data]),
        (Mnemonic::PHD, narrow, vec![], vec![data, data]),
        (Mnemonic::PHB, wide, vec![], vec![StackDataType::Bank(0)]),
        (Mnemonic::PHK, wide, vec![data], vec![data, StackDataType::Bank(0)]),
        (Mnemonic::PLA, narrow, vec![data, data, data], vec![data, data]),
        (Mnemonic::PLA, wide, vec![data, data, data], vec![data]),
        (Mnemonic::PLX, narrow, vec![data, data], vec![data]),
        (Mnemonic::PLY, wide, vec![data, data], vec![]),
        (Mnemonic::PLD, narrow, vec![data, data, data], vec![data]),
        (Mnemonic::PLB, narrow, vec![data, StackDataType::Bank(0)], vec![data]),
        (Mnemonic::PLP, narrow, vec![data, data], vec![data]),
        // Pops from a stack that holds too little leave it empty.
        (Mnemonic::PLA, wide, vec![data], vec![]),
        (Mnemonic::PLD, narrow, vec![], vec![]),
        (Mnemonic::PLP, narrow, vec![], vec![]),
        (Mnemonic::NOP, narrow, vec![data], vec![data]),
        (Mnemonic::RTS, narrow, vec![StackDataType::RetAddr; 2], vec![StackDataType::RetAddr; 2]),
    ];
    for (mnemonic, flags, before, after) in cases {
        let mut state = flags;
        let mut seen = effect(Some(true), None);
        let mut stack = before;
        dis.apply_instr(&of(mnemonic), &mut state, &mut seen, &mut stack);
        assert_eq!(stack, after, "{:?}", mnemonic);
        assert_eq!(state, flags, "{:?}", mnemonic);
        assert_eq!(seen, effect(Some(true), None), "{:?}", mnemonic);
    }
}

#[test]
fn php_saves_and_plp_restores() {
    let of = |mnemonic| Instruction { mnemonic, mode: Mode::Imp, size: 0, argument: 0 };
    let mut dis = Disassembler::new(image(&[]));
    let mut state = CpuState { m: true, x: false };
    let mut seen = effect(None, Some(false));
    let mut stack = vec![];
    dis.apply_instr(&of(Mnemonic::PHP), &mut state, &mut seen, &mut stack);
    assert_eq!(
        stack,
        vec![StackDataType::CpuState {
            state: CpuState { m: true, x: false },
            sr_state: effect(None, Some(false)),
        }]
    );
    state = CpuState { m: false, x: true };
    seen = effect(Some(false), Some(true));
    dis.apply_instr(&of(Mnemonic::PLP), &mut state, &mut seen, &mut stack);
    assert!(stack.is_empty());
    assert_eq!(state, CpuState { m: true, x: false });
    assert_eq!(seen, effect(None, Some(false)));
}

#[test]
fn copy_stack_copies() {
    let stack = vec![StackDataType::Data, StackDataType::RetAddr, StackDataType::Bank(3)];
    assert_eq!(copy_stack(&stack), stack);
    assert!(copy_stack(&vec![]).is_empty());
}

#[test]
fn defaults_are_empty() {
    assert_eq!(SrCpuState::default(), effect(None, None));
    assert_eq!(
        Subroutine::default(),
        Subroutine { sr_effect: effect(None, None), divergent: false }
    );
}

/// An image with calls, branches, jumps and a dispatcher, used to try the
/// properties that hold of every analysis.
fn busy_image() -> Vec<(u32, Vec<u8>)> {
    vec![
        (
            0x8000,
            vec![
                0x78, 0x18, 0xFB, 0xC2, 0x30, 0xA9, 0x34, 0x12, 0x20, 0x00, 0x90, 0x22, 0x00, 0xA0,
                0x00, 0xF0, 0x03, 0x4C, 0x20, 0x80, 0x20, 0x00, 0xB0, 0x00, 0x02, 0x03,
            ],
        ),
        (0x8020, vec![0x08, 0xE2, 0x20, 0xA9, 0x01, 0x28, 0x80, 0x02, 0xFF, 0xFF, 0x60]),
        (0x9000, vec![0xE2, 0x20, 0xD0, 0x01, 0x60, 0xC2, 0x10, 0x60]),
        (0xA000, vec![0x48, 0xDA, 0x20, 0x00, 0x90, 0xFA, 0x68, 0x6B]),
        (0xB000, vec![0x7C, 0x00, 0x00]),
    ]
}

fn busy_engine() -> Disassembler {
    let parts = busy_image();
    let code: Vec<(u32, &[u8])> = parts.iter().map(|(a, b)| (*a, b.as_slice())).collect();
    analysed(&code, vec![Rule::JumpTable { pc: 0x008014, size: 1, long: false }])
}

#[test]
fn every_entry_lies_in_rom_and_decodes() {
    let dis = busy_engine();
    assert!(dis.entries.len() > 20);
    for (&pc, entry) in &dis.entries {
        assert!(dis.rom.is_mapped(pc));
        let (len, instr) = snes_iris::cpu::parse_instr(dis.rom.slice(pc), entry.state).unwrap();
        assert_eq!(instr, entry.instr);
        assert_eq!(len, entry.instr.size + 1);
    }
}

#[test]
fn every_owner_and_callee_has_a_summary() {
    let dis = busy_engine();
    for (&pc, entry) in &dis.entries {
        assert!(dis.subroutines.contains_key(&entry.subroutine));
        if let Some(target) = entry.instr.jsr_addr(pc) {
            assert!(dis.subroutines.contains_key(&target));
        }
    }
}

#[test]
fn every_return_is_an_entry() {
    let dis = busy_engine();
    assert!(!dis.returns.is_empty());
    for pc in &dis.returns {
        let mnemonic = dis.entries[pc].instr.mnemonic;
        assert!(mnemonic == Mnemonic::RTS || mnemonic == Mnemonic::RTL);
    }
}

#[test]
fn entries_do_not_overlap() {
    let dis = busy_engine();
    for (&pc, entry) in &dis.entries {
        for inside in pc + 1..pc + entry.instr.size as u32 + 1 {
            assert!(!dis.entries.contains_key(&inside));
        }
    }
}

#[test]
fn analysis_is_repeatable() {
    let a = busy_engine();
    let b = busy_engine();
    assert_eq!(a.entries, b.entries);
    assert_eq!(a.labels, b.labels);
    assert_eq!(a.returns, b.returns);
    assert_eq!(a.subroutines, b.subroutines);
    assert_eq!(a.extra_rules, b.extra_rules);
}

#[test]
fn busy_image_summaries() {
    let dis = busy_engine();
    assert_eq!(dis.subroutines[&0x009000].sr_effect, effect(Some(true), Some(false)));
    assert!(dis.subroutines[&0x00B000].divergent);
    assert_eq!(dis.extra_rules, vec![Rule::JumpTable { pc: 0x008014, size: 0, long: false }]);
    // The rule's table holds one pointer, 0x0302 in bank 0, which is no ROM.
    assert!(dis.subroutines.contains_key(&0x000302));
    // REP #$30 made the LDA sixteen bits wide.
    assert_eq!(dis.entries[&0x008005].instr.argument, 0x1234);
    // The call before it left M set and X clear: PHA pushes one byte and
    // PHX two, on top of the long return address.
    assert_eq!(dis.entries[&0x00A000].state, CpuState { m: true, x: false });
    assert_eq!(dis.entries[&0x00A002].stack.len(), 3 + 1 + 2);
}

#[test]
fn every_return_instruction_is_noted() {
    let dis = busy_engine();
    let mut seen = 0;
    for (pc, entry) in &dis.entries {
        let mnemonic = entry.instr.mnemonic;
        if mnemonic == Mnemonic::RTS || mnemonic == Mnemonic::RTL {
            assert!(dis.returns.contains(pc));
            seen += 1;
        }
    }
    assert_eq!(seen, dis.returns.len());
}

#[test]
fn every_jump_target_in_rom_is_a_label() {
    let dis = busy_engine();
    let mut seen = 0;
    for (&pc, entry) in &dis.entries {
        if let Some(target) = entry.instr.jump_addr(pc) {
            if dis.rom.is_mapped(target) {
                assert!(dis.labels.contains(&target));
                seen += 1;
            }
        }
    }
    assert!(seen >= 4);
}

#[test]
fn a_jump_out_of_rom_leaves_no_label() {
    let dis = analysed(&[(0x8000, &[0x4C, 0x00, 0x10])], vec![]);
    assert_eq!(mnemonic_at(&dis, 0x8000), Mnemonic::JMP);
    assert!(!dis.labels.contains(&0x001000));
    assert_eq!(dis.labels.len(), 1);
}

#[test]
fn a_traversal_only_adds_to_the_tables() {
    let parts = busy_image();
    let code: Vec<(u32, &[u8])> = parts.iter().map(|(a, b)| (*a, b.as_slice())).collect();
    let mut dis = Disassembler::new(image(&code));
    dis.process(entry_point(0x009000, true, true));
    let entries = dis.entries.clone();
    let subroutines = dis.subroutines.clone();
    let labels = dis.labels.clone();
    let returns = dis.returns.clone();
    dis.process_rules(&vec![Rule::JumpTable { pc: 0x008014, size: 1, long: false }]);
    assert!(dis.entries.len() > entries.len());
    for (pc, entry) in &entries {
        assert_eq!(&dis.entries[pc], entry);
    }
    for (pc, sub) in &subroutines {
        assert_eq!(&dis.subroutines[pc], sub);
    }
    assert!(labels.is_subset(&dis.labels));
    assert!(returns.is_subset(&dis.returns));
}

#[test]
fn vector_handlers_keep_their_summaries() {
    let mut cart = vec![0u8; 0x8000];
    // Reset: SEP #$20, JSR to the interrupt handler, RTS.
    cart[0x0000..0x0006].copy_from_slice(&[0xE2, 0x20, 0x20, 0x00, 0x81, 0x60]);
    // Interrupt request: REP #$10, RTI-free return.
    cart[0x0100..0x0103].copy_from_slice(&[0xC2, 0x10, 0x60]);
    // Non-maskable interrupt: runs into the interrupt handler's code.
    cart[0x00FE..0x0100].copy_from_slice(&[0xEA, 0xEA]);
    cart[0x7FFC..0x7FFE].copy_from_slice(&[0x00, 0x80]);
    cart[0x7FEE..0x7FF0].copy_from_slice(&[0x00, 0x81]);
    cart[0x7FEA..0x7FEC].copy_from_slice(&[0xFE, 0x80]);
    let rom = Rom::new(cart, Mapper::LoRom);

    let mut first = Disassembler::new(rom.clone());
    let reset = first.process(entry_point(0x008000, true, true));
    assert_eq!(reset.sr_effect, effect(Some(true), Some(false)));

    let mut dis = Disassembler::new(rom);
    dis.process_rules(&vec![Rule::JumpTable { pc: 0x008000, size: 3, long: false }]);
    assert_eq!(dis.subroutines[&0x008000], reset);
    assert_eq!(dis.subroutines[&0x008100].sr_effect, effect(None, Some(false)));
    // The handler that runs into known code adopts that code's summary.
    assert_eq!(dis.subroutines[&0x0080FE], dis.subroutines[&0x008100]);
}

#[test]
fn data_entries_are_all_alike() {
    assert_eq!(DataEntry {}, DataEntry {});
}
