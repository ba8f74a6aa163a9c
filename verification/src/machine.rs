//! The traversal, stated as a machine.
//!
//! Analysing a subroutine can require analysing the subroutines it calls
//! first, so the state of a traversal is a stack of frames, one for each
//! subroutine under analysis. `step` performs one decision of the topmost
//! frame and `run` repeats it until the bottom frame returns. The analysis
//! engine executes exactly these steps.

use crate::cpu::Mnemonic::{
    JML, JMP, JSL, PEA, PEI, PER, PHA, PHB, PHD, PHK, PHP, PHX, PHY, PLA, PLB, PLD, PLP, PLX, PLY,
    RTL, RTS,
};
use crate::cpu::{decode, CpuState, Instruction};
use crate::dis::{Analysis, EntryView, QueueEntryView, Rule, SrCpuState, StackDataType, Subroutine};
use crate::rom::{is_rom_addr, le_value, page_rest, rom_offset};
use vstd::prelude::*;

verus! {

/// The flags after a call to a subroutine with the given effect.
pub open spec fn fold_flags(effect: SrCpuState, state: CpuState) -> CpuState {
    CpuState {
        m: match effect.affect_m {
            Some(v) => v,
            None => state.m,
        },
        x: match effect.affect_x {
            Some(v) => v,
            None => state.x,
        },
    }
}

/// What has been seen of the flags after a call to a subroutine with the
/// given effect.
pub open spec fn fold_seen(effect: SrCpuState, seen: SrCpuState) -> SrCpuState {
    SrCpuState {
        affect_m: match effect.affect_m {
            Some(v) => Some(v),
            None => seen.affect_m,
        },
        affect_x: match effect.affect_x {
            Some(v) => Some(v),
            None => seen.affect_x,
        },
    }
}

/// What has been seen of the flags after `instr`.
pub open spec fn seen_flags_after(instr: Instruction, seen: SrCpuState) -> SrCpuState {
    SrCpuState {
        affect_m: instr.seen_after(0x20, seen.affect_m),
        affect_x: instr.seen_after(0x10, seen.affect_x),
    }
}

/// `n` data bytes.
pub open spec fn data_bytes(n: nat) -> Seq<StackDataType> {
    Seq::new(n, |i: int| StackDataType::Data)
}

/// Width in bytes of a register that is narrow when `flag` is set.
pub open spec fn register_width(flag: bool) -> nat {
    if flag {
        1
    } else {
        2
    }
}

/// The bytes that `instr` pushes.
pub open spec fn pushed(instr: Instruction, state: CpuState, seen: SrCpuState) -> Seq<
    StackDataType,
> {
    match instr.mnemonic {
        PHP => seq![StackDataType::CpuState { state, sr_state: seen }],
        PHA => data_bytes(register_width(state.m)),
        PHX | PHY => data_bytes(register_width(state.x)),
        PEA | PER | PEI | PHD => data_bytes(2),
        PHK | PHB => seq![StackDataType::Bank(0)],
        _ => Seq::empty(),
    }
}

/// The number of bytes that `instr` pops.
pub open spec fn popped(instr: Instruction, state: CpuState) -> nat {
    match instr.mnemonic {
        PLP | PLB => 1,
        PLA => register_width(state.m),
        PLX | PLY => register_width(state.x),
        PLD => 2,
        _ => 0,
    }
}

/// `stack` without its top `n` bytes, or empty where it holds fewer.
pub open spec fn without_top(stack: Seq<StackDataType>, n: nat) -> Seq<StackDataType> {
    if n >= stack.len() {
        Seq::empty()
    } else {
        stack.take(stack.len() - n)
    }
}

/// The shadow stack after `instr`.
pub open spec fn stack_after(
    instr: Instruction,
    state: CpuState,
    seen: SrCpuState,
    stack: Seq<StackDataType>,
) -> Seq<StackDataType> {
    without_top(stack, popped(instr, state)) + pushed(instr, state, seen)
}

/// The flags that `PLP` finds on top of the stack, where `instr` is `PLP`
/// and the top byte holds saved flags.
pub open spec fn restored(instr: Instruction, stack: Seq<StackDataType>) -> Option<
    (CpuState, SrCpuState),
> {
    if instr.mnemonic == PLP && stack.len() > 0 {
        match stack.last() {
            StackDataType::CpuState { state, sr_state } => Some((state, sr_state)),
            _ => None,
        }
    } else {
        None
    }
}

/// The instruction at `pc`, where `pc` is a ROM address and the rest of its
/// page holds a whole instruction.
pub open spec fn decode_at(rom: Seq<u8>, pc: u32, flags: CpuState) -> Option<
    (usize, Instruction),
> {
    if is_rom_addr(rom, pc) {
        decode(page_rest(rom, pc), flags)
    } else {
        None
    }
}

/// Whether an entry starts inside the `len` bytes at `pc`, behind the first.
pub open spec fn overlaps(entries: Map<u32, EntryView>, pc: u32, len: usize) -> bool {
    exists|a: u32| pc < a && a < pc + len && #[trigger] entries.contains_key(a)
}

/// The analysis of one subroutine, in progress.
pub struct FrameView {
    /// The address at which the subroutine starts.
    pub root: u32,
    /// Whether the subroutine was found to need analysis.
    pub started: bool,
    /// The walks still to be made; the last is made first.
    pub queue: Seq<QueueEntryView>,
    /// The flag effect seen at the last return instruction.
    pub effect: SrCpuState,
    /// Set by a jump through a pointer, cleared by a return instruction.
    pub divergent: bool,
    /// Whether a straight-line walk is under way.
    pub walking: bool,
    /// Where the walk stands, and with what state.
    pub cursor: QueueEntryView,
    /// The address behind the call that the frame waits for.
    pub call_next: u32,
    /// Whether that call is a long one.
    pub call_long: bool,
}

/// What a step of a frame asks of the machine.
pub enum Outcome {
    /// Go on with the same frame.
    Continue,
    /// Analyse a called subroutine first.
    Call(FrameView),
    /// The subroutine is done; hand its summary to the caller.
    Return(Subroutine),
}

/// The result of one step of a frame.
pub struct Stepped {
    pub tables: Analysis,
    pub frame: FrameView,
    pub outcome: Outcome,
}

/// A cursor that stands nowhere.
pub open spec fn idle_cursor() -> QueueEntryView {
    QueueEntryView {
        pc: 0,
        stack: Seq::empty(),
        state: CpuState { m: true, x: true },
        sr_state: SrCpuState::untouched(),
    }
}

/// The frame for a subroutine that is entered with `item`.
pub open spec fn fresh_frame(item: QueueEntryView) -> FrameView {
    FrameView {
        root: item.pc,
        started: false,
        queue: seq![item],
        effect: SrCpuState::untouched(),
        divergent: false,
        walking: false,
        cursor: idle_cursor(),
        call_next: 0,
        call_long: false,
    }
}

/// Entering a subroutine. One that has a summary returns it at once. One
/// that lies outside ROM gets the summary of an unknown subroutine. Any
/// other is analysed.
pub open spec fn enter(t: Analysis, f: FrameView) -> Stepped {
    if t.subroutines.contains_key(f.root) {
        Stepped { tables: t, frame: f, outcome: Outcome::Return(t.subroutines[f.root]) }
    } else if !is_rom_addr(t.rom, f.root) {
        Stepped {
            tables: Analysis {
                subroutines: t.subroutines.insert(f.root, Subroutine::unknown()),
                ..t
            },
            frame: f,
            outcome: Outcome::Return(Subroutine::unknown()),
        }
    } else {
        Stepped { tables: t, frame: FrameView { started: true, ..f }, outcome: Outcome::Continue }
    }
}

/// Taking the next walk from the worklist. A start in ROM becomes a label
/// and the walk begins there; any other start is dropped.
pub open spec fn take_next(t: Analysis, f: FrameView) -> Stepped {
    let item = f.queue.last();
    let rest = FrameView { queue: f.queue.drop_last(), ..f };
    if is_rom_addr(t.rom, item.pc) {
        Stepped {
            tables: Analysis { labels: t.labels.insert(item.pc), ..t },
            frame: FrameView { walking: true, cursor: item, ..rest },
            outcome: Outcome::Continue,
        }
    } else {
        Stepped { tables: t, frame: rest, outcome: Outcome::Continue }
    }
}

/// The summary that a finished frame has gathered.
pub open spec fn gathered(f: FrameView) -> Subroutine {
    Subroutine { sr_effect: f.effect, divergent: f.divergent }
}

/// Finishing a subroutine whose worklist is empty. The first summary
/// written for an address stays.
pub open spec fn finish(t: Analysis, f: FrameView) -> Stepped {
    if t.subroutines.contains_key(f.root) {
        Stepped { tables: t, frame: f, outcome: Outcome::Return(t.subroutines[f.root]) }
    } else {
        Stepped {
            tables: Analysis { subroutines: t.subroutines.insert(f.root, gathered(f)), ..t },
            frame: f,
            outcome: Outcome::Return(gathered(f)),
        }
    }
}

/// A walk that runs into an entry at its own address. Where that entry
/// belongs to another subroutine whose summary is known, the summary is
/// folded in and adopted for this subroutine. The walk ends.
pub open spec fn converge(t: Analysis, f: FrameView) -> Stepped {
    let owner = t.entries[f.cursor.pc].subroutine;
    let stopped = FrameView { walking: false, ..f };
    if owner != f.root && t.subroutines.contains_key(owner) {
        let sub = t.subroutines[owner];
        Stepped {
            tables: Analysis { subroutines: t.subroutines.insert(f.root, sub), ..t },
            frame: FrameView { effect: fold_seen(sub.sr_effect, f.effect), ..stopped },
            outcome: Outcome::Continue,
        }
    } else {
        Stepped { tables: t, frame: stopped, outcome: Outcome::Continue }
    }
}

/// Whether `instr` jumps through a pointer: a jump whose target the
/// instruction does not name.
pub open spec fn dispatches(instr: Instruction, pc: u32) -> bool {
    (instr.mnemonic == JMP || instr.mnemonic == JML) && instr.spec_jump_addr(pc) is None
}

/// Whether `instr` returns from a subroutine.
pub open spec fn returns_from(instr: Instruction) -> bool {
    instr.mnemonic == RTS || instr.mnemonic == RTL
}

/// The cursor after `instr` has taken its effect on flags and stack, still
/// at the instruction's address.
pub open spec fn cursor_after(instr: Instruction, c: QueueEntryView) -> QueueEntryView {
    let state = instr.flags_after(c.state);
    let seen = seen_flags_after(instr, c.sr_state);
    let stack = stack_after(instr, state, seen, c.stack);
    match restored(instr, c.stack) {
        Some(saved) => QueueEntryView { pc: c.pc, stack, state: saved.0, sr_state: saved.1 },
        None => QueueEntryView { pc: c.pc, stack, state, sr_state: seen },
    }
}

/// The return address that a call leaves on the stack.
pub open spec fn return_frame(long: bool) -> Seq<StackDataType> {
    Seq::new(
        if long {
            3
        } else {
            2
        },
        |i: int| StackDataType::RetAddr,
    )
}

/// Recording the instruction `instr` of `len` bytes at the cursor and
/// following it: its entry is stored, its effects are applied, a return is
/// noted, a jump target is queued, a call is handed to the machine, and the
/// walk moves on unless the instruction never falls through.
pub open spec fn record(t: Analysis, f: FrameView, len: usize, instr: Instruction) -> Stepped {
    let pc = f.cursor.pc;
    let entry = EntryView {
        stack: f.cursor.stack,
        state: f.cursor.state,
        instr,
        subroutine: f.root,
    };
    let after = cursor_after(instr, f.cursor);
    let next = (pc + len) as u32;
    let tables = Analysis {
        entries: t.entries.insert(pc, entry),
        returns: if returns_from(instr) {
            t.returns.insert(pc)
        } else {
            t.returns
        },
        ..t
    };
    let noted = FrameView {
        effect: if returns_from(instr) {
            after.sr_state
        } else {
            f.effect
        },
        divergent: if returns_from(instr) {
            false
        } else if dispatches(instr, pc) {
            true
        } else {
            f.divergent
        },
        cursor: after,
        ..f
    };
    let moved = FrameView {
        walking: !instr.spec_divergent(),
        cursor: if instr.spec_divergent() {
            after
        } else {
            QueueEntryView { pc: next, ..after }
        },
        ..noted
    };
    match instr.spec_jump_addr(pc) {
        Some(target) => Stepped {
            tables,
            frame: FrameView {
                queue: f.queue.push(QueueEntryView { pc: target, ..after }),
                ..moved
            },
            outcome: Outcome::Continue,
        },
        None => match instr.spec_jsr_addr(pc) {
            Some(target) => Stepped {
                tables,
                frame: FrameView {
                    call_next: next,
                    call_long: instr.mnemonic == JSL,
                    ..noted
                },
                outcome: Outcome::Call(
                    fresh_frame(
                        QueueEntryView {
                            pc: target,
                            stack: return_frame(instr.mnemonic == JSL),
                            state: after.state,
                            sr_state: SrCpuState::untouched(),
                        },
                    ),
                ),
            },
            None => Stepped { tables, frame: moved, outcome: Outcome::Continue },
        },
    }
}

/// One instruction of a straight-line walk. The walk ends where nothing
/// decodes, and where the instruction would start at or run across an
/// address that already has an entry.
pub open spec fn walk_step(t: Analysis, f: FrameView) -> Stepped {
    let pc = f.cursor.pc;
    match decode_at(t.rom, pc, f.cursor.state) {
        None => Stepped {
            tables: t,
            frame: FrameView { walking: false, ..f },
            outcome: Outcome::Continue,
        },
        Some(found) => if t.entries.contains_key(pc) {
            converge(t, f)
        } else if overlaps(t.entries, pc, found.0) {
            Stepped {
                tables: t,
                frame: FrameView { walking: false, ..f },
                outcome: Outcome::Continue,
            }
        } else {
            record(t, f, found.0, found.1)
        },
    }
}

/// One step of a frame.
pub open spec fn frame_step(t: Analysis, f: FrameView) -> Stepped {
    if !f.started {
        enter(t, f)
    } else if f.walking {
        walk_step(t, f)
    } else if f.queue.len() > 0 {
        take_next(t, f)
    } else {
        finish(t, f)
    }
}

/// The caller's frame after a call has returned the summary `sub`. The
/// callee's effect is folded into the caller's flags. After a divergent
/// callee the walk ends, and the call site is noted as a jump table whose
/// size is not known.
pub open spec fn resume(t: Analysis, caller: FrameView, sub: Subroutine) -> Stepped {
    let c = caller.cursor;
    let folded = QueueEntryView {
        state: fold_flags(sub.sr_effect, c.state),
        sr_state: fold_seen(sub.sr_effect, c.sr_state),
        ..c
    };
    if sub.divergent {
        Stepped {
            tables: Analysis {
                extra_rules: t.extra_rules.push(
                    Rule::JumpTable { pc: c.pc, size: 0, long: caller.call_long },
                ),
                ..t
            },
            frame: FrameView { divergent: false, walking: false, cursor: folded, ..caller },
            outcome: Outcome::Continue,
        }
    } else {
        Stepped {
            tables: t,
            frame: FrameView {
                cursor: QueueEntryView { pc: caller.call_next, ..folded },
                ..caller
            },
            outcome: Outcome::Continue,
        }
    }
}

/// A traversal: the tables, the frame at work, the frames of its callers,
/// and the summary of the bottom frame once that has returned.
pub struct Machine {
    pub tables: Analysis,
    pub below: Seq<FrameView>,
    pub top: FrameView,
    pub result: Option<Subroutine>,
}

/// The machine that analyses the subroutine entered with `item`.
pub open spec fn start(t: Analysis, item: QueueEntryView) -> Machine {
    Machine { tables: t, below: Seq::empty(), top: fresh_frame(item), result: None }
}

/// One step of the machine.
#[verifier::opaque]
pub open spec fn step(m: Machine) -> Machine {
    let s = frame_step(m.tables, m.top);
    match s.outcome {
        Outcome::Continue => Machine { tables: s.tables, top: s.frame, ..m },
        Outcome::Call(callee) => Machine {
            tables: s.tables,
            below: m.below.push(s.frame),
            top: callee,
            result: None,
        },
        Outcome::Return(sub) => if m.below.len() == 0 {
            Machine { tables: s.tables, top: s.frame, result: Some(sub), ..m }
        } else {
            let r = resume(s.tables, m.below.last(), sub);
            Machine { tables: r.tables, below: m.below.drop_last(), top: r.frame, result: None }
        },
    }
}

/// The number of ROM addresses below `n` that have no entry.
pub open spec fn unvisited(rom: Seq<u8>, entries: Map<u32, EntryView>, n: nat) -> nat
    decreases n,
{
    if n == 0 {
        0
    } else {
        let a = (n - 1) as u32;
        unvisited(rom, entries, (n - 1) as nat) + if is_rom_addr(rom, a) && !entries.contains_key(
            a,
        ) {
            1nat
        } else {
            0nat
        }
    }
}

/// The ROM addresses that have no entry yet.
pub open spec fn unvisited_total(t: Analysis) -> nat {
    unvisited(t.rom, t.entries, 0x100_0000)
}

/// What a frame has left to do without recording an instruction.
pub open spec fn weight(f: FrameView) -> nat {
    2 * f.queue.len() + if f.walking {
        1nat
    } else {
        0nat
    } + if f.started {
        0nat
    } else {
        2nat
    }
}

/// A new entry at a ROM address takes one from the unvisited addresses.
pub proof fn lemma_unvisited_insert(
    rom: Seq<u8>,
    entries: Map<u32, EntryView>,
    pc: u32,
    e: EntryView,
    n: nat,
)
    requires
        is_rom_addr(rom, pc),
        !entries.contains_key(pc),
        n <= 0x100_0000,
    ensures
        pc < n ==> unvisited(rom, entries, n) >= 1 && unvisited(rom, entries.insert(pc, e), n)
            == unvisited(rom, entries, n) - 1,
        pc >= n ==> unvisited(rom, entries.insert(pc, e), n) == unvisited(rom, entries, n),
    decreases n,
{
    if n > 0 {
        lemma_unvisited_insert(rom, entries, pc, e, (n - 1) as nat);
    }
}

/// Every step of a running machine brings it nearer to its end: it records
/// an instruction, or returns from a frame, or lightens the top frame.
pub proof fn lemma_step_decreases(m: Machine)
    requires
        m.result is None,
    ensures
        unvisited_total(step(m).tables) <= unvisited_total(m.tables),
        unvisited_total(step(m).tables) == unvisited_total(m.tables) ==> step(m).below.len()
            <= m.below.len(),
        unvisited_total(step(m).tables) == unvisited_total(m.tables) && step(m).below.len()
            == m.below.len() ==> weight(step(m).top) <= weight(m.top),
        unvisited_total(step(m).tables) == unvisited_total(m.tables) && step(m).below.len()
            == m.below.len() && weight(step(m).top) == weight(m.top) ==> step(m).result is Some,
{
    reveal(step);
    let t = m.tables;
    let f = m.top;
    if f.started && f.walking {
        let pc = f.cursor.pc;
        match decode_at(t.rom, pc, f.cursor.state) {
            None => {},
            Some(found) => {
                if !t.entries.contains_key(pc) && !overlaps(t.entries, pc, found.0) {
                    let s = record(t, f, found.0, found.1);
                    lemma_unvisited_insert(t.rom, t.entries, pc, s.tables.entries[pc], 0x100_0000);
                    assert(s.tables.entries =~= t.entries.insert(pc, s.tables.entries[pc]));
                }
            },
        }
    }
}

/// The machine when it has come to its end.
pub open spec fn run(m: Machine) -> Machine
    decreases unvisited_total(m.tables), m.below.len(), weight(m.top),
        if m.result is Some { 0nat } else { 1nat },
    via run_decreases
{
    if m.result is Some {
        m
    } else {
        run(step(m))
    }
}

#[via_fn]
proof fn run_decreases(m: Machine) {
    if m.result is None {
        lemma_step_decreases(m);
    }
}


/// Every entry holds the instruction that its address decodes to under the
/// flags recorded with it. Such an address lies in ROM.
pub open spec fn entries_sound(t: Analysis) -> bool {
    forall|a: u32| #[trigger]
        t.entries.contains_key(a) ==> decode_at(t.rom, a, t.entries[a].state) == Some(
            ((t.entries[a].instr.size + 1) as usize, t.entries[a].instr),
        )
}

/// Every address noted as a return holds an entry for `RTS` or `RTL`.
pub open spec fn returns_sound(t: Analysis) -> bool {
    forall|a: u32| #[trigger]
        t.returns.contains(a) ==> t.entries.contains_key(a) && returns_from(t.entries[a].instr)
}

/// Every entry for `RTS` or `RTL` is noted as a return.
pub open spec fn returns_complete(t: Analysis) -> bool {
    forall|a: u32| #[trigger]
        t.entries.contains_key(a) && returns_from(t.entries[a].instr) ==> t.returns.contains(a)
}

/// Every ROM address that an entry jumps or branches to is a label.
pub open spec fn jumps_labelled(t: Analysis) -> bool {
    forall|a: u32| #[trigger]
        t.entries.contains_key(a) ==> (t.entries[a].instr.spec_jump_addr(a) matches Some(target)
            ==> is_rom_addr(t.rom, target) ==> t.labels.contains(target))
}

/// Whether the frame `f` is at work and has a walk from `x` on its
/// worklist.
pub open spec fn queued(f: FrameView, x: u32) -> bool {
    f.started && exists|j: int| 0 <= j < f.queue.len() && #[trigger] f.queue[j].pc == x
}

/// Whether a walk from `x` is still to be made.
pub open spec fn pending(m: Machine, x: u32) -> bool {
    m.result is None && (queued(m.top, x) || exists|i: int|
        0 <= i < m.below.len() && queued(#[trigger] m.below[i], x))
}

/// Every ROM address that an entry jumps or branches to is a label, or a
/// walk from it is still to be made.
pub open spec fn jumps_in_hand(m: Machine) -> bool {
    forall|a: u32| #[trigger]
        m.tables.entries.contains_key(a) ==> (m.tables.entries[a].instr.spec_jump_addr(
            a,
        ) matches Some(target) ==> is_rom_addr(m.tables.rom, target)
            ==> m.tables.labels.contains(target) || pending(m, target))
}

/// Whether a frame for the subroutine at `x` waits for a call to return.
pub open spec fn awaited(below: Seq<FrameView>, x: u32) -> bool {
    exists|i: int| 0 <= i < below.len() && #[trigger] below[i].root == x
}

/// Whether the subroutine at `x` has a summary or is under analysis.
pub open spec fn accounted(m: Machine, x: u32) -> bool {
    m.tables.subroutines.contains_key(x) || (m.result is None && (m.top.root == x || awaited(
        m.below,
        x,
    )))
}

/// The subroutine that owns an entry, and the subroutine that a recorded
/// call enters, each have a summary or are under analysis.
pub open spec fn subroutines_accounted(m: Machine) -> bool {
    forall|a: u32| #[trigger]
        m.tables.entries.contains_key(a) ==> accounted(m, m.tables.entries[a].subroutine) && (
        m.tables.entries[a].instr.spec_jsr_addr(a) matches Some(target) ==> accounted(
            m,
            target,
        ))
}

/// What holds of a traversal at every step.
pub open spec fn sound(m: Machine) -> bool {
    &&& entries_sound(m.tables)
    &&& returns_sound(m.tables)
    &&& returns_complete(m.tables)
    &&& subroutines_accounted(m)
}

impl Analysis {
    /// What holds of the tables whenever no traversal is under way: the
    /// entries are what the image decodes to at addresses in ROM, the
    /// returns are exactly the entries for `RTS` or `RTL`, and every
    /// subroutine that owns an entry or is called from one has a summary,
    /// and every ROM address that an entry jumps or branches to is a label.
    pub open spec fn wf(self) -> bool {
        &&& entries_sound(self)
        &&& returns_sound(self)
        &&& returns_complete(self)
        &&& jumps_labelled(self)
        &&& forall|a: u32| #[trigger]
            self.entries.contains_key(a) ==> self.subroutines.contains_key(
                self.entries[a].subroutine,
            ) && (self.entries[a].instr.spec_jsr_addr(a) matches Some(target)
                ==> self.subroutines.contains_key(target))
    }
}

/// An entry lies in ROM and its instruction has at most three operand
/// bytes.
pub proof fn lemma_entry_in_rom(t: Analysis, a: u32)
    requires
        entries_sound(t),
        t.entries.contains_key(a),
    ensures
        is_rom_addr(t.rom, a),
        t.entries[a].instr.size <= 3,
{
    crate::cpu::lemma_decode_shape(page_rest(t.rom, a), t.entries[a].state);
}

/// The instruction of an entry ends inside the bank of its address.
pub proof fn lemma_entry_in_bank(t: Analysis, a: u32)
    requires
        entries_sound(t),
        t.entries.contains_key(a),
    ensures
        a % 0x1_0000 + t.entries[a].instr.size + 1 <= 0x1_0000,
{
    crate::cpu::lemma_decode_shape(page_rest(t.rom, a), t.entries[a].state);
    let off = rom_offset(a);
    assert(page_rest(t.rom, a).len() <= 0x8000 - a % 0x8000) by {
        assert(off % 0x8000 == a % 0x8000);
        assert(off / 0x8000 * 0x8000 + off % 0x8000 == off);
    }
    assert(a % 0x1_0000 == 0x8000 + a % 0x8000);
}

proof fn lemma_record_sound(m: Machine, len: usize, instr: Instruction)
    requires
        m.result is None,
        sound(m),
        m.top.started,
        m.top.walking,
        decode_at(m.tables.rom, m.top.cursor.pc, m.top.cursor.state) == Some((len, instr)),
        !m.tables.entries.contains_key(m.top.cursor.pc),
        frame_step(m.tables, m.top) == record(m.tables, m.top, len, instr),
    ensures
        sound(step(m)),
{
    reveal(step);
    let t = m.tables;
    let f = m.top;
    let pc = f.cursor.pc;
    let s = record(t, f, len, instr);
    let n = step(m);
    crate::cpu::lemma_decode_shape(page_rest(t.rom, pc), f.cursor.state);
    assert(n.tables == s.tables);
    assert(n.result is None);
    assert forall|a: u32| #[trigger] n.tables.entries.contains_key(a) implies decode_at(
        n.tables.rom,
        a,
        n.tables.entries[a].state,
    ) == Some(((n.tables.entries[a].instr.size + 1) as usize, n.tables.entries[a].instr)) by {
        if a != pc {
            assert(t.entries.contains_key(a));
        }
    }
    assert forall|a: u32| #[trigger] n.tables.returns.contains(a) implies n.tables.entries.contains_key(
        a,
    ) && returns_from(n.tables.entries[a].instr) by {
        if a != pc {
            assert(t.returns.contains(a));
        }
    }
    assert forall|a: u32| #[trigger]
        n.tables.entries.contains_key(a) && returns_from(
            n.tables.entries[a].instr,
        ) implies n.tables.returns.contains(a) by {
        if a != pc {
            assert(t.entries.contains_key(a));
        }
    }
    assert forall|x: u32| accounted(m, x) implies accounted(n, x) by {
        lemma_accounted_kept(m, x);
    }
    match s.outcome {
        Outcome::Call(callee) => {
            assert(n.below == m.below.push(s.frame));
            assert(n.below[m.below.len() as int].root == f.root);
            assert(awaited(n.below, f.root));
        },
        _ => {},
    }
    assert forall|a: u32| #[trigger] n.tables.entries.contains_key(a) implies accounted(
        n,
        n.tables.entries[a].subroutine,
    ) && (n.tables.entries[a].instr.spec_jsr_addr(a) matches Some(target) ==> accounted(
        n,
        target,
    )) by {
        if a != pc {
            assert(t.entries.contains_key(a));
        }
    }
}

/// A step keeps every subroutine accounted for: summaries stay, a frame
/// that waits keeps waiting, and a frame that returns leaves a summary.
proof fn lemma_accounted_kept(m: Machine, x: u32)
    requires
        m.result is None,
        accounted(m, x),
    ensures
        accounted(step(m), x),
{
    reveal(step);
    let t = m.tables;
    let f = m.top;
    let s = frame_step(t, f);
    let n = step(m);
    assert(t.subroutines.contains_key(x) ==> s.tables.subroutines.contains_key(x));
    assert(s.frame.root == f.root);
    match s.outcome {
        Outcome::Continue => {
            assert(n.below == m.below);
        },
        Outcome::Call(callee) => {
            assert(n.below == m.below.push(s.frame));
            if f.root == x {
                assert(n.below[m.below.len() as int].root == x);
            } else if awaited(m.below, x) {
                let i = choose|i: int| 0 <= i < m.below.len() && #[trigger] m.below[i].root == x;
                assert(n.below[i].root == x);
            }
        },
        Outcome::Return(sub) => {
            assert(s.tables.subroutines.contains_key(f.root));
            if m.below.len() > 0 {
                let r = resume(s.tables, m.below.last(), sub);
                assert(r.tables.subroutines == s.tables.subroutines);
                assert(n.top.root == m.below.last().root);
                if !t.subroutines.contains_key(x) && f.root != x {
                    let i = choose|i: int|
                        0 <= i < m.below.len() && #[trigger] m.below[i].root == x;
                    if i < m.below.len() - 1 {
                        assert(n.below[i].root == x);
                    }
                }
            }
        },
    }
}

/// A step of a sound traversal leaves it sound.
pub proof fn lemma_step_sound(m: Machine)
    requires
        m.result is None,
        sound(m),
    ensures
        sound(step(m)),
{
    reveal(step);
    let t = m.tables;
    let f = m.top;
    let n = step(m);
    let recording = f.started && f.walking && decode_at(t.rom, f.cursor.pc, f.cursor.state)
        is Some && !t.entries.contains_key(f.cursor.pc) && !overlaps(
        t.entries,
        f.cursor.pc,
        decode_at(t.rom, f.cursor.pc, f.cursor.state).unwrap().0,
    );
    if recording {
        let found = decode_at(t.rom, f.cursor.pc, f.cursor.state).unwrap();
        lemma_record_sound(m, found.0, found.1);
    } else {
        let s = frame_step(t, f);
        assert(s.tables.entries == t.entries);
        assert(s.tables.returns == t.returns);
        assert(s.tables.rom == t.rom);
        assert(n.tables.entries == t.entries);
        assert(n.tables.returns == t.returns);
        assert(n.tables.rom == t.rom);
        assert forall|a: u32| #[trigger] n.tables.entries.contains_key(a) implies accounted(
            n,
            n.tables.entries[a].subroutine,
        ) && (n.tables.entries[a].instr.spec_jsr_addr(a) matches Some(target) ==> accounted(
            n,
            target,
        )) by {
            lemma_accounted_kept(m, t.entries[a].subroutine);
            match t.entries[a].instr.spec_jsr_addr(a) {
                Some(target) => {
                    lemma_accounted_kept(m, target);
                },
                None => {},
            }
        }
    }
}

/// A sound traversal ends sound.
pub proof fn lemma_run_sound(m: Machine)
    requires
        sound(m),
    ensures
        sound(run(m)),
    decreases unvisited_total(m.tables), m.below.len(), weight(m.top),
        if m.result is Some {
            0nat
        } else {
            1nat
        },
{
    if m.result is None {
        lemma_step_decreases(m);
        lemma_step_sound(m);
        lemma_run_sound(step(m));
    }
}

/// A traversal ends with a summary, and with the image and the user's label
/// names that it began with.
pub proof fn lemma_run_frame(m: Machine)
    ensures
        run(m).result is Some,
        run(m).tables.rom == m.tables.rom,
        run(m).tables.label_names == m.tables.label_names,
    decreases unvisited_total(m.tables), m.below.len(), weight(m.top),
        if m.result is Some {
            0nat
        } else {
            1nat
        },
{
    if m.result is None {
        lemma_step_decreases(m);
        lemma_step_frame(m);
        lemma_run_frame(step(m));
    }
}

/// A step changes neither the image nor the user's label names.
pub proof fn lemma_step_frame(m: Machine)
    ensures
        step(m).tables.rom == m.tables.rom,
        step(m).tables.label_names == m.tables.label_names,
{
    reveal(step);
}

/// Analysing a subroutine from well-formed tables leaves the tables
/// well-formed, and leaves a summary for the subroutine.
pub proof fn lemma_process_wf(t: Analysis, item: QueueEntryView)
    requires
        t.wf(),
    ensures
        run(start(t, item)).tables.wf(),
        run(start(t, item)).result is Some,
        run(start(t, item)).tables.rom == t.rom,
        run(start(t, item)).tables.label_names == t.label_names,
{
    let m = start(t, item);
    assert(sound(m));
    lemma_run_sound(m);
    lemma_run_frame(m);
    assert(jumps_in_hand(m));
    lemma_run_jumps(m);
}

/// A step keeps a jump target a label, or a walk from it still to be made:
/// labels stay, a worklist loses an address only as that becomes a label,
/// and a frame ends only with an empty worklist.
proof fn lemma_target_kept(m: Machine, x: u32)
    requires
        m.result is None,
        is_rom_addr(m.tables.rom, x),
        m.tables.labels.contains(x) || pending(m, x),
    ensures
        step(m).tables.labels.contains(x) || pending(step(m), x),
{
    reveal(step);
    let t = m.tables;
    let f = m.top;
    let s = frame_step(t, f);
    let n = step(m);
    assert(t.labels.contains(x) ==> s.tables.labels.contains(x));
    if !t.labels.contains(x) {
        if queued(f, x) {
            let j = choose|j: int| 0 <= j < f.queue.len() && #[trigger] f.queue[j].pc == x;
            if f.walking {
                match s.outcome {
                    Outcome::Call(callee) => {
                        assert(s.frame.queue[j].pc == x);
                        assert(n.below[m.below.len() as int] == s.frame);
                        assert(queued(n.below[m.below.len() as int], x));
                    },
                    _ => {
                        assert(s.frame.queue[j].pc == x);
                        assert(queued(n.top, x));
                    },
                }
            } else {
                assert(f.queue.len() > 0);
                if j < f.queue.len() - 1 {
                    assert(s.frame.queue[j].pc == x);
                    assert(queued(n.top, x));
                } else {
                    assert(f.queue.last().pc == x);
                    assert(s.tables.labels.contains(x));
                }
            }
        } else {
            let i = choose|i: int| 0 <= i < m.below.len() && queued(#[trigger] m.below[i], x);
            match s.outcome {
                Outcome::Continue => {
                    assert(n.below[i] == m.below[i]);
                },
                Outcome::Call(callee) => {
                    assert(n.below[i] == m.below[i]);
                },
                Outcome::Return(sub) => {
                    if i < m.below.len() - 1 {
                        assert(n.below[i] == m.below[i]);
                    } else {
                        let caller = m.below.last();
                        let j = choose|j: int|
                            0 <= j < caller.queue.len() && #[trigger] caller.queue[j].pc == x;
                        assert(n.top.queue[j].pc == x);
                        assert(queued(n.top, x));
                    }
                },
            }
        }
    }
}

/// A step keeps every jump target of an entry a label or in hand.
proof fn lemma_step_jumps(m: Machine)
    requires
        m.result is None,
        jumps_in_hand(m),
    ensures
        jumps_in_hand(step(m)),
{
    let n = step(m);
    lemma_step_frame(m);
    assert forall|a: u32| #[trigger] n.tables.entries.contains_key(a) implies (
    n.tables.entries[a].instr.spec_jump_addr(a) matches Some(target) ==> is_rom_addr(
        n.tables.rom,
        target,
    ) ==> n.tables.labels.contains(target) || pending(n, target)) by {
        match n.tables.entries[a].instr.spec_jump_addr(a) {
            Some(target) => {
                if is_rom_addr(n.tables.rom, target) {
                    lemma_new_entry(m, a);
                    if m.tables.entries.contains_key(a) {
                        lemma_target_kept(m, target);
                    }
                }
            },
            None => {},
        }
    }
}

/// An entry after a step was there before, unchanged, or is the one that
/// the step recorded; then its jump target is on the worklist of the frame
/// that recorded it.
proof fn lemma_new_entry(m: Machine, a: u32)
    requires
        m.result is None,
        step(m).tables.entries.contains_key(a),
    ensures
        m.tables.entries.contains_key(a) ==> step(m).tables.entries[a] == m.tables.entries[a],
        !m.tables.entries.contains_key(a) ==> (step(m).tables.entries[a].instr.spec_jump_addr(
            a,
        ) matches Some(target) ==> pending(step(m), target)),
{
    reveal(step);
    let t = m.tables;
    let f = m.top;
    let s = frame_step(t, f);
    let n = step(m);
    if !t.entries.contains_key(a) {
        assert(f.started && f.walking);
        assert(a == f.cursor.pc);
        match n.tables.entries[a].instr.spec_jump_addr(a) {
            Some(target) => {
                assert(s.outcome == Outcome::Continue);
                assert(s.frame.queue[f.queue.len() as int].pc == target);
                assert(queued(n.top, target));
            },
            None => {},
        }
    }
}

/// A traversal ends with every jump target of an entry a label.
proof fn lemma_run_jumps(m: Machine)
    requires
        jumps_in_hand(m),
    ensures
        jumps_labelled(run(m).tables),
    decreases unvisited_total(m.tables), m.below.len(), weight(m.top),
        if m.result is Some {
            0nat
        } else {
            1nat
        },
{
    if m.result is None {
        lemma_step_decreases(m);
        lemma_step_jumps(m);
        lemma_run_jumps(step(m));
    }
}

/// The subroutine that the bottom frame analyses.
pub open spec fn bottom_root(m: Machine) -> u32 {
    if m.below.len() == 0 {
        m.top.root
    } else {
        m.below[0].root
    }
}

/// The summary with which a traversal ends is the one that the tables then
/// hold for the subroutine of the bottom frame.
pub proof fn lemma_result_stored(m: Machine)
    requires
        m.result is None,
    ensures
        run(m).tables.subroutines.contains_key(bottom_root(m)),
        run(m).result == Some(run(m).tables.subroutines[bottom_root(m)]),
    decreases unvisited_total(m.tables), m.below.len(), weight(m.top),
{
    lemma_step_decreases(m);
    let n = step(m);
    assert(run(m) == run(n));
    reveal(step);
    if n.result is None {
        assert(bottom_root(n) == bottom_root(m));
        lemma_result_stored(n);
    } else {
        assert(run(n) == n);
    }
}

/// The tables after the subroutine entered with `item` has been analysed.
pub open spec fn analyse(t: Analysis, item: QueueEntryView) -> Analysis {
    run(start(t, item)).tables
}

/// The summary of the subroutine entered with `item`, once analysed.
pub open spec fn summary(t: Analysis, item: QueueEntryView) -> Subroutine {
    run(start(t, item)).result.unwrap()
}

/// Address of the reset vector.
pub const RESET_VECTOR: u32 = 0xFFFC;

/// Address of the interrupt-request vector.
pub const IRQ_VECTOR: u32 = 0xFFEE;

/// Address of the non-maskable-interrupt vector.
pub const NMI_VECTOR: u32 = 0xFFEA;

/// The entry point that a traversal is seeded with: the address `pc`,
/// reached with both flags set and `stack` as the shadow stack.
pub open spec fn seed(pc: u32, stack: Seq<StackDataType>) -> QueueEntryView {
    QueueEntryView {
        pc,
        stack,
        state: CpuState { m: true, x: true },
        sr_state: SrCpuState::untouched(),
    }
}

/// The handler that the vector at `addr` names: a 16-bit pointer into
/// bank 0.
pub open spec fn vector_target(rom: Seq<u8>, addr: u32) -> u32 {
    le_value(rom, rom_offset(addr), 2) as u32
}

/// Width in bytes of a jump table's pointers.
pub open spec fn pointer_width(long: bool) -> nat {
    if long {
        3
    } else {
        2
    }
}

/// Address of pointer `i` of the jump table that the rule at `pc` names.
/// The table starts four bytes behind `pc`; addresses wrap at 24 bits.
pub open spec fn pointer_addr(pc: u32, i: u32, long: bool) -> u32 {
    ((pc + 4 + i * pointer_width(long)) % 0x100_0000) as u32
}

/// The code address that pointer `i` of the jump table at `pc` holds: a
/// full address where the table is long, an address in the bank of `pc`
/// otherwise.
pub open spec fn pointer_target(rom: Seq<u8>, pc: u32, i: u32, long: bool) -> u32 {
    let at = rom_offset(pointer_addr(pc, i, long));
    if long {
        le_value(rom, at, 3) as u32
    } else {
        (le_value(rom, at, 2) as u32) | (pc & 0xFF_0000)
    }
}

/// The tables after the first `n` pointers of a jump table have been
/// followed, in order.
pub open spec fn ingest_table(t: Analysis, pc: u32, long: bool, n: nat) -> Analysis
    decreases n,
{
    if n == 0 {
        t
    } else {
        analyse(
            ingest_table(t, pc, long, (n - 1) as nat),
            seed(pointer_target(t.rom, pc, (n - 1) as u32, long), return_frame(long)),
        )
    }
}

/// The tables after a rule has been followed. A jump table whose own
/// address lies outside ROM is skipped.
pub open spec fn ingest_rule(t: Analysis, rule: Rule) -> Analysis {
    match rule {
        Rule::JumpTable { pc, size, long } => if is_rom_addr(t.rom, pc) {
            ingest_table(t, pc, long, size as nat)
        } else {
            t
        },
    }
}

/// The tables after the rules have been followed, in order.
pub open spec fn ingest_rules(t: Analysis, rules: Seq<Rule>) -> Analysis
    decreases rules.len(),
{
    if rules.len() == 0 {
        t
    } else {
        ingest_rule(ingest_rules(t, rules.drop_last()), rules.last())
    }
}

/// The tables after traversal from the handler that the vector at `addr`
/// names.
pub open spec fn ingest_vector(t: Analysis, addr: u32) -> Analysis {
    analyse(t, seed(vector_target(t.rom, addr), Seq::empty()))
}

/// The tables after a full analysis: traversal from the reset, interrupt
/// request and non-maskable interrupt handlers, in this order, and then
/// from the pointers of every jump table that the rules name.
pub open spec fn ingest(t: Analysis, rules: Seq<Rule>) -> Analysis {
    ingest_rules(
        ingest_vector(ingest_vector(ingest_vector(t, RESET_VECTOR), IRQ_VECTOR), NMI_VECTOR),
        rules,
    )
}

/// Following a jump table keeps the tables well-formed, and changes
/// neither the image nor the user's label names.
pub proof fn lemma_ingest_table(t: Analysis, pc: u32, long: bool, n: nat)
    ensures
        ingest_table(t, pc, long, n).rom == t.rom,
        ingest_table(t, pc, long, n).label_names == t.label_names,
        t.wf() ==> ingest_table(t, pc, long, n).wf(),
    decreases n,
{
    if n > 0 {
        lemma_ingest_table(t, pc, long, (n - 1) as nat);
        let before = ingest_table(t, pc, long, (n - 1) as nat);
        let item = seed(pointer_target(t.rom, pc, (n - 1) as u32, long), return_frame(long));
        lemma_run_frame(start(before, item));
        if t.wf() {
            lemma_process_wf(before, item);
        }
    }
}

/// Following rules keeps the tables well-formed, and changes neither the
/// image nor the user's label names.
pub proof fn lemma_ingest_rules(t: Analysis, rules: Seq<Rule>)
    ensures
        ingest_rules(t, rules).rom == t.rom,
        ingest_rules(t, rules).label_names == t.label_names,
        t.wf() ==> ingest_rules(t, rules).wf(),
    decreases rules.len(),
{
    if rules.len() > 0 {
        lemma_ingest_rules(t, rules.drop_last());
        let before = ingest_rules(t, rules.drop_last());
        match rules.last() {
            Rule::JumpTable { pc, size, long } => {
                lemma_ingest_table(before, pc, long, size as nat);
            },
        }
    }
}

/// A full analysis keeps the tables well-formed, and changes neither the
/// image nor the user's label names.
pub proof fn lemma_ingest(t: Analysis, rules: Seq<Rule>)
    ensures
        ingest(t, rules).rom == t.rom,
        ingest(t, rules).label_names == t.label_names,
        t.wf() ==> ingest(t, rules).wf(),
{
    let a = ingest_vector(t, RESET_VECTOR);
    lemma_run_frame(start(t, seed(vector_target(t.rom, RESET_VECTOR), Seq::empty())));
    let b = ingest_vector(a, IRQ_VECTOR);
    lemma_run_frame(start(a, seed(vector_target(a.rom, IRQ_VECTOR), Seq::empty())));
    let c = ingest_vector(b, NMI_VECTOR);
    lemma_run_frame(start(b, seed(vector_target(b.rom, NMI_VECTOR), Seq::empty())));
    if t.wf() {
        lemma_process_wf(t, seed(vector_target(t.rom, RESET_VECTOR), Seq::empty()));
        lemma_process_wf(a, seed(vector_target(a.rom, IRQ_VECTOR), Seq::empty()));
        lemma_process_wf(b, seed(vector_target(b.rom, NMI_VECTOR), Seq::empty()));
    }
    lemma_ingest_rules(c, rules);
}


/// Tables without entries are well-formed.
pub proof fn lemma_empty_wf(rom: Seq<u8>)
    ensures
        Analysis::empty(rom).wf(),
{
}

/// After a full analysis every entry lies in ROM, and holds the
/// instruction that the image decodes to there under the entry's flags.
pub proof fn lemma_entries_in_rom(t: Analysis, rules: Seq<Rule>, a: u32)
    requires
        t.wf(),
        ingest(t, rules).entries.contains_key(a),
    ensures
        is_rom_addr(t.rom, a),
        decode_at(t.rom, a, ingest(t, rules).entries[a].state) == Some(
            (
                (ingest(t, rules).entries[a].instr.size + 1) as usize,
                ingest(t, rules).entries[a].instr,
            ),
        ),
{
    lemma_ingest(t, rules);
    lemma_entry_in_rom(ingest(t, rules), a);
}

/// After a full analysis the subroutine that an entry belongs to has a
/// summary, and so has the subroutine that an entry calls.
pub proof fn lemma_subroutines_known(t: Analysis, rules: Seq<Rule>, a: u32)
    requires
        t.wf(),
        ingest(t, rules).entries.contains_key(a),
    ensures
        ingest(t, rules).subroutines.contains_key(ingest(t, rules).entries[a].subroutine),
        ingest(t, rules).entries[a].instr.spec_jsr_addr(a) matches Some(target) ==> ingest(
            t,
            rules,
        ).subroutines.contains_key(target),
{
    lemma_ingest(t, rules);
}

/// After a full analysis every ROM address that an entry jumps or branches
/// to is a label.
pub proof fn lemma_jump_targets_labelled(t: Analysis, rules: Seq<Rule>, a: u32)
    requires
        t.wf(),
        ingest(t, rules).entries.contains_key(a),
        ingest(t, rules).entries[a].instr.spec_jump_addr(a) is Some,
        is_rom_addr(t.rom, ingest(t, rules).entries[a].instr.spec_jump_addr(a).unwrap()),
    ensures
        ingest(t, rules).labels.contains(
            ingest(t, rules).entries[a].instr.spec_jump_addr(a).unwrap(),
        ),
{
    lemma_ingest(t, rules);
}

/// After a full analysis every entry that holds `RTS` or `RTL` is noted as
/// a return.
pub proof fn lemma_return_entries_noted(t: Analysis, rules: Seq<Rule>, a: u32)
    requires
        t.wf(),
        ingest(t, rules).entries.contains_key(a),
        ingest(t, rules).entries[a].instr.mnemonic == RTS || ingest(
            t,
            rules,
        ).entries[a].instr.mnemonic == RTL,
    ensures
        ingest(t, rules).returns.contains(a),
{
    lemma_ingest(t, rules);
}

/// After a full analysis every address noted as a return has an entry,
/// and that entry holds `RTS` or `RTL`.
pub proof fn lemma_returns_are_entries(t: Analysis, rules: Seq<Rule>, a: u32)
    requires
        t.wf(),
        ingest(t, rules).returns.contains(a),
    ensures
        ingest(t, rules).entries.contains_key(a),
        ingest(t, rules).entries[a].instr.mnemonic == RTS || ingest(
            t,
            rules,
        ).entries[a].instr.mnemonic == RTL,
{
    lemma_ingest(t, rules);
}


/// Whether the tables `b` hold all that the tables `a` hold: the same
/// image and label names, every entry and every summary of `a` unchanged,
/// every label and return of `a`, and the inferred rules of `a` in front.
pub open spec fn extends(a: Analysis, b: Analysis) -> bool {
    &&& b.rom == a.rom
    &&& b.label_names == a.label_names
    &&& forall|k: u32| #[trigger]
        a.entries.contains_key(k) ==> b.entries.contains_key(k) && b.entries[k] == a.entries[k]
    &&& forall|k: u32| #[trigger]
        a.subroutines.contains_key(k) ==> b.subroutines.contains_key(k) && b.subroutines[k]
            == a.subroutines[k]
    &&& forall|k: u32| #[trigger] a.labels.contains(k) ==> b.labels.contains(k)
    &&& forall|k: u32| #[trigger] a.returns.contains(k) ==> b.returns.contains(k)
    &&& a.extra_rules.is_prefix_of(b.extra_rules)
}

/// Whether the frame `f` leaves the summaries of `a` alone: it analyses no
/// subroutine that `a` has a summary for.
pub open spec fn spares(a: Analysis, f: FrameView) -> bool {
    f.started ==> !a.subroutines.contains_key(f.root)
}

/// What holds at every step of a traversal that began with the tables `a`:
/// the tables hold all that `a` holds, and no frame analyses a subroutine
/// that `a` has a summary for.
pub open spec fn grown(a: Analysis, m: Machine) -> bool {
    &&& extends(a, m.tables)
    &&& m.result is None ==> spares(a, m.top)
    &&& m.result is None ==> forall|i: int|
        0 <= i < m.below.len() ==> spares(a, #[trigger] m.below[i])
}

/// Holding all of another table's content is transitive.
pub proof fn lemma_extends_trans(a: Analysis, b: Analysis, c: Analysis)
    requires
        extends(a, b),
        extends(b, c),
    ensures
        extends(a, c),
{
    assert forall|k: u32| #[trigger] a.entries.contains_key(k) implies c.entries.contains_key(k)
        && c.entries[k] == a.entries[k] by {
        assert(b.entries.contains_key(k));
    }
    assert forall|k: u32| #[trigger]
        a.subroutines.contains_key(k) implies c.subroutines.contains_key(k) && c.subroutines[k]
        == a.subroutines[k] by {
        assert(b.subroutines.contains_key(k));
    }
    assert forall|k: u32| #[trigger] a.labels.contains(k) implies c.labels.contains(k) by {
        assert(b.labels.contains(k));
    }
    assert forall|k: u32| #[trigger] a.returns.contains(k) implies c.returns.contains(k) by {
        assert(b.returns.contains(k));
    }
    assert(a.extra_rules =~= c.extra_rules.subrange(0, a.extra_rules.len() as int)) by {
        assert(b.extra_rules =~= c.extra_rules.subrange(0, b.extra_rules.len() as int));
        assert(a.extra_rules =~= b.extra_rules.subrange(0, a.extra_rules.len() as int));
    }
}

/// A step of a frame only adds to the tables. It leaves the inferred
/// rules alone, writes no summary but for the subroutine of the frame, and
/// overwrites none unless the frame has started. A frame starts only where
/// its subroutine has no summary, and a called frame has not started.
proof fn lemma_frame_step_extends(t: Analysis, f: FrameView)
    ensures
        frame_step(t, f).tables.rom == t.rom,
        frame_step(t, f).tables.label_names == t.label_names,
        frame_step(t, f).tables.extra_rules == t.extra_rules,
        forall|k: u32| #[trigger]
            t.entries.contains_key(k) ==> frame_step(t, f).tables.entries.contains_key(k)
                && frame_step(t, f).tables.entries[k] == t.entries[k],
        forall|k: u32| #[trigger]
            t.labels.contains(k) ==> frame_step(t, f).tables.labels.contains(k),
        forall|k: u32| #[trigger]
            t.returns.contains(k) ==> frame_step(t, f).tables.returns.contains(k),
        forall|k: u32|
            (k != f.root || !f.started) && #[trigger] t.subroutines.contains_key(k)
                ==> frame_step(t, f).tables.subroutines.contains_key(k) && frame_step(
                t,
                f,
            ).tables.subroutines[k] == t.subroutines[k],
        frame_step(t, f).frame.root == f.root,
        frame_step(t, f).frame.started ==> f.started || !t.subroutines.contains_key(f.root),
        frame_step(t, f).outcome matches Outcome::Call(callee) ==> !callee.started,
{
}

/// A step of a traversal only adds to the tables that the traversal began
/// with.
proof fn lemma_step_grown(a: Analysis, m: Machine)
    requires
        m.result is None,
        grown(a, m),
    ensures
        grown(a, step(m)),
{
    reveal(step);
    let t = m.tables;
    let f = m.top;
    let s = frame_step(t, f);
    let n = step(m);
    lemma_frame_step_extends(t, f);
    assert(t.extra_rules.is_prefix_of(n.tables.extra_rules)) by {
        match s.outcome {
            Outcome::Return(sub) => {
                if m.below.len() > 0 {
                    let r = resume(s.tables, m.below.last(), sub);
                    assert(t.extra_rules =~= r.tables.extra_rules.subrange(
                        0,
                        t.extra_rules.len() as int,
                    ));
                } else {
                    assert(t.extra_rules =~= t.extra_rules.subrange(
                        0,
                        t.extra_rules.len() as int,
                    ));
                }
            },
            _ => {
                assert(t.extra_rules =~= t.extra_rules.subrange(0, t.extra_rules.len() as int));
            },
        }
    }
    assert forall|k: u32| #[trigger] a.subroutines.contains_key(k) implies n.tables.subroutines.contains_key(
        k,
    ) && n.tables.subroutines[k] == a.subroutines[k] by {
        assert(t.subroutines.contains_key(k));
        if k == f.root {
            assert(!f.started);
        }
    }
    assert forall|k: u32| #[trigger] a.entries.contains_key(k) implies n.tables.entries.contains_key(
        k,
    ) && n.tables.entries[k] == a.entries[k] by {
        assert(t.entries.contains_key(k));
    }
    assert forall|k: u32| #[trigger] a.labels.contains(k) implies n.tables.labels.contains(k) by {
        assert(t.labels.contains(k));
    }
    assert forall|k: u32| #[trigger] a.returns.contains(k) implies n.tables.returns.contains(k) by {
        assert(t.returns.contains(k));
    }
    assert(a.extra_rules =~= n.tables.extra_rules.subrange(0, a.extra_rules.len() as int)) by {
        assert(a.extra_rules =~= t.extra_rules.subrange(0, a.extra_rules.len() as int));
        assert(t.extra_rules =~= n.tables.extra_rules.subrange(0, t.extra_rules.len() as int));
    }
    if n.result is None {
        assert(spares(a, n.top)) by {
            if n.top.started && a.subroutines.contains_key(n.top.root) {
                assert(t.subroutines.contains_key(n.top.root));
            }
        }
        assert forall|i: int| 0 <= i < n.below.len() implies spares(a, #[trigger] n.below[i]) by {
            if i < m.below.len() {
                assert(n.below[i] == m.below[i]);
            } else {
                assert(n.below[i] == s.frame);
                if s.frame.started && a.subroutines.contains_key(s.frame.root) {
                    assert(t.subroutines.contains_key(f.root));
                }
            }
        }
    }
}

/// A traversal ends with tables that hold all that it began with.
proof fn lemma_run_grown(a: Analysis, m: Machine)
    requires
        grown(a, m),
    ensures
        extends(a, run(m).tables),
    decreases unvisited_total(m.tables), m.below.len(), weight(m.top),
        if m.result is Some {
            0nat
        } else {
            1nat
        },
{
    if m.result is None {
        lemma_step_decreases(m);
        lemma_step_grown(a, m);
        lemma_run_grown(a, step(m));
    }
}

/// Analysing a subroutine only adds to the tables: the image and the label
/// names stay, every entry and every summary that the tables held stays as
/// it was, and so does every label, return and inferred rule. The summary
/// that is written first for a subroutine is the one that stays.
pub proof fn lemma_process_extends(t: Analysis, item: QueueEntryView)
    ensures
        extends(t, analyse(t, item)),
{
    let m = start(t, item);
    assert(t.extra_rules =~= t.extra_rules.subrange(0, t.extra_rules.len() as int));
    assert(grown(t, m));
    lemma_run_grown(t, m);
}

/// Following a jump table only adds to the tables.
pub proof fn lemma_ingest_table_extends(t: Analysis, pc: u32, long: bool, n: nat)
    ensures
        extends(t, ingest_table(t, pc, long, n)),
    decreases n,
{
    if n > 0 {
        lemma_ingest_table_extends(t, pc, long, (n - 1) as nat);
        let before = ingest_table(t, pc, long, (n - 1) as nat);
        let item = seed(pointer_target(t.rom, pc, (n - 1) as u32, long), return_frame(long));
        lemma_process_extends(before, item);
        lemma_extends_trans(t, before, ingest_table(t, pc, long, n));
    } else {
        assert(t.extra_rules =~= t.extra_rules.subrange(0, t.extra_rules.len() as int));
    }
}

/// Following rules only adds to the tables.
pub proof fn lemma_ingest_rules_extends(t: Analysis, rules: Seq<Rule>)
    ensures
        extends(t, ingest_rules(t, rules)),
    decreases rules.len(),
{
    if rules.len() > 0 {
        lemma_ingest_rules_extends(t, rules.drop_last());
        let before = ingest_rules(t, rules.drop_last());
        match rules.last() {
            Rule::JumpTable { pc, size, long } => {
                lemma_ingest_table_extends(before, pc, long, size as nat);
            },
        }
        assert(before.extra_rules =~= before.extra_rules.subrange(
            0,
            before.extra_rules.len() as int,
        ));
        lemma_extends_trans(t, before, ingest_rules(t, rules));
    } else {
        assert(t.extra_rules =~= t.extra_rules.subrange(0, t.extra_rules.len() as int));
    }
}

/// A full analysis only adds to the tables.
pub proof fn lemma_ingest_extends(t: Analysis, rules: Seq<Rule>)
    ensures
        extends(t, ingest(t, rules)),
        extends(ingest_vector(t, RESET_VECTOR), ingest(t, rules)),
        extends(ingest_vector(ingest_vector(t, RESET_VECTOR), IRQ_VECTOR), ingest(t, rules)),
        extends(
            ingest_vector(ingest_vector(ingest_vector(t, RESET_VECTOR), IRQ_VECTOR), NMI_VECTOR),
            ingest(t, rules),
        ),
{
    let a = ingest_vector(t, RESET_VECTOR);
    let b = ingest_vector(a, IRQ_VECTOR);
    let c = ingest_vector(b, NMI_VECTOR);
    let d = ingest(t, rules);
    lemma_process_extends(t, seed(vector_target(t.rom, RESET_VECTOR), Seq::empty()));
    lemma_process_extends(a, seed(vector_target(a.rom, IRQ_VECTOR), Seq::empty()));
    lemma_process_extends(b, seed(vector_target(b.rom, NMI_VECTOR), Seq::empty()));
    lemma_ingest_rules_extends(c, rules);
    lemma_extends_trans(b, c, d);
    lemma_extends_trans(a, b, d);
    lemma_extends_trans(t, a, d);
}

/// After a full analysis each of the three vector handlers has the summary
/// that its own traversal left: what is analysed later does not change it.
/// For the reset handler, which is analysed first, that is the summary of
/// its traversal from the tables as they were.
pub proof fn lemma_vector_summaries_kept(t: Analysis, rules: Seq<Rule>)
    ensures
        ({
            let reset = vector_target(t.rom, RESET_VECTOR);
            let irq = vector_target(t.rom, IRQ_VECTOR);
            let nmi = vector_target(t.rom, NMI_VECTOR);
            let a = ingest_vector(t, RESET_VECTOR);
            let b = ingest_vector(a, IRQ_VECTOR);
            let c = ingest_vector(b, NMI_VECTOR);
            let d = ingest(t, rules);
            &&& d.subroutines.contains_key(reset)
            &&& d.subroutines.contains_key(irq)
            &&& d.subroutines.contains_key(nmi)
            &&& d.subroutines[reset] == summary(t, seed(reset, Seq::empty()))
            &&& d.subroutines[irq] == summary(a, seed(irq, Seq::empty()))
            &&& d.subroutines[nmi] == summary(b, seed(nmi, Seq::empty()))
        }),
{
    let reset = vector_target(t.rom, RESET_VECTOR);
    let a = ingest_vector(t, RESET_VECTOR);
    let irq = vector_target(a.rom, IRQ_VECTOR);
    let b = ingest_vector(a, IRQ_VECTOR);
    let nmi = vector_target(b.rom, NMI_VECTOR);
    lemma_run_frame(start(t, seed(reset, Seq::empty())));
    lemma_run_frame(start(a, seed(irq, Seq::empty())));
    lemma_result_stored(start(t, seed(reset, Seq::empty())));
    lemma_result_stored(start(a, seed(irq, Seq::empty())));
    lemma_result_stored(start(b, seed(nmi, Seq::empty())));
    lemma_ingest_extends(t, rules);
}

} // verus!
