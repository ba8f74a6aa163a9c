//! The analysis engine: its tables, the traversal that fills them, the
//! label names and the listing.

use crate::cpu::Mnemonic::{
    JML, JMP, JSL, PEA, PEI, PER, PHA, PHB, PHD, PHK, PHP, PHX, PHY, PLA, PLB, PLD, PLP, PLX, PLY,
    RTL, RTS,
};
use crate::cpu::{lemma_decode_shape, parse_instr, CpuState, Instruction, Mode};
use crate::listing::{
    bank_addr, canonical, code_label, code_line, data_label, data_line, label_line, line_views,
    listing, printable, rows_at, rows_from, spacing_line, stride,
};
use crate::machine::{
    analyse, converge, cursor_after, decode_at, enter, extends, finish, fresh_frame, ingest,
    ingest_rule, lemma_ingest_extends, lemma_process_extends,
    ingest_rules, ingest_table, ingest_vector, lemma_ingest, lemma_ingest_table,
    lemma_process_wf, lemma_run_frame, lemma_step_decreases, overlaps, pointer_addr,
    pointer_target, pushed, record, restored, resume, return_frame, run, seen_flags_after,
    stack_after, start, step, summary, take_next, unvisited_total, walk_step, weight,
    without_top, FrameView, Machine, Outcome, Stepped, IRQ_VECTOR, NMI_VECTOR, RESET_VECTOR,
};
use crate::rom::{page_rest, Rom};
use crate::text::hex_upper;
use std::collections::{HashMap, HashSet};
use vstd::prelude::*;
use vstd::string::*;

verus! {

broadcast use vstd::std_specs::hash::group_hash_axioms;

/// What a subroutine does to the M and X flags: `None` where it leaves a
/// flag alone, `Some(v)` where it returns with the flag forced to `v`.
#[derive(Copy, Clone, Debug, PartialEq, Eq)]
pub struct SrCpuState {
    pub affect_m: Option<bool>,
    pub affect_x: Option<bool>,
}

impl Default for SrCpuState {
    fn default() -> (r: Self)
        ensures
            r == SrCpuState::untouched(),
    {
        SrCpuState { affect_m: None, affect_x: None }
    }
}

impl SrCpuState {
    /// The effect of a subroutine that changes neither flag.
    pub open spec fn untouched() -> SrCpuState {
        SrCpuState { affect_m: None, affect_x: None }
    }
}

/// The summary of an analysed subroutine.
#[derive(Copy, Clone, Debug, PartialEq, Eq)]
pub struct Subroutine {
    pub sr_effect: SrCpuState,
    /// Set where control that enters the subroutine does not come back to
    /// the instruction after the call.
    pub divergent: bool,
}

impl Default for Subroutine {
    fn default() -> (r: Self)
        ensures
            r == Subroutine::unknown(),
    {
        Subroutine { sr_effect: SrCpuState { affect_m: None, affect_x: None }, divergent: false }
    }
}

impl Subroutine {
    /// The summary of a subroutine of which nothing is known.
    pub open spec fn unknown() -> Subroutine {
        Subroutine { sr_effect: SrCpuState::untouched(), divergent: false }
    }
}

/// What a byte on the shadow stack stands for. No value is tracked.
#[derive(Copy, Clone, Debug, PartialEq, Eq)]
pub enum StackDataType {
    /// The flags that `PHP` saved, with what had been seen of them.
    CpuState { state: CpuState, sr_state: SrCpuState },
    /// A bank register, pushed by `PHB` or `PHK`. Its value is not
    /// tracked: the traversal records 0.
    Bank(u8),
    /// Plain data.
    Data,
    /// One byte of a return address.
    RetAddr,
}

/// A decoded instruction with the state in which traversal reached it.
#[derive(Debug, PartialEq, Eq)]
pub struct Entry {
    pub stack: Vec<StackDataType>,
    pub state: CpuState,
    pub instr: Instruction,
    /// The address at which the traversal that found it began.
    pub subroutine: u32,
}

/// The mathematical content of an [`Entry`].
pub struct EntryView {
    pub stack: Seq<StackDataType>,
    pub state: CpuState,
    pub instr: Instruction,
    pub subroutine: u32,
}

impl View for Entry {
    type V = EntryView;

    open spec fn view(&self) -> EntryView {
        EntryView {
            stack: self.stack@,
            state: self.state,
            instr: self.instr,
            subroutine: self.subroutine,
        }
    }
}

/// Copies a shadow stack.
pub fn copy_stack(stack: &Vec<StackDataType>) -> (r: Vec<StackDataType>)
    ensures
        r@ == stack@,
{
    let mut r: Vec<StackDataType> = Vec::new();
    let mut i: usize = 0;
    while i < stack.len()
        invariant
            i <= stack.len(),
            r@ == stack@.take(i as int),
        decreases stack.len() - i,
    {
        r.push(stack[i]);
        i += 1;
        assert(r@ =~= stack@.take(i as int));
    }
    assert(stack@.take(stack.len() as int) =~= stack@);
    r
}

impl Clone for Entry {
    fn clone(&self) -> (r: Self)
        ensures
            r@ == self@,
    {
        Entry {
            stack: copy_stack(&self.stack),
            state: self.state,
            instr: self.instr,
            subroutine: self.subroutine,
        }
    }
}

/// A place that holds data rather than code. Nothing is recorded of it.
#[derive(Copy, Clone, Debug, PartialEq, Eq)]
pub struct DataEntry {}

/// A point at which a straight-line walk is to start.
#[derive(Debug, PartialEq, Eq)]
pub struct QueueEntry {
    pub pc: u32,
    pub stack: Vec<StackDataType>,
    pub state: CpuState,
    pub sr_state: SrCpuState,
}

/// The mathematical content of a [`QueueEntry`].
pub struct QueueEntryView {
    pub pc: u32,
    pub stack: Seq<StackDataType>,
    pub state: CpuState,
    pub sr_state: SrCpuState,
}

impl View for QueueEntry {
    type V = QueueEntryView;

    open spec fn view(&self) -> QueueEntryView {
        QueueEntryView {
            pc: self.pc,
            stack: self.stack@,
            state: self.state,
            sr_state: self.sr_state,
        }
    }
}

/// A hint for the traversal.
#[derive(Copy, Clone, Debug, PartialEq, Eq)]
pub enum Rule {
    /// A table of `size` code pointers that starts four bytes behind `pc`.
    /// Each takes two bytes and points into the bank of `pc`, or, where
    /// `long` is set, three bytes that hold a full address.
    JumpTable { pc: u32, size: u32, long: bool },
}

/// The kind of a listing row.
#[derive(Copy, Clone, Debug, PartialEq, Eq, Structural)]
pub enum LineKind {
    Label,
    Code,
    Data,
    Spacing,
}

/// One row of a listing.
#[derive(Debug, PartialEq, Eq)]
pub struct Line {
    pub pc: u32,
    /// The number of bytes that the row stands for: the encoded length of
    /// the instruction on a code row, one on a data row, none on a label or
    /// an empty row.
    pub len: usize,
    pub text: String,
    pub kind: LineKind,
}

/// The mathematical content of a [`Line`].
pub struct LineView {
    pub pc: u32,
    pub len: usize,
    pub text: Seq<char>,
    pub kind: LineKind,
}

impl View for Line {
    type V = LineView;

    open spec fn view(&self) -> LineView {
        LineView { pc: self.pc, len: self.len, text: self.text@, kind: self.kind }
    }
}

/// The analysis tables of a [`Disassembler`], as mathematical maps and
/// sets.
pub struct Analysis {
    pub rom: Seq<u8>,
    pub entries: Map<u32, EntryView>,
    pub labels: Set<u32>,
    pub returns: Set<u32>,
    pub subroutines: Map<u32, Subroutine>,
    pub extra_rules: Seq<Rule>,
    pub label_names: Map<u32, Seq<char>>,
}

/// The analysis engine: a cartridge image and the tables that traversal
/// fills.
pub struct Disassembler {
    pub rom: Rom,
    pub entries: HashMap<u32, Entry>,
    pub labels: HashSet<u32>,
    pub returns: HashSet<u32>,
    pub subroutines: HashMap<u32, Subroutine>,
    pub extra_rules: Vec<Rule>,
    pub label_names: HashMap<u32, String>,
}

impl View for Disassembler {
    type V = Analysis;

    open spec fn view(&self) -> Analysis {
        Analysis {
            rom: self.rom@,
            entries: self.entries@.map_values(|e: Entry| e@),
            labels: self.labels@,
            returns: self.returns@,
            subroutines: self.subroutines@,
            extra_rules: self.extra_rules@,
            label_names: self.label_names@.map_values(|s: String| s@),
        }
    }
}

impl Disassembler {
    /// An engine over `rom` whose tables are empty.
    pub fn new(rom: Rom) -> (d: Self)
        ensures
            d@ == Analysis::empty(rom@),
    {
        let d = Disassembler {
            rom,
            entries: HashMap::new(),
            labels: HashSet::new(),
            returns: HashSet::new(),
            subroutines: HashMap::new(),
            extra_rules: Vec::new(),
            label_names: HashMap::new(),
        };
        assert(d@.entries =~= Map::empty());
        assert(d@.label_names =~= Map::empty());
        d
    }
}

impl Analysis {
    /// The tables before any traversal.
    pub open spec fn empty(rom: Seq<u8>) -> Analysis {
        Analysis {
            rom,
            entries: Map::empty(),
            labels: Set::empty(),
            returns: Set::empty(),
            subroutines: Map::empty(),
            extra_rules: Seq::empty(),
            label_names: Map::empty(),
        }
    }
}


/// The analysis of one subroutine, in progress.
struct Frame {
    root: u32,
    started: bool,
    queue: Vec<QueueEntry>,
    effect: SrCpuState,
    divergent: bool,
    walking: bool,
    cursor: QueueEntry,
    call_next: u32,
    call_long: bool,
}

impl View for Frame {
    type V = FrameView;

    closed spec fn view(&self) -> FrameView {
        FrameView {
            root: self.root,
            started: self.started,
            queue: self.queue@.map_values(|q: QueueEntry| q@),
            effect: self.effect,
            divergent: self.divergent,
            walking: self.walking,
            cursor: self.cursor@,
            call_next: self.call_next,
            call_long: self.call_long,
        }
    }
}

/// What a step of a frame asks of the traversal.
enum Step {
    Continue,
    Call(Frame),
    Return(Subroutine),
}

impl View for Step {
    type V = Outcome;

    closed spec fn view(&self) -> Outcome {
        match self {
            Step::Continue => Outcome::Continue,
            Step::Call(f) => Outcome::Call(f@),
            Step::Return(sub) => Outcome::Return(*sub),
        }
    }
}

/// The frames of the callers, bottom first.
spec fn frames_view(frames: Seq<Frame>) -> Seq<FrameView> {
    frames.map_values(|f: Frame| f@)
}

impl Frame {
    fn fresh(item: QueueEntry) -> (f: Frame)
        ensures
            f@ == fresh_frame(item@),
    {
        let root = item.pc;
        let mut queue: Vec<QueueEntry> = Vec::new();
        queue.push(item);
        let f = Frame {
            root,
            started: false,
            queue,
            effect: SrCpuState { affect_m: None, affect_x: None },
            divergent: false,
            walking: false,
            cursor: QueueEntry {
                pc: 0,
                stack: Vec::new(),
                state: CpuState { m: true, x: true },
                sr_state: SrCpuState { affect_m: None, affect_x: None },
            },
            call_next: 0,
            call_long: false,
        };
        assert(f@.queue =~= seq![item@]);
        f
    }
}

impl Disassembler {
    /// Decodes the instruction at `pc`, if `pc` lies in ROM.
    fn decode_at(&self, pc: u32, flags: CpuState) -> (r: Option<(usize, Instruction)>)
        ensures
            r == decode_at(self@.rom, pc, flags),
            r is Some ==> pc <= 0xFF_FFFF && 1 <= r.unwrap().0 <= 4,
    {
        if self.rom.is_mapped(pc) {
            let r = parse_instr(self.rom.slice(pc), flags);
            proof {
                if r is Some {
                    lemma_decode_shape(page_rest(self.rom@, pc), flags);
                }
            }
            r
        } else {
            None
        }
    }

    /// Whether an entry starts inside the `len` bytes at `pc`, behind the
    /// first.
    fn overlaps(&self, pc: u32, len: usize) -> (b: bool)
        requires
            pc <= 0xFF_FFFF,
            len <= 4,
        ensures
            b == overlaps(self@.entries, pc, len),
    {
        let mut i: u32 = 1;
        while i < len as u32
            invariant
                1 <= i,
                len <= 4,
                pc <= 0xFF_FFFF,
                forall|a: u32| pc < a && a < pc + i ==> !self@.entries.contains_key(a),
            decreases 5 - i,
        {
            if self.entries.contains_key(&(pc + i)) {
                assert(self@.entries.contains_key((pc + i) as u32));
                return true;
            }
            i += 1;
        }
        false
    }

    /// Applies the stack effect of `instr` to the shadow stack. `PLP`
    /// brings back the flags that the matching `PHP` saved; where the top of
    /// the stack holds none, the flags stay as they are.
    pub fn apply_instr(
        &mut self,
        instr: &Instruction,
        state: &mut CpuState,
        sr_state: &mut SrCpuState,
        stack: &mut Vec<StackDataType>,
    )
        ensures
            *final(self) == *old(self),
            final(stack)@ == stack_after(*instr, *old(state), *old(sr_state), old(stack)@),
            match restored(*instr, old(stack)@) {
                Some(saved) => *final(state) == saved.0 && *final(sr_state) == saved.1,
                None => *final(state) == *old(state) && *final(sr_state) == *old(sr_state),
            },
    {
        let ghost before = stack@;
        let pops: usize = match instr.mnemonic {
            PLP | PLB => 1,
            PLA => if state.m {
                1
            } else {
                2
            },
            PLX | PLY => if state.x {
                1
            } else {
                2
            },
            PLD => 2,
            _ => 0,
        };
        let pushes: usize = match instr.mnemonic {
            PHA => if state.m {
                1
            } else {
                2
            },
            PHX | PHY => if state.x {
                1
            } else {
                2
            },
            PEA | PER | PEI | PHD => 2,
            _ => 0,
        };
        let saved = CpuState { m: state.m, x: state.x };
        let saved_seen = SrCpuState { affect_m: sr_state.affect_m, affect_x: sr_state.affect_x };
        let mut i: usize = 0;
        while i < pops
            invariant
                i <= pops <= 2,
                stack@ == without_top(before, i as nat),
                instr.mnemonic == PLP ==> pops == 1,
                i == 0 ==> *state == saved && *sr_state == saved_seen,
                i > 0 ==> match restored(*instr, before) {
                    Some(s) => *state == s.0 && *sr_state == s.1,
                    None => *state == saved && *sr_state == saved_seen,
                },
            decreases pops - i,
        {
            let top = stack.pop();
            if instr.mnemonic == PLP {
                match top {
                    Some(StackDataType::CpuState { state: s, sr_state: r }) => {
                        *state = s;
                        *sr_state = r;
                    },
                    _ => {},
                }
            }
            i += 1;
            assert(stack@ =~= without_top(before, i as nat));
        }
        let ghost base = stack@;
        match instr.mnemonic {
            PHP => {
                stack.push(StackDataType::CpuState { state: saved, sr_state: saved_seen });
            },
            PHK | PHB => {
                stack.push(StackDataType::Bank(0));
            },
            _ => {},
        }
        let mut j: usize = 0;
        while j < pushes
            invariant
                j <= pushes,
                pushes > 0 ==> stack@ == base + Seq::new(j as nat, |k: int| StackDataType::Data),
                pushes == 0 ==> stack@ == base + pushed(*instr, saved, saved_seen),
            decreases pushes - j,
        {
            stack.push(StackDataType::Data);
            j += 1;
            assert(stack@ =~= base + Seq::new(j as nat, |k: int| StackDataType::Data));
        }
        assert(stack@ =~= stack_after(*instr, saved, saved_seen, before));
    }

    fn enter(&mut self, f: &mut Frame) -> (out: Step)
        ensures
            (Stepped { tables: final(self)@, frame: final(f)@, outcome: out@ }) == enter(
                old(self)@,
                old(f)@,
            ),
    {
        match self.subroutines.get(&f.root) {
            Some(sub) => {
                return Step::Return(*sub);
            },
            None => {},
        }
        if !self.rom.is_mapped(f.root) {
            let sub = Subroutine {
                sr_effect: SrCpuState { affect_m: None, affect_x: None },
                divergent: false,
            };
            self.subroutines.insert(f.root, sub);
            return Step::Return(sub);
        }
        f.started = true;
        Step::Continue
    }

    fn take_next(&mut self, f: &mut Frame)
        requires
            old(f).queue.len() > 0,
        ensures
            (Stepped { tables: final(self)@, frame: final(f)@, outcome: Outcome::Continue })
                == take_next(old(self)@, old(f)@),
    {
        let item = f.queue.pop().unwrap();
        assert(f@.queue =~= old(f)@.queue.drop_last());
        assert(item@ == old(f)@.queue.last());
        if self.rom.is_mapped(item.pc) {
            self.labels.insert(item.pc);
            f.walking = true;
            f.cursor = item;
        }
    }

    fn finish(&mut self, f: &Frame) -> (sub: Subroutine)
        ensures
            (Stepped { tables: final(self)@, frame: f@, outcome: Outcome::Return(sub) })
                == finish(old(self)@, f@),
    {
        match self.subroutines.get(&f.root) {
            Some(sub) => {
                return *sub;
            },
            None => {},
        }
        let sub = Subroutine { sr_effect: f.effect, divergent: f.divergent };
        self.subroutines.insert(f.root, sub);
        sub
    }

    fn converge(&mut self, f: &mut Frame)
        requires
            old(self)@.entries.contains_key(old(f).cursor.pc),
        ensures
            (Stepped { tables: final(self)@, frame: final(f)@, outcome: Outcome::Continue })
                == converge(old(self)@, old(f)@),
    {
        f.walking = false;
        let owner = match self.entries.get(&f.cursor.pc) {
            Some(e) => e.subroutine,
            None => f.root,
        };
        if owner != f.root {
            let found = match self.subroutines.get(&owner) {
                Some(sub) => Some(*sub),
                None => None,
            };
            match found {
                Some(sub) => {
                    match sub.sr_effect.affect_m {
                        Some(v) => {
                            f.effect.affect_m = Some(v);
                        },
                        None => {},
                    }
                    match sub.sr_effect.affect_x {
                        Some(v) => {
                            f.effect.affect_x = Some(v);
                        },
                        None => {},
                    }
                    self.subroutines.insert(f.root, sub);
                },
                None => {},
            }
        }
    }

    fn record(&mut self, f: &mut Frame, len: usize, instr: Instruction) -> (out: Step)
        requires
            old(f).walking,
            old(f).cursor.pc <= 0xFF_FFFF,
            1 <= len <= 4,
        ensures
            (Stepped { tables: final(self)@, frame: final(f)@, outcome: out@ }) == record(
                old(self)@,
                old(f)@,
                len,
                instr,
            ),
    {
        let pc = f.cursor.pc;
        let next: u32 = pc + len as u32;
        let entry = Entry {
            stack: copy_stack(&f.cursor.stack),
            state: f.cursor.state,
            instr,
            subroutine: f.root,
        };
        self.entries.insert(pc, entry);
        assert(self@.entries =~= old(self)@.entries.insert(pc, entry@));

        let mut state = f.cursor.state;
        let mut seen = f.cursor.sr_state;
        instr.apply_flags(&mut state);
        let mut seen_m = seen.affect_m;
        let mut seen_x = seen.affect_x;
        instr.apply_flags_opt(&mut seen_m, &mut seen_x);
        seen = SrCpuState { affect_m: seen_m, affect_x: seen_x };
        assert(seen == seen_flags_after(instr, old(f).cursor.sr_state));
        let mut stack = copy_stack(&f.cursor.stack);
        self.apply_instr(&instr, &mut state, &mut seen, &mut stack);
        let queued = copy_stack(&stack);
        f.cursor = QueueEntry { pc, stack, state, sr_state: seen };
        assert(f.cursor@ == cursor_after(instr, old(f).cursor@));

        let is_return = instr.mnemonic == RTS || instr.mnemonic == RTL;
        let target = instr.jump_addr(pc);
        if is_return {
            self.returns.insert(pc);
            f.effect = seen;
            f.divergent = false;
        } else if (instr.mnemonic == JMP || instr.mnemonic == JML) && target.is_none() {
            f.divergent = true;
        }
        match target {
            Some(t) => {
                f.queue.push(QueueEntry { pc: t, stack: queued, state, sr_state: seen });
                assert(f@.queue =~= old(f)@.queue.push(
                    QueueEntryView { pc: t, ..cursor_after(instr, old(f).cursor@) },
                ));
            },
            None => {
                match instr.jsr_addr(pc) {
                    Some(t) => {
                        let long = instr.mnemonic == JSL;
                        f.call_next = next;
                        f.call_long = long;
                        let mut frame: Vec<StackDataType> = Vec::new();
                        frame.push(StackDataType::RetAddr);
                        frame.push(StackDataType::RetAddr);
                        if long {
                            frame.push(StackDataType::RetAddr);
                        }
                        assert(frame@ =~= return_frame(long));
                        return Step::Call(
                            Frame::fresh(
                                QueueEntry {
                                    pc: t,
                                    stack: frame,
                                    state,
                                    sr_state: SrCpuState { affect_m: None, affect_x: None },
                                },
                            ),
                        );
                    },
                    None => {},
                }
            },
        }
        if instr.divergent() {
            f.walking = false;
        } else {
            f.cursor.pc = next;
        }
        Step::Continue
    }

    fn walk_step(&mut self, f: &mut Frame) -> (out: Step)
        requires
            old(f).walking,
        ensures
            (Stepped { tables: final(self)@, frame: final(f)@, outcome: out@ }) == walk_step(
                old(self)@,
                old(f)@,
            ),
    {
        let pc = f.cursor.pc;
        match self.decode_at(pc, f.cursor.state) {
            None => {
                f.walking = false;
                Step::Continue
            },
            Some(found) => {
                if self.entries.contains_key(&pc) {
                    self.converge(f);
                    Step::Continue
                } else if self.overlaps(pc, found.0) {
                    f.walking = false;
                    Step::Continue
                } else {
                    self.record(f, found.0, found.1)
                }
            },
        }
    }

    fn resume(&mut self, f: &mut Frame, sub: Subroutine)
        ensures
            (Stepped { tables: final(self)@, frame: final(f)@, outcome: Outcome::Continue })
                == resume(old(self)@, old(f)@, sub),
    {
        match sub.sr_effect.affect_m {
            Some(v) => {
                f.cursor.state.m = v;
                f.cursor.sr_state.affect_m = Some(v);
            },
            None => {},
        }
        match sub.sr_effect.affect_x {
            Some(v) => {
                f.cursor.state.x = v;
                f.cursor.sr_state.affect_x = Some(v);
            },
            None => {},
        }
        if sub.divergent {
            f.divergent = false;
            f.walking = false;
            self.extra_rules.push(Rule::JumpTable { pc: f.cursor.pc, size: 0, long: f.call_long });
        } else {
            f.cursor.pc = f.call_next;
        }
    }

    /// One step of the traversal. Returns the summary of the bottom frame
    /// once that frame has returned.
    fn advance(&mut self, below: &mut Vec<Frame>, top: Frame) -> (r: (Frame, Option<Subroutine>))
        ensures
            step(machine_view(old(self)@, old(below)@, top)) == (Machine {
                tables: final(self)@,
                below: frames_view(final(below)@),
                top: r.0@,
                result: r.1,
            }),
    {
        reveal(step);
        let mut top = top;
        let out = if !top.started {
            self.enter(&mut top)
        } else if top.walking {
            self.walk_step(&mut top)
        } else if top.queue.len() > 0 {
            self.take_next(&mut top);
            Step::Continue
        } else {
            Step::Return(self.finish(&top))
        };
        match out {
            Step::Continue => (top, None),
            Step::Call(callee) => {
                let ghost pushed_view = frames_view(below@).push(top@);
                below.push(top);
                assert(frames_view(below@) =~= pushed_view);
                (callee, None)
            },
            Step::Return(sub) => {
                match below.pop() {
                    None => (top, Some(sub)),
                    Some(caller) => {
                        assert(frames_view(below@) =~= frames_view(old(below)@).drop_last());
                        assert(caller@ == frames_view(old(below)@).last());
                        let mut caller = caller;
                        self.resume(&mut caller, sub);
                        (caller, None)
                    },
                }
            },
        }
    }

    /// Analyses the subroutine that is entered with `entry`, and every
    /// subroutine that it is found to call, and returns its summary. A
    /// subroutine that has a summary is not analysed again.
    pub fn process(&mut self, entry: QueueEntry) -> (sub: Subroutine)
        ensures
            final(self)@ == analyse(old(self)@, entry@),
            sub == summary(old(self)@, entry@),
            final(self)@.subroutines.contains_key(entry.pc),
            final(self)@.subroutines[entry.pc] == sub,
            extends(old(self)@, final(self)@),
            old(self)@.wf() ==> final(self)@.wf(),
    {
        let ghost begin = start(self@, entry@);
        let mut below: Vec<Frame> = Vec::new();
        let mut top = Frame::fresh(entry);
        assert(frames_view(below@) =~= Seq::empty());
        loop
            invariant
                begin == start(old(self)@, entry@),
                run(machine_view(self@, below@, top)) == run(begin),
            decreases unvisited_total(self@), below.len(), weight(top@),
        {
            let ghost m = machine_view(self@, below@, top);
            proof {
                lemma_step_decreases(m);
            }
            let r = self.advance(&mut below, top);
            top = r.0;
            assert(run(m) == run(step(m)));
            match r.1 {
                Some(sub) => {
                    assert(run(step(m)) == step(m));
                    proof {
                        lemma_run_frame(begin);
                        lemma_process_extends(old(self)@, entry@);
                        lemma_summary_stored(old(self)@, entry@);
                        if old(self)@.wf() {
                            lemma_process_wf(old(self)@, entry@);
                        }
                    }
                    return sub;
                },
                None => {},
            }
        }
    }
}

impl Disassembler {
    /// Starts a traversal at the handler that the vector at `addr` names.
    fn process_vector(&mut self, addr: u32)
        ensures
            final(self)@ == ingest_vector(old(self)@, addr),
    {
        let target = self.rom.load_u16(addr) as u32;
        self.process(
            QueueEntry {
                pc: target,
                stack: Vec::new(),
                state: CpuState { m: true, x: true },
                sr_state: SrCpuState { affect_m: None, affect_x: None },
            },
        );
    }

    /// Starts a traversal at each pointer of the jump table that the rule
    /// at `pc` names.
    fn process_table(&mut self, pc: u32, size: u32, long: bool)
        ensures
            final(self)@ == ingest_table(old(self)@, pc, long, size as nat),
    {
        let width: u64 = if long {
            3
        } else {
            2
        };
        let mut i: u32 = 0;
        while i < size
            invariant
                i <= size,
                width == crate::machine::pointer_width(long),
                self@ == ingest_table(old(self)@, pc, long, i as nat),
            decreases size - i,
        {
            proof {
                lemma_ingest_table(old(self)@, pc, long, i as nat);
            }
            let at: u32 = ((pc as u64 + 4 + i as u64 * width) % 0x100_0000) as u32;
            assert(at == pointer_addr(pc, i, long));
            let mut stack: Vec<StackDataType> = Vec::new();
            stack.push(StackDataType::RetAddr);
            stack.push(StackDataType::RetAddr);
            let target = if long {
                stack.push(StackDataType::RetAddr);
                self.rom.load_u24(at)
            } else {
                self.rom.load_u16(at) as u32 | (pc & 0xFF_0000)
            };
            assert(stack@ =~= return_frame(long));
            assert(target == pointer_target(old(self)@.rom, pc, i, long));
            self.process(
                QueueEntry {
                    pc: target,
                    stack,
                    state: CpuState { m: true, x: true },
                    sr_state: SrCpuState { affect_m: None, affect_x: None },
                },
            );
            i += 1;
        }
    }

    /// Runs the full analysis: traversal from the reset, interrupt-request
    /// and non-maskable-interrupt handlers, and then from the pointers of
    /// every jump table that `rules` names. A rule whose own address lies
    /// outside ROM is skipped.
    pub fn process_rules(&mut self, rules: &Vec<Rule>)
        ensures
            final(self)@ == ingest(old(self)@, rules@),
            extends(old(self)@, final(self)@),
            old(self)@.wf() ==> final(self)@.wf(),
    {
        proof {
            lemma_ingest(self@, rules@);
            lemma_ingest_extends(self@, rules@);
        }
        self.process_vector(RESET_VECTOR);
        self.process_vector(IRQ_VECTOR);
        self.process_vector(NMI_VECTOR);
        let ghost seeded = self@;
        let mut k: usize = 0;
        assert(rules@.take(0) =~= Seq::empty());
        while k < rules.len()
            invariant
                k <= rules.len(),
                self@ == ingest_rules(seeded, rules@.take(k as int)),
            decreases rules.len() - k,
        {
            let ghost before = self@;
            match rules[k] {
                Rule::JumpTable { pc, size, long } => {
                    if self.rom.is_mapped(pc) {
                        self.process_table(pc, size, long);
                    }
                },
            }
            assert(self@ == ingest_rule(before, rules@[k as int]));
            assert(rules@.take(k + 1).drop_last() =~= rules@.take(k as int));
            k += 1;
        }
        assert(rules@.take(rules.len() as int) =~= rules@);
    }
}

/// A prefix and a number in upper-case hexadecimal of at least `width`
/// digits.
fn numbered(prefix: &str, value: u32, width: usize) -> (s: String)
    ensures
        s@ == prefix@ + crate::text::hex(value as nat, width as nat),
{
    let mut s = String::from_str(prefix);
    let digits = hex_upper(value, width);
    s.append(digits.as_str());
    s
}

impl Disassembler {
    /// The user's name for `addr`, if there is one.
    fn user_label(&self, addr: u32) -> (r: Option<String>)
        ensures
            match r {
                Some(name) => self@.label_names.contains_key(addr) && name@
                    == self@.label_names[addr],
                None => !self@.label_names.contains_key(addr),
            },
    {
        match self.label_names.get(&addr) {
            Some(v) => Some(v.clone()),
            None => None,
        }
    }

    /// The name of the code address `addr`.
    pub fn get_label(&self, addr: u32) -> (s: String)
        ensures
            s@ == code_label(self@, addr),
    {
        match self.user_label(addr) {
            Some(name) => name,
            None => {
                if self.subroutines.contains_key(&addr) {
                    numbered("sub_", addr, 6)
                } else if self.returns.contains(&addr) {
                    numbered("ret_", addr, 6)
                } else {
                    numbered("loc_", addr, 6)
                }
            },
        }
    }

    /// The address under which the data address `addr` is named.
    pub fn normalize_addr(&self, addr: u32) -> (a: u32)
        ensures
            a == canonical(addr),
    {
        let offset = addr % 0x1_0000;
        if offset < 0x2000 && addr / 0x1_0000 < 0x40 {
            0x7E_0000 + offset
        } else if offset >= 0x2000 && offset < 0x8000 {
            offset
        } else {
            addr
        }
    }

    /// The name of the data address `addr`.
    pub fn get_data_label(&self, addr: u32) -> (s: String)
        ensures
            s@ == data_label(self@, addr),
    {
        let a = self.normalize_addr(addr);
        let offset = a % 0x1_0000;
        match self.user_label(a) {
            Some(name) => name,
            None => {
                if a >= 0x7E_2000 {
                    numbered("wram_", a, 6)
                } else if a >= 0x7E_0000 {
                    numbered("wram_", offset, 4)
                } else if a >= 0x70_0000 {
                    numbered("sram_", a, 6)
                } else if offset >= 0x2000 && offset < 0x8000 {
                    numbered("reg_", offset, 4)
                } else {
                    numbered("data_", a, 6)
                }
            },
        }
    }

    /// The label row of `pc`.
    fn label_row(&self, pc: u32) -> (line: Line)
        ensures
            line@ == label_line(self@, pc),
    {
        let mut text = self.get_label(pc);
        text.append(":");
        Line { pc, len: 0, text, kind: LineKind::Label }
    }

    /// The row of the instruction `instr` at `pc`.
    fn code_row(&self, pc: u32, instr: Instruction) -> (line: Line)
        requires
            self@.entries.contains_key(pc),
            self@.entries[pc].instr == instr,
            instr.size <= 3,
        ensures
            line@ == code_line(self@, pc),
    {
        let shown = match instr.jump_target(pc) {
            Some(target) => {
                let label = self.get_label(target);
                instr.display(Some(label.as_str()))
            },
            None => match instr.label_target(pc, pc >> 16) {
                Some(target) => {
                    if instr.mode == Mode::Imm {
                        instr.display(None)
                    } else {
                        let label = self.get_data_label(target);
                        instr.display(Some(label.as_str()))
                    }
                },
                None => instr.display(None),
            },
        };
        let mut text = String::from_str("    ");
        text.append(shown.as_str());
        Line { pc, len: instr.size + 1, text, kind: LineKind::Code }
    }

    /// The row of the data byte at `pc`.
    fn data_row(&self, pc: u32) -> (line: Line)
        ensures
            line@ == data_line(self@, pc),
    {
        let text = numbered("    db $", self.rom.load(pc) as u32, 2);
        Line { pc, len: 1, text, kind: LineKind::Data }
    }

    /// Appends the rows for the address `pc` and returns the number of
    /// bytes that they cover.
    fn push_rows(&self, lines: &mut Vec<Line>, pc: u32) -> (n: u32)
        requires
            printable(self@),
            pc <= 0xFF_FFFF,
        ensures
            line_views(final(lines)@) == line_views(old(lines)@) + rows_at(self@, pc),
            n == stride(self@, pc),
            1 <= n <= 4,
    {
        let ghost done = line_views(lines@);
        if self.labels.contains(&pc) || self.label_names.contains_key(&pc) {
            let row = self.label_row(pc);
            lines.push(row);
            assert(line_views(lines@) =~= done + seq![label_line(self@, pc)]);
        } else {
            assert(line_views(lines@) =~= done + Seq::<LineView>::empty());
        }
        let ghost labelled = line_views(lines@);
        let found = match self.entries.get(&pc) {
            Some(e) => Some(e.instr),
            None => None,
        };
        match found {
            Some(instr) => {
                assert(self@.entries.contains_key(pc));
                let row = self.code_row(pc, instr);
                lines.push(row);
                if instr.divergent() {
                    let gap = Line {
                        pc: pc + instr.size as u32 + 1,
                        len: 0,
                        text: String::new(),
                        kind: LineKind::Spacing,
                    };
                    assert(gap@ == spacing_line(self@, pc));
                    lines.push(gap);
                    assert(line_views(lines@) =~= labelled + seq![
                        code_line(self@, pc),
                        spacing_line(self@, pc),
                    ]);
                } else {
                    assert(line_views(lines@) =~= labelled + seq![code_line(self@, pc)]);
                }
                assert(line_views(lines@) =~= done + rows_at(self@, pc));
                instr.size as u32 + 1
            },
            None => {
                let row = self.data_row(pc);
                lines.push(row);
                assert(line_views(lines@) =~= labelled + seq![data_line(self@, pc)]);
                assert(line_views(lines@) =~= done + rows_at(self@, pc));
                1
            },
        }
    }

    /// Renders the listing of `bank`: for each address of its upper half in
    /// turn the label row, where the address is labelled, and then the
    /// instruction found there or a byte of data.
    pub fn print_bank(&self, bank: u32) -> (lines: Vec<Line>)
        requires
            printable(self@),
            bank <= 0xFF,
        ensures
            line_views(lines@) == listing(self@, bank),
    {
        let mut lines: Vec<Line> = Vec::new();
        let mut rpc: u32 = 0x8000;
        assert(line_views(lines@) =~= Seq::empty());
        assert(bank << 16 == bank * 0x1_0000) by (bit_vector)
            requires
                bank <= 0xFF,
        ;
        let base: u32 = bank << 16;
        while rpc < 0x1_0000
            invariant
                printable(self@),
                bank <= 0xFF,
                base == bank * 0x1_0000,
                0x8000 <= rpc <= 0x1_0003,
                line_views(lines@) + rows_from(self@, bank, rpc as nat) == listing(self@, bank),
            decreases 0x1_0003 - rpc,
        {
            let pc: u32 = rpc + base;
            assert(pc == bank_addr(bank, rpc as nat));
            let ghost done = line_views(lines@);
            let ghost head = rows_at(self@, pc);
            let ghost rest = rows_from(self@, bank, rpc as nat + stride(self@, pc));
            assert(rows_from(self@, bank, rpc as nat) == head + rest);
            let n = self.push_rows(&mut lines, pc);
            rpc += n;
            assert(done + head + rest =~= done + (head + rest));
        }
        assert(rows_from(self@, bank, rpc as nat) =~= Seq::empty());
        assert(line_views(lines@) + Seq::<LineView>::empty() =~= line_views(lines@));
        lines
    }
}

/// Two engines that hold the same image and tables hold the same tables
/// after a full analysis under the same rules: the analysis depends on
/// nothing else.
pub proof fn lemma_analysis_determined(
    a: Disassembler,
    b: Disassembler,
    rules_a: Vec<Rule>,
    rules_b: Vec<Rule>,
)
    requires
        a@ == b@,
        rules_a@ == rules_b@,
    ensures
        ingest(a@, rules_a@) == ingest(b@, rules_b@),
        ingest(a@, rules_a@).entries == ingest(b@, rules_b@).entries,
        ingest(a@, rules_a@).labels == ingest(b@, rules_b@).labels,
        ingest(a@, rules_a@).returns == ingest(b@, rules_b@).returns,
        ingest(a@, rules_a@).subroutines == ingest(b@, rules_b@).subroutines,
{
}

/// The summary that a traversal returns is the one that it leaves in the
/// tables for the subroutine.
pub proof fn lemma_summary_stored(t: Analysis, item: QueueEntryView)
    ensures
        analyse(t, item).subroutines.contains_key(item.pc),
        analyse(t, item).subroutines[item.pc] == summary(t, item),
{
    crate::machine::lemma_result_stored(start(t, item));
}

/// The traversal with the given frames, still running.
spec fn machine_view(tables: Analysis, below: Seq<Frame>, top: Frame) -> Machine {
    Machine { tables, below: frames_view(below), top: top@, result: None }
}

} // verus!
