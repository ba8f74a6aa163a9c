//! The 65816 instruction set: opcode table, decoder, and the predicates and
//! text form of a decoded instruction.

use crate::rom::le_value;
use crate::text::{hex, hex_upper};
use vstd::prelude::*;
use vstd::string::*;

verus! {

/// An instruction mnemonic.
#[derive(Debug, Copy, Clone, PartialEq, Eq, Structural)]
pub enum Mnemonic {
    ADC, AND, ASL, BCC, BCS, BEQ, BIT, BMI,
    BNE, BPL, BRA, BRK, BRL, BVC, BVS, CLC,
    CLD, CLI, CLV, CMP, COP, CPX, CPY, DEC,
    DEX, DEY, EOR, INC, INX, INY, JML, JMP,
    JSL, JSR, LDA, LDX, LDY, LSR, MVN, MVP,
    NOP, ORA, PEA, PEI, PER, PHA, PHB, PHD,
    PHK, PHP, PHX, PHY, PLA, PLB, PLD, PLP,
    PLX, PLY, REP, ROL, ROR, RTI, RTL, RTS,
    SBC, SEC, SED, SEI, SEP, STA, STP, STX,
    STY, STZ, TAX, TAY, TCD, TCS, TDC, TRB,
    TSB, TSC, TSX, TXA, TXS, TXY, TYA, TYX,
    WAI, WDM, XBA, XCE,
}

/// An addressing mode.
#[derive(Debug, Copy, Clone, PartialEq, Eq, Structural)]
pub enum Mode {
    /// Implied: no operand.
    Imp,
    /// Immediate: the operand's width follows the M or X flag.
    Imm,
    /// Stack relative.
    Sr,
    /// Direct page, plain and indexed.
    Dp,
    Dpx,
    Dpy,
    /// Direct page indirect, in its indexed and long forms.
    Idp,
    Idx,
    Idy,
    Idl,
    Ily,
    Isy,
    /// Absolute, plain, indexed and long.
    Abs,
    Abx,
    Aby,
    Abl,
    Alx,
    /// Absolute indirect.
    Ind,
    Iax,
    Ial,
    /// Program-counter relative, short and long.
    Rel,
    Rll,
    /// Block move.
    Bm,
}

use Mnemonic::{
    ADC, AND, ASL, BCC, BCS, BEQ, BIT, BMI,
    BNE, BPL, BRA, BRK, BRL, BVC, BVS, CLC,
    CLD, CLI, CLV, CMP, COP, CPX, CPY, DEC,
    DEX, DEY, EOR, INC, INX, INY, JML, JMP,
    JSL, JSR, LDA, LDX, LDY, LSR, MVN, MVP,
    NOP, ORA, PEA, PEI, PER, PHA, PHB, PHD,
    PHK, PHP, PHX, PHY, PLA, PLB, PLD, PLP,
    PLX, PLY, REP, ROL, ROR, RTI, RTL, RTS,
    SBC, SEC, SED, SEI, SEP, STA, STP, STX,
    STY, STZ, TAX, TAY, TCD, TCS, TDC, TRB,
    TSB, TSC, TSX, TXA, TXS, TXY, TYA, TYX,
    WAI, WDM, XBA, XCE,
};
use Mode::{
    Imp, Imm, Sr, Dp, Dpx, Dpy, Idp, Idx,
    Idy, Idl, Ily, Isy, Abs, Abx, Aby, Abl,
    Alx, Ind, Iax, Ial, Rel, Rll, Bm,
};

/// The register class whose width decides an immediate operand's length.
#[derive(Debug, Copy, Clone, PartialEq, Eq, Structural)]
pub enum Register {
    A,
    XY,
}

/// The M and X status flags: a set flag makes the accumulator, or the index
/// registers, eight bits wide.
#[derive(Debug, Copy, Clone, PartialEq, Eq, Structural)]
pub struct CpuState {
    pub m: bool,
    pub x: bool,
}

/// A decoded instruction. `size` counts the operand bytes, so the encoding
/// takes `size + 1` bytes; `argument` holds them little-endian.
#[derive(Debug, Copy, Clone, PartialEq, Eq, Structural)]
pub struct Instruction {
    pub mnemonic: Mnemonic,
    pub mode: Mode,
    pub size: usize,
    pub argument: u32,
}

/// Mnemonic and addressing mode of each opcode.
pub const OPCODES: [(Mnemonic, Mode); 256] = [
    // 00
    (BRK, Imp), (ORA, Idx), (COP, Imm), (ORA, Sr),
    (TSB, Dp), (ORA, Dp), (ASL, Dp), (ORA, Idl),
    (PHP, Imp), (ORA, Imm), (ASL, Imp), (PHD, Imp),
    (TSB, Abs), (ORA, Abs), (ASL, Abs), (ORA, Abl),
    // 10
    (BPL, Rel), (ORA, Idy), (ORA, Idp), (ORA, Isy),
    (TRB, Dp), (ORA, Dpx), (ASL, Dpx), (ORA, Ily),
    (CLC, Imp), (ORA, Aby), (INC, Imp), (TCS, Imp),
    (TRB, Abs), (ORA, Abx), (ASL, Abx), (ORA, Alx),
    // 20
    (JSR, Abs), (AND, Idx), (JSL, Abl), (AND, Sr),
    (BIT, Dp), (AND, Dp), (ROL, Dp), (AND, Idl),
    (PLP, Imp), (AND, Imm), (ROL, Imp), (PLD, Imp),
    (BIT, Abs), (AND, Abs), (ROL, Abs), (AND, Abl),
    // 30
    (BMI, Rel), (AND, Idy), (AND, Idp), (AND, Isy),
    (BIT, Dpx), (AND, Dpx), (ROL, Dpx), (AND, Ily),
    (SEC, Imp), (AND, Aby), (DEC, Imp), (TSC, Imp),
    (BIT, Abx), (AND, Abx), (ROL, Abx), (AND, Alx),
    // 40
    (RTI, Imp), (EOR, Idx), (WDM, Imm), (EOR, Sr),
    (MVP, Bm), (EOR, Dp), (LSR, Dp), (EOR, Idl),
    (PHA, Imp), (EOR, Imm), (LSR, Imp), (PHK, Imp),
    (JMP, Abs), (EOR, Abs), (LSR, Abs), (EOR, Abl),
    // 50
    (BVC, Rel), (EOR, Idy), (EOR, Idp), (EOR, Isy),
    (MVN, Bm), (EOR, Dpx), (LSR, Dpx), (EOR, Ily),
    (CLI, Imp), (EOR, Aby), (PHY, Imp), (TCD, Imp),
    (JML, Abl), (EOR, Abx), (LSR, Abx), (EOR, Alx),
    // 60
    (RTS, Imp), (ADC, Idx), (PER, Rll), (ADC, Sr),
    (STZ, Dp), (ADC, Dp), (ROR, Dp), (ADC, Idl),
    (PLA, Imp), (ADC, Imm), (ROR, Imp), (RTL, Imp),
    (JMP, Ind), (ADC, Abs), (ROR, Abs), (ADC, Abl),
    // 70
    (BVS, Rel), (ADC, Idy), (ADC, Idp), (ADC, Isy),
    (STZ, Dpx), (ADC, Dpx), (ROR, Dpx), (ADC, Ily),
    (SEI, Imp), (ADC, Aby), (PLY, Imp), (TDC, Imp),
    (JMP, Iax), (ADC, Abx), (ROR, Abx), (ADC, Alx),
    // 80
    (BRA, Rel), (STA, Idx), (BRL, Rll), (STA, Sr),
    (STY, Dp), (STA, Dp), (STX, Dp), (STA, Idl),
    (DEY, Imp), (BIT, Imm), (TXA, Imp), (PHB, Imp),
    (STY, Abs), (STA, Abs), (STX, Abs), (STA, Abl),
    // 90
    (BCC, Rel), (STA, Idy), (STA, Idp), (STA, Isy),
    (STY, Dpx), (STA, Dpx), (STX, Dpy), (STA, Ily),
    (TYA, Imp), (STA, Aby), (TXS, Imp), (TXY, Imp),
    (STZ, Abs), (STA, Abx), (STZ, Abx), (STA, Alx),
    // A0
    (LDY, Imm), (LDA, Idx), (LDX, Imm), (LDA, Sr),
    (LDY, Dp), (LDA, Dp), (LDX, Dp), (LDA, Idl),
    (TAY, Imp), (LDA, Imm), (TAX, Imp), (PLB, Imp),
    (LDY, Abs), (LDA, Abs), (LDX, Abs), (LDA, Abl),
    // B0
    (BCS, Rel), (LDA, Idy), (LDA, Idp), (LDA, Isy),
    (LDY, Dpx), (LDA, Dpx), (LDX, Dpy), (LDA, Ily),
    (CLV, Imp), (LDA, Aby), (TSX, Imp), (TYX, Imp),
    (LDY, Abx), (LDA, Abx), (LDX, Aby), (LDA, Alx),
    // C0
    (CPY, Imm), (CMP, Idx), (REP, Imm), (CMP, Sr),
    (CPY, Dp), (CMP, Dp), (DEC, Dp), (CMP, Idl),
    (INY, Imp), (CMP, Imm), (DEX, Imp), (WAI, Imp),
    (CPY, Abs), (CMP, Abs), (DEC, Abs), (CMP, Abl),
    // D0
    (BNE, Rel), (CMP, Idy), (CMP, Idp), (CMP, Isy),
    (PEI, Idp), (CMP, Dpx), (DEC, Dpx), (CMP, Ily),
    (CLD, Imp), (CMP, Aby), (PHX, Imp), (STP, Imp),
    (JMP, Ial), (CMP, Abx), (DEC, Abx), (CMP, Alx),
    // E0
    (CPX, Imm), (SBC, Idx), (SEP, Imm), (SBC, Sr),
    (CPX, Dp), (SBC, Dp), (INC, Dp), (SBC, Idl),
    (INX, Imp), (SBC, Imm), (NOP, Imp), (XBA, Imp),
    (CPX, Abs), (SBC, Abs), (INC, Abs), (SBC, Abl),
    // F0
    (BEQ, Rel), (SBC, Idy), (SBC, Idp), (SBC, Isy),
    (PEA, Abs), (SBC, Dpx), (INC, Dpx), (SBC, Ily),
    (SED, Imp), (SBC, Aby), (PLX, Imp), (XCE, Imp),
    (JSR, Iax), (SBC, Abx), (INC, Abx), (SBC, Alx),
];

/// The table row of `opcode`.
pub open spec fn opcode_row(opcode: u8) -> (Mnemonic, Mode) {
    OPCODES[opcode as int]
}

/// The register class that `mnem` works on, where it has one.
pub open spec fn affected(mnem: Mnemonic) -> Option<Register> {
    match mnem {
        ADC | SBC | CMP | AND | EOR | ORA | BIT | LDA | STA => Some(Register::A),
        CPX | CPY | LDX | LDY | STX | STY => Some(Register::XY),
        _ => None,
    }
}

#[verifier::when_used_as_spec(affected)]
pub fn affects(mnem: Mnemonic) -> (r: Option<Register>)
    ensures
        r == affected(mnem),
{
    match mnem {
        ADC | SBC | CMP | AND | EOR | ORA | BIT | LDA | STA => Some(Register::A),
        CPX | CPY | LDX | LDY | STX | STY => Some(Register::XY),
        _ => None,
    }
}

/// Number of operand bytes of an instruction under the given flags.
pub open spec fn operand_len(mnemonic: Mnemonic, mode: Mode, flags: CpuState) -> nat {
    if mode == Imm {
        match affected(mnemonic) {
            Some(Register::A) => if flags.m {
                1
            } else {
                2
            },
            Some(Register::XY) => if flags.x {
                1
            } else {
                2
            },
            None => 1,
        }
    } else {
        mode.operand_width()
    }
}

/// The instruction at the start of `bytes` under `flags`, with the number of
/// bytes it takes. There is none where `bytes` is empty or ends before the
/// operand does.
pub open spec fn decode(bytes: Seq<u8>, flags: CpuState) -> Option<(usize, Instruction)> {
    if bytes.len() == 0 {
        None
    } else {
        let row = opcode_row(bytes[0]);
        let n = operand_len(row.0, row.1, flags);
        if bytes.len() < n + 1 {
            None
        } else {
            Some(
                (
                    (n + 1) as usize,
                    Instruction {
                        mnemonic: row.0,
                        mode: row.1,
                        size: n as usize,
                        argument: le_value(bytes, 1, n) as u32,
                    },
                ),
            )
        }
    }
}

/// An operand is at most three bytes long.
pub proof fn lemma_operand_len_bound(mnemonic: Mnemonic, mode: Mode, flags: CpuState)
    ensures
        operand_len(mnemonic, mode, flags) <= 3,
{
}

/// Decoding succeeds on every buffer of four bytes or more, whatever the
/// opcode and the flags, and takes between one and four bytes.
pub proof fn lemma_decode_total(bytes: Seq<u8>, flags: CpuState)
    requires
        bytes.len() >= 4,
    ensures
        decode(bytes, flags) is Some,
        1 <= decode(bytes, flags).unwrap().0 <= 4,
        decode(bytes, flags).unwrap().0 == decode(bytes, flags).unwrap().1.size + 1,
{
    let row = opcode_row(bytes[0]);
    lemma_operand_len_bound(row.0, row.1, flags);
}

/// What decoding yields is an instruction of at most three operand bytes
/// that fits the buffer.
pub proof fn lemma_decode_shape(bytes: Seq<u8>, flags: CpuState)
    requires
        decode(bytes, flags) is Some,
    ensures
        decode(bytes, flags).unwrap().1.size <= 3,
        decode(bytes, flags).unwrap().0 == decode(bytes, flags).unwrap().1.size + 1,
        decode(bytes, flags).unwrap().0 <= bytes.len(),
        decode(bytes, flags).unwrap().1.mnemonic == opcode_row(bytes[0]).0,
        decode(bytes, flags).unwrap().1.mode == opcode_row(bytes[0]).1,
{
    let row = opcode_row(bytes[0]);
    lemma_operand_len_bound(row.0, row.1, flags);
}

/// Decodes the instruction at the start of `input`.
pub fn parse_instr(input: &[u8], flags: CpuState) -> (r: Option<(usize, Instruction)>)
    ensures
        r == decode(input@, flags),
{
    if input.len() == 0 {
        return None;
    }
    let opcode = input[0];
    let row = OPCODES[opcode as usize];
    let mnemonic = row.0;
    let mode = row.1;
    let size: usize = if mode == Imm {
        match affects(mnemonic) {
            Some(Register::A) => if flags.m {
                1
            } else {
                2
            },
            Some(Register::XY) => if flags.x {
                1
            } else {
                2
            },
            None => 1,
        }
    } else {
        mode.size()
    };
    if input.len() < size + 1 {
        return None;
    }
    proof {
        reveal_with_fuel(le_value, 4);
    }
    let argument: u32 = if size == 0 {
        0
    } else if size == 1 {
        input[1] as u32
    } else if size == 2 {
        input[1] as u32 + 256 * (input[2] as u32)
    } else {
        input[1] as u32 + 256 * (input[2] as u32 + 256 * (input[3] as u32))
    };
    Some((size + 1, Instruction { mnemonic, mode, size, argument }))
}

/// The low `bits` bits of `arg`, read as a two's-complement number.
pub open spec fn sign_extend(arg: u32, bits: nat) -> int {
    let modulus = if bits == 8 {
        0x100int
    } else {
        0x1_0000int
    };
    let low = arg as int % modulus;
    if low >= modulus / 2 {
        low - modulus
    } else {
        low
    }
}

/// Target of a relative branch: the address after the instruction plus the
/// signed displacement, within 24 bits.
pub open spec fn relative_target(pc: u32, len: nat, arg: u32, bits: nat) -> u32 {
    ((pc as int + len as int + sign_extend(arg, bits)) % 0x100_0000) as u32
}

/// `arg` under the bank of `pc`.
pub open spec fn in_bank_of(pc: u32, arg: u32) -> u32 {
    (pc & 0xFF_0000) | arg
}

fn branch_target(pc: u32, len: u32, arg: u32, long: bool) -> (t: u32)
    requires
        len <= 3,
    ensures
        t == relative_target(
            pc,
            len as nat,
            arg,
            if long {
                16
            } else {
                8
            },
        ),
        t <= 0xFF_FFFF,
{
    let modulus: u64 = if long {
        0x1_0000
    } else {
        0x100
    };
    let low: u64 = arg as u64 % modulus;
    let base: u64 = pc as u64 + len as u64 + low;
    let sum: u64 = if low >= modulus / 2 {
        base + 0x100_0000 - modulus
    } else {
        base
    };
    (sum % 0x100_0000) as u32
}

impl Mnemonic {
    /// The mnemonic in lower case, as listings print it.
    pub open spec fn spec_name(self) -> Seq<char> {
        match self {
            ADC => "adc"@,
            AND => "and"@,
            ASL => "asl"@,
            BCC => "bcc"@,
            BCS => "bcs"@,
            BEQ => "beq"@,
            BIT => "bit"@,
            BMI => "bmi"@,
            BNE => "bne"@,
            BPL => "bpl"@,
            BRA => "bra"@,
            BRK => "brk"@,
            BRL => "brl"@,
            BVC => "bvc"@,
            BVS => "bvs"@,
            CLC => "clc"@,
            CLD => "cld"@,
            CLI => "cli"@,
            CLV => "clv"@,
            CMP => "cmp"@,
            COP => "cop"@,
            CPX => "cpx"@,
            CPY => "cpy"@,
            DEC => "dec"@,
            DEX => "dex"@,
            DEY => "dey"@,
            EOR => "eor"@,
            INC => "inc"@,
            INX => "inx"@,
            INY => "iny"@,
            JML => "jml"@,
            JMP => "jmp"@,
            JSL => "jsl"@,
            JSR => "jsr"@,
            LDA => "lda"@,
            LDX => "ldx"@,
            LDY => "ldy"@,
            LSR => "lsr"@,
            MVN => "mvn"@,
            MVP => "mvp"@,
            NOP => "nop"@,
            ORA => "ora"@,
            PEA => "pea"@,
            PEI => "pei"@,
            PER => "per"@,
            PHA => "pha"@,
            PHB => "phb"@,
            PHD => "phd"@,
            PHK => "phk"@,
            PHP => "php"@,
            PHX => "phx"@,
            PHY => "phy"@,
            PLA => "pla"@,
            PLB => "plb"@,
            PLD => "pld"@,
            PLP => "plp"@,
            PLX => "plx"@,
            PLY => "ply"@,
            REP => "rep"@,
            ROL => "rol"@,
            ROR => "ror"@,
            RTI => "rti"@,
            RTL => "rtl"@,
            RTS => "rts"@,
            SBC => "sbc"@,
            SEC => "sec"@,
            SED => "sed"@,
            SEI => "sei"@,
            SEP => "sep"@,
            STA => "sta"@,
            STP => "stp"@,
            STX => "stx"@,
            STY => "sty"@,
            STZ => "stz"@,
            TAX => "tax"@,
            TAY => "tay"@,
            TCD => "tcd"@,
            TCS => "tcs"@,
            TDC => "tdc"@,
            TRB => "trb"@,
            TSB => "tsb"@,
            TSC => "tsc"@,
            TSX => "tsx"@,
            TXA => "txa"@,
            TXS => "txs"@,
            TXY => "txy"@,
            TYA => "tya"@,
            TYX => "tyx"@,
            WAI => "wai"@,
            WDM => "wdm"@,
            XBA => "xba"@,
            XCE => "xce"@,
        }
    }

    pub fn name(self) -> (s: &'static str)
        ensures
            s@ == self.spec_name(),
    {
        match self {
            ADC => "adc",
            AND => "and",
            ASL => "asl",
            BCC => "bcc",
            BCS => "bcs",
            BEQ => "beq",
            BIT => "bit",
            BMI => "bmi",
            BNE => "bne",
            BPL => "bpl",
            BRA => "bra",
            BRK => "brk",
            BRL => "brl",
            BVC => "bvc",
            BVS => "bvs",
            CLC => "clc",
            CLD => "cld",
            CLI => "cli",
            CLV => "clv",
            CMP => "cmp",
            COP => "cop",
            CPX => "cpx",
            CPY => "cpy",
            DEC => "dec",
            DEX => "dex",
            DEY => "dey",
            EOR => "eor",
            INC => "inc",
            INX => "inx",
            INY => "iny",
            JML => "jml",
            JMP => "jmp",
            JSL => "jsl",
            JSR => "jsr",
            LDA => "lda",
            LDX => "ldx",
            LDY => "ldy",
            LSR => "lsr",
            MVN => "mvn",
            MVP => "mvp",
            NOP => "nop",
            ORA => "ora",
            PEA => "pea",
            PEI => "pei",
            PER => "per",
            PHA => "pha",
            PHB => "phb",
            PHD => "phd",
            PHK => "phk",
            PHP => "php",
            PHX => "phx",
            PHY => "phy",
            PLA => "pla",
            PLB => "plb",
            PLD => "pld",
            PLP => "plp",
            PLX => "plx",
            PLY => "ply",
            REP => "rep",
            ROL => "rol",
            ROR => "ror",
            RTI => "rti",
            RTL => "rtl",
            RTS => "rts",
            SBC => "sbc",
            SEC => "sec",
            SED => "sed",
            SEI => "sei",
            SEP => "sep",
            STA => "sta",
            STP => "stp",
            STX => "stx",
            STY => "sty",
            STZ => "stz",
            TAX => "tax",
            TAY => "tay",
            TCD => "tcd",
            TCS => "tcs",
            TDC => "tdc",
            TRB => "trb",
            TSB => "tsb",
            TSC => "tsc",
            TSX => "tsx",
            TXA => "txa",
            TXS => "txs",
            TXY => "txy",
            TYA => "tya",
            TYX => "tyx",
            WAI => "wai",
            WDM => "wdm",
            XBA => "xba",
            XCE => "xce",
        }
    }
}

impl Mode {
    /// Operand bytes of a mode whose width is fixed. An immediate operand's
    /// width depends on the instruction and the flags; without either it
    /// counts as one byte.
    pub open spec fn operand_width(self) -> nat {
        match self {
            Imp => 0,
            Imm | Sr | Dp | Dpx | Dpy | Idp | Idx | Idy | Idl | Ily | Isy | Rel => 1,
            Abs | Abx | Aby | Ind | Iax | Ial | Rll | Bm => 2,
            Abl | Alx => 3,
        }
    }

    /// Operand bytes of a mode other than immediate.
    pub fn size(self) -> (n: usize)
        requires
            self != Imm,
        ensures
            n == self.operand_width(),
    {
        match self {
            Imp => 0,
            Imm | Sr | Dp | Dpx | Dpy | Idp | Idx | Idy | Idl | Ily | Isy | Rel => 1,
            Abs | Abx | Aby | Ind | Iax | Ial | Rll | Bm => 2,
            Abl | Alx => 3,
        }
    }

    /// The operand-size suffix that follows the mnemonic.
    pub open spec fn suffix(self, size: usize) -> Seq<char> {
        match self {
            Imm => if size == 1 {
                ".b"@
            } else {
                ".w"@
            },
            Dp | Dpx | Dpy | Idp | Idx | Idy | Idl | Ily | Isy => ".b"@,
            Abs | Abx | Aby | Ind | Iax | Ial => ".w"@,
            Abl | Alx => ".l"@,
            _ => ""@,
        }
    }

    pub fn size_spec(self, size: usize) -> (s: &'static str)
        ensures
            s@ == self.suffix(size),
    {
        match self {
            Imm => if size == 1 {
                ".b"
            } else {
                ".w"
            },
            Dp | Dpx | Dpy | Idp | Idx | Idy | Idl | Ily | Isy => ".b",
            Abs | Abx | Aby | Ind | Iax | Ial => ".w",
            Abl | Alx => ".l",
            _ => "",
        }
    }

    /// What stands before the operand in this mode's syntax.
    pub open spec fn opening(self) -> Seq<char> {
        match self {
            Imp => ""@,
            Imm => " #"@,
            Sr | Dp | Abs | Abl | Dpx | Abx | Alx | Dpy | Aby | Rel | Rll | Bm => " "@,
            Idp | Ind | Idx | Iax | Idy | Isy => " ("@,
            Idl | Ial | Ily => " ["@,
        }
    }

    /// What stands behind the operand in this mode's syntax.
    pub open spec fn closing(self) -> Seq<char> {
        match self {
            Imp | Imm | Dp | Abs | Abl | Rel | Rll | Bm => ""@,
            Sr => ",s"@,
            Dpx | Abx | Alx => ",x"@,
            Dpy | Aby => ",y"@,
            Idp | Ind => ")"@,
            Idx | Iax => ",x)"@,
            Idy => "),y"@,
            Idl | Ial => "]"@,
            Ily => "],y"@,
            Isy => ",s),y"@,
        }
    }

    /// The operand `arg` in this mode's syntax, with its leading space.
    /// Implied mode prints nothing.
    pub open spec fn operand_text(self, arg: Seq<char>) -> Seq<char> {
        if self == Imp {
            Seq::empty()
        } else {
            self.opening() + arg + self.closing()
        }
    }

    fn opening_str(self) -> (s: &'static str)
        ensures
            s@ == self.opening(),
    {
        match self {
            Imp => "",
            Imm => " #",
            Sr | Dp | Abs | Abl | Dpx | Abx | Alx | Dpy | Aby | Rel | Rll | Bm => " ",
            Idp | Ind | Idx | Iax | Idy | Isy => " (",
            Idl | Ial | Ily => " [",
        }
    }

    fn closing_str(self) -> (s: &'static str)
        ensures
            s@ == self.closing(),
    {
        match self {
            Imp | Imm | Dp | Abs | Abl | Rel | Rll | Bm => "",
            Sr => ",s",
            Dpx | Abx | Alx => ",x",
            Dpy | Aby => ",y",
            Idp | Ind => ")",
            Idx | Iax => ",x)",
            Idy => "),y",
            Idl | Ial => "]",
            Ily => "],y",
            Isy => ",s),y",
        }
    }

    /// Writes the operand `arg` in this mode's syntax.
    pub fn format_item(self, arg: &str) -> (s: String)
        ensures
            s@ == self.operand_text(arg@),
    {
        let mut s = String::new();
        if self != Imp {
            s.append(self.opening_str());
            s.append(arg);
            s.append(self.closing_str());
            assert(s@ =~= self.opening() + arg@ + self.closing());
        }
        s
    }
}

impl Instruction {
    /// The operand as a hexadecimal literal: `$` and two digits per byte.
    pub open spec fn literal(self) -> Seq<char> {
        seq!['$'] + hex(self.argument as nat, 2 * self.size as nat)
    }

    /// The instruction's text: mnemonic, size suffix and operand, the
    /// operand being `label` where one is given and a literal otherwise.
    pub open spec fn text(self, label: Option<Seq<char>>) -> Seq<char> {
        self.mnemonic.spec_name() + self.mode.suffix(self.size) + self.mode.operand_text(
            match label {
                Some(l) => l,
                None => self.literal(),
            },
        )
    }

    /// Renders the instruction, with `label` in place of the operand's
    /// numeric value where one is given.
    pub fn display(self, label: Option<&str>) -> (s: String)
        requires
            2 * self.size <= usize::MAX,
        ensures
            s@ == self.text(
                match label {
                    Some(l) => Some(l@),
                    None => None,
                },
            ),
    {
        let mut s = String::from_str(self.mnemonic.name());
        s.append(self.mode.size_spec(self.size));
        let operand = match label {
            Some(l) => self.mode.format_item(l),
            None => {
                let mut lit = String::from_str("$");
                proof {
                    reveal_strlit("$");
                }
                let digits = hex_upper(self.argument, 2 * self.size);
                lit.append(digits.as_str());
                assert(lit@ =~= self.literal());
                self.mode.format_item(lit.as_str())
            },
        };
        s.append(operand.as_str());
        s
    }

    /// Whether the instruction is one that code rarely holds.
    pub open spec fn spec_unlikely(&self) -> bool {
        matches!(self.mnemonic, BRK | COP | BRL)
    }

    #[verifier::when_used_as_spec(spec_unlikely)]
    pub fn unlikely(&self) -> (b: bool)
        ensures
            b == self.spec_unlikely(),
    {
        matches!(self.mnemonic, BRK | COP | BRL)
    }

    /// Whether control never falls through to the next instruction.
    pub open spec fn spec_divergent(&self) -> bool {
        matches!(self.mnemonic, BRK | COP | JMP | JML | RTS | RTL | RTI | BRA | BRL)
    }

    #[verifier::when_used_as_spec(spec_divergent)]
    pub fn divergent(&self) -> (b: bool)
        ensures
            b == self.spec_divergent(),
    {
        matches!(self.mnemonic, BRK | COP | JMP | JML | RTS | RTL | RTI | BRA | BRL)
    }

    /// Whether the instruction is a conditional branch.
    pub open spec fn spec_branch(&self) -> bool {
        matches!(self.mnemonic, BCC | BCS | BEQ | BNE | BMI | BPL | BVC | BVS)
    }

    #[verifier::when_used_as_spec(spec_branch)]
    pub fn branch(&self) -> (b: bool)
        ensures
            b == self.spec_branch(),
    {
        matches!(self.mnemonic, BCC | BCS | BEQ | BNE | BMI | BPL | BVC | BVS)
    }

    /// A flag's value after the instruction: `REP` clears and `SEP` sets the
    /// flag whose bit `mask` the operand holds; all else leaves it alone.
    pub open spec fn flag_after(&self, mask: u32, flag: bool) -> bool {
        match self.mnemonic {
            REP => flag && self.argument & mask == 0,
            SEP => flag || self.argument & mask != 0,
            _ => flag,
        }
    }

    /// The flags after the instruction. Bit 0x20 of the operand stands for
    /// M, bit 0x10 for X.
    pub open spec fn flags_after(&self, cpu: CpuState) -> CpuState {
        CpuState { m: self.flag_after(0x20, cpu.m), x: self.flag_after(0x10, cpu.x) }
    }

    pub fn apply_flags(&self, cpu: &mut CpuState)
        ensures
            *final(cpu) == self.flags_after(*old(cpu)),
    {
        match self.mnemonic {
            REP => {
                cpu.m = cpu.m && self.argument & 0x20 == 0;
                cpu.x = cpu.x && self.argument & 0x10 == 0;
            },
            SEP => {
                cpu.m = cpu.m || self.argument & 0x20 != 0;
                cpu.x = cpu.x || self.argument & 0x10 != 0;
            },
            _ => {},
        }
    }

    /// The value that the instruction was last seen to force on a flag:
    /// `false` for `REP` and `true` for `SEP` with the flag's bit set, and
    /// `seen` unchanged otherwise.
    pub open spec fn seen_after(&self, mask: u32, seen: Option<bool>) -> Option<bool> {
        match self.mnemonic {
            REP => if self.argument & mask != 0 {
                Some(false)
            } else {
                seen
            },
            SEP => if self.argument & mask != 0 {
                Some(true)
            } else {
                seen
            },
            _ => seen,
        }
    }

    pub fn apply_flags_opt(&self, m: &mut Option<bool>, x: &mut Option<bool>)
        ensures
            *final(m) == self.seen_after(0x20, *old(m)),
            *final(x) == self.seen_after(0x10, *old(x)),
    {
        match self.mnemonic {
            REP => {
                if self.argument & 0x20 != 0 {
                    *m = Some(false);
                }
                if self.argument & 0x10 != 0 {
                    *x = Some(false);
                }
            },
            SEP => {
                if self.argument & 0x20 != 0 {
                    *m = Some(true);
                }
                if self.argument & 0x10 != 0 {
                    *x = Some(true);
                }
            },
            _ => {},
        }
    }

    /// The address that the operand names, for labelling data. Block moves
    /// and implied mode name none. Direct-page, stack and long operands
    /// stand for themselves, absolute ones lie in the data bank `dbr`, and
    /// relative ones are resolved against `addr`.
    pub open spec fn spec_label_target(&self, addr: u32, dbr: u32) -> Option<u32> {
        if self.mnemonic == MVN || self.mnemonic == MVP {
            None
        } else {
            match self.mode {
                Imp => None,
                Sr | Bm | Dp | Dpx | Dpy | Idp | Idx | Idy | Idl | Ily | Isy | Abl | Alx => Some(
                    self.argument,
                ),
                Abs | Abx | Aby | Ind | Iax | Ial | Imm => Some(self.argument | (dbr << 16)),
                Rel => Some(relative_target(addr, 2, self.argument, 8)),
                Rll => Some(relative_target(addr, 3, self.argument, 16)),
            }
        }
    }

    #[verifier::when_used_as_spec(spec_label_target)]
    pub fn label_target(&self, addr: u32, dbr: u32) -> (t: Option<u32>)
        ensures
            t == self.spec_label_target(addr, dbr),
    {
        if self.mnemonic == MVN || self.mnemonic == MVP {
            return None;
        }
        match self.mode {
            Imp => None,
            Sr | Bm | Dp | Dpx | Dpy | Idp | Idx | Idy | Idl | Ily | Isy | Abl | Alx => Some(
                self.argument,
            ),
            Abs | Abx | Aby | Ind | Iax | Ial | Imm => Some(self.argument | (dbr << 16)),
            Rel => Some(branch_target(addr, 2, self.argument, false)),
            Rll => Some(branch_target(addr, 3, self.argument, true)),
        }
    }

    /// Where a jump or branch at `addr` goes, if that can be told from the
    /// instruction alone.
    pub open spec fn spec_jump_addr(&self, addr: u32) -> Option<u32> {
        match self.mnemonic {
            JMP => if self.mode == Abs {
                Some(in_bank_of(addr, self.argument))
            } else {
                None
            },
            JML => if self.mode == Abl {
                Some(self.argument)
            } else {
                None
            },
            BRA | BCC | BCS | BEQ | BMI | BNE | BPL | BVC | BVS => Some(
                relative_target(addr, 2, self.argument, 8),
            ),
            BRL => Some(relative_target(addr, 3, self.argument, 16)),
            _ => None,
        }
    }

    #[verifier::when_used_as_spec(spec_jump_addr)]
    pub fn jump_addr(&self, addr: u32) -> (t: Option<u32>)
        ensures
            t == self.spec_jump_addr(addr),
    {
        match self.mnemonic {
            JMP => if self.mode == Abs {
                Some((addr & 0xFF_0000) | self.argument)
            } else {
                None
            },
            JML => if self.mode == Abl {
                Some(self.argument)
            } else {
                None
            },
            BRA | BCC | BCS | BEQ | BMI | BNE | BPL | BVC | BVS => Some(
                branch_target(addr, 2, self.argument, false),
            ),
            BRL => Some(branch_target(addr, 3, self.argument, true)),
            _ => None,
        }
    }

    /// The subroutine that a call at `addr` enters, if the instruction
    /// names it.
    pub open spec fn spec_jsr_addr(&self, addr: u32) -> Option<u32> {
        match self.mnemonic {
            JSR => if self.mode == Abs {
                Some(in_bank_of(addr, self.argument))
            } else {
                None
            },
            JSL => if self.mode == Abl {
                Some(self.argument)
            } else {
                None
            },
            _ => None,
        }
    }

    #[verifier::when_used_as_spec(spec_jsr_addr)]
    pub fn jsr_addr(&self, addr: u32) -> (t: Option<u32>)
        ensures
            t == self.spec_jsr_addr(addr),
    {
        match self.mnemonic {
            JSR => if self.mode == Abs {
                Some((addr & 0xFF_0000) | self.argument)
            } else {
                None
            },
            JSL => if self.mode == Abl {
                Some(self.argument)
            } else {
                None
            },
            _ => None,
        }
    }

    /// The code address that the operand names: a jump's or a call's.
    pub open spec fn spec_jump_target(&self, addr: u32) -> Option<u32> {
        match self.spec_jump_addr(addr) {
            Some(t) => Some(t),
            None => self.spec_jsr_addr(addr),
        }
    }

    #[verifier::when_used_as_spec(spec_jump_target)]
    pub fn jump_target(&self, addr: u32) -> (t: Option<u32>)
        ensures
            t == self.spec_jump_target(addr),
    {
        match self.jump_addr(addr) {
            Some(t) => Some(t),
            None => self.jsr_addr(addr),
        }
    }

    /// Number of operand bytes.
    pub fn size(&self) -> (n: usize)
        ensures
            n == self.size,
    {
        self.size
    }
}

/// A short branch at `pc` goes to `pc + 2` plus its signed displacement,
/// modulo 2^24. Where that sum stays inside the bank of `pc`, so does the
/// target.
pub proof fn lemma_branch_target(instr: Instruction, pc: u32)
    requires
        instr.spec_branch() || instr.mnemonic == BRA,
        pc <= 0xFF_FFFF,
    ensures
        instr.spec_jump_addr(pc) == Some(
            ((pc + 2 + sign_extend(instr.argument, 8)) % 0x100_0000) as u32,
        ),
        -128 <= sign_extend(instr.argument, 8) <= 127,
        0 <= pc % 0x1_0000 + 2 + sign_extend(instr.argument, 8) < 0x1_0000
            ==> instr.spec_jump_addr(pc)->0 / 0x1_0000 == pc / 0x1_0000,
{
}

} // verus!
