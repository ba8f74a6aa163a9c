//! What a listing holds: label names, and the rows of a bank.

use crate::cpu::{Instruction, Mode};
use crate::dis::{Analysis, Line, LineKind, LineView};
use crate::machine::{lemma_entry_in_bank, lemma_entry_in_rom};
use crate::rom::{byte_at, rom_offset};
use crate::text::{hex, lemma_hex_len, lemma_hex_widths};
use vstd::prelude::*;

verus! {

/// The name of the code address `addr`: the user's name where there is
/// one, else `sub_`, `ret_` or `loc_` and the address in six hexadecimal
/// digits, for a subroutine, a return instruction, or any other place.
pub open spec fn code_label(t: Analysis, addr: u32) -> Seq<char> {
    if t.label_names.contains_key(addr) {
        t.label_names[addr]
    } else if t.subroutines.contains_key(addr) {
        "sub_"@ + hex(addr as nat, 6)
    } else if t.returns.contains(addr) {
        "ret_"@ + hex(addr as nat, 6)
    } else {
        "loc_"@ + hex(addr as nat, 6)
    }
}

/// The address under which a data address is named. Low RAM, which banks
/// below 0x40 mirror, is named in bank 0x7E; the registers, which every
/// bank mirrors at offsets 0x2000 to 0x7FFF, are named in bank 0.
pub open spec fn canonical(addr: u32) -> u32 {
    let offset = addr % 0x1_0000;
    if offset < 0x2000 && addr / 0x1_0000 < 0x40 {
        (0x7E_0000 + offset) as u32
    } else if 0x2000 <= offset < 0x8000 {
        offset as u32
    } else {
        addr
    }
}

/// The name of the data address `addr`: the user's name for its canonical
/// address where there is one, else a name by the region it lies in.
pub open spec fn data_label(t: Analysis, addr: u32) -> Seq<char> {
    let a = canonical(addr);
    let offset = a % 0x1_0000;
    if t.label_names.contains_key(a) {
        t.label_names[a]
    } else if a >= 0x7E_2000 {
        "wram_"@ + hex(a as nat, 6)
    } else if a >= 0x7E_0000 {
        "wram_"@ + hex(offset as nat, 4)
    } else if a >= 0x70_0000 {
        "sram_"@ + hex(a as nat, 6)
    } else if 0x2000 <= offset < 0x8000 {
        "reg_"@ + hex(offset as nat, 4)
    } else {
        "data_"@ + hex(a as nat, 6)
    }
}

/// A name is never empty, unless the user has given an empty one.
pub proof fn lemma_labels_nonempty(t: Analysis, addr: u32)
    ensures
        !t.label_names.contains_key(addr) ==> code_label(t, addr).len() >= 10,
        !t.label_names.contains_key(canonical(addr)) ==> data_label(t, addr).len() >= 8,
        addr <= 0xFF_FFFF && !t.label_names.contains_key(addr) ==> code_label(t, addr).len()
            == 10,
{
    reveal_strlit("sub_");
    reveal_strlit("ret_");
    reveal_strlit("loc_");
    reveal_strlit("wram_");
    reveal_strlit("sram_");
    reveal_strlit("reg_");
    reveal_strlit("data_");
    let a = canonical(addr);
    lemma_hex_len(addr as nat, 6);
    lemma_hex_len(a as nat, 6);
    lemma_hex_len((a % 0x1_0000) as nat, 4);
    lemma_hex_widths(addr as nat);
}

/// The label that stands for the operand of `instr` at `pc`: a code label
/// for the target of a jump or call, a data label for any other address
/// that the operand names, and none for an immediate operand or one that
/// names no address.
pub open spec fn operand_label(t: Analysis, instr: Instruction, pc: u32) -> Option<Seq<char>> {
    match instr.spec_jump_target(pc) {
        Some(target) => Some(code_label(t, target)),
        None => match instr.spec_label_target(pc, pc >> 16) {
            Some(target) => if instr.mode == Mode::Imm {
                None
            } else {
                Some(data_label(t, target))
            },
            None => None,
        },
    }
}

/// Whether a label row stands before the row of `pc`.
pub open spec fn is_labeled(t: Analysis, pc: u32) -> bool {
    t.labels.contains(pc) || t.label_names.contains_key(pc)
}

/// The label row of `pc`: its code label and a colon.
pub open spec fn label_line(t: Analysis, pc: u32) -> LineView {
    LineView { pc, len: 0, text: code_label(t, pc) + ":"@, kind: LineKind::Label }
}

/// The row of the instruction at `pc`: four spaces and the instruction's
/// text. Its length is the number of bytes that the instruction takes:
/// the opcode and the operand.
pub open spec fn code_line(t: Analysis, pc: u32) -> LineView {
    let instr = t.entries[pc].instr;
    LineView {
        pc,
        len: (instr.size + 1) as usize,
        text: "    "@ + instr.text(operand_label(t, instr, pc)),
        kind: LineKind::Code,
    }
}

/// The empty row behind an instruction that never falls through. It
/// carries the address behind the instruction.
pub open spec fn spacing_line(t: Analysis, pc: u32) -> LineView {
    LineView {
        pc: (pc + t.entries[pc].instr.size + 1) as u32,
        len: 0,
        text: Seq::empty(),
        kind: LineKind::Spacing,
    }
}

/// The row of a byte that is no part of an instruction.
pub open spec fn data_line(t: Analysis, pc: u32) -> LineView {
    LineView {
        pc,
        len: 1,
        text: "    db $"@ + hex(byte_at(t.rom, rom_offset(pc)) as nat, 2),
        kind: LineKind::Data,
    }
}

/// The rows for the address `pc`: its label row where it is labelled, and
/// then the instruction there, with an empty row behind it where it never
/// falls through, or else one byte of data.
pub open spec fn rows_at(t: Analysis, pc: u32) -> Seq<LineView> {
    let label = if is_labeled(t, pc) {
        seq![label_line(t, pc)]
    } else {
        Seq::empty()
    };
    if t.entries.contains_key(pc) {
        if t.entries[pc].instr.spec_divergent() {
            label + seq![code_line(t, pc), spacing_line(t, pc)]
        } else {
            label + seq![code_line(t, pc)]
        }
    } else {
        label + seq![data_line(t, pc)]
    }
}

/// The number of bytes that the rows for `pc` cover.
pub open spec fn stride(t: Analysis, pc: u32) -> nat {
    if t.entries.contains_key(pc) {
        (t.entries[pc].instr.size + 1) as nat
    } else {
        1
    }
}

/// The address at `offset` in `bank`.
pub open spec fn bank_addr(bank: u32, offset: nat) -> u32 {
    (bank * 0x1_0000 + offset) as u32
}

/// The rows of `bank` from `offset` to the end of the bank.
pub open spec fn rows_from(t: Analysis, bank: u32, offset: nat) -> Seq<LineView>
    decreases
            if offset >= 0x1_0000 {
                0
            } else {
                0x1_0000 - offset
            },
{
    if offset >= 0x1_0000 {
        Seq::empty()
    } else {
        let pc = bank_addr(bank, offset);
        rows_at(t, pc) + rows_from(t, bank, offset + stride(t, pc))
    }
}

/// The listing of `bank`: the rows of its upper half, where ROM lies.
pub open spec fn listing(t: Analysis, bank: u32) -> Seq<LineView> {
    rows_from(t, bank, 0x8000)
}

/// The rows that a vector of lines holds.
pub open spec fn line_views(lines: Seq<Line>) -> Seq<LineView> {
    lines.map_values(|l: Line| l@)
}

/// Whether a listing can be rendered from the tables: no entry's
/// instruction has more than three operand bytes.
pub open spec fn printable(t: Analysis) -> bool {
    forall|a: u32| #[trigger] t.entries.contains_key(a) ==> t.entries[a].instr.size <= 3
}

/// A listing can be rendered from well-formed tables.
pub proof fn lemma_wf_printable(t: Analysis)
    requires
        t.wf(),
    ensures
        printable(t),
{
    assert forall|a: u32| #[trigger] t.entries.contains_key(a) implies t.entries[a].instr.size
        <= 3 by {
        lemma_entry_in_rom(t, a);
    }
}

/// Whether a row shows code or data.
pub open spec fn is_solid(row: LineView) -> bool {
    row.kind == LineKind::Code || row.kind == LineKind::Data
}

/// What holds of row `k` of `rows` by its kind. A label row is the label
/// row of a labelled address and stands right before the code or data row
/// of that address. A code row is the row of the entry at its address, a
/// data row that of an address without entry, and where the address is
/// labelled its label row stands right before. An empty row follows the
/// code row of an instruction that never falls through.
pub open spec fn row_shape(t: Analysis, rows: Seq<LineView>, k: int) -> bool {
    let row = rows[k];
    match row.kind {
        LineKind::Label => {
            &&& row == label_line(t, row.pc)
            &&& is_labeled(t, row.pc)
            &&& k + 1 < rows.len()
            &&& is_solid(rows[k + 1])
            &&& rows[k + 1].pc == row.pc
        },
        LineKind::Code => {
            &&& t.entries.contains_key(row.pc)
            &&& row == code_line(t, row.pc)
            &&& is_labeled(t, row.pc) ==> k > 0 && rows[k - 1] == label_line(t, row.pc)
        },
        LineKind::Data => {
            &&& !t.entries.contains_key(row.pc)
            &&& row == data_line(t, row.pc)
            &&& is_labeled(t, row.pc) ==> k > 0 && rows[k - 1] == label_line(t, row.pc)
        },
        LineKind::Spacing => {
            &&& k > 0
            &&& rows[k - 1].kind == LineKind::Code
            &&& t.entries.contains_key(rows[k - 1].pc)
            &&& t.entries[rows[k - 1].pc].instr.spec_divergent()
            &&& row == spacing_line(t, rows[k - 1].pc)
        },
    }
}

/// The rows for one address: between one and three, all at that address
/// but for the empty row, which carries the next.
proof fn lemma_rows_at(t: Analysis, bank: u32, offset: nat)
    requires
        printable(t),
        bank <= 0xFF,
        offset < 0x1_0000,
    ensures
        1 <= rows_at(t, bank_addr(bank, offset)).len() <= 3,
        1 <= stride(t, bank_addr(bank, offset)) <= 4,
        bank_addr(bank, offset) == bank * 0x1_0000 + offset,
        forall|k: int|
            0 <= k < rows_at(t, bank_addr(bank, offset)).len() ==> {
                let row = #[trigger] rows_at(t, bank_addr(bank, offset))[k];
                if row.kind == LineKind::Spacing {
                    row.pc == bank * 0x1_0000 + offset + stride(t, bank_addr(bank, offset))
                } else {
                    row.pc == bank * 0x1_0000 + offset
                }
            },
        forall|k: int|
            0 <= k < rows_at(t, bank_addr(bank, offset)).len() ==> #[trigger] row_shape(
                t,
                rows_at(t, bank_addr(bank, offset)),
                k,
            ),
        rows_at(t, bank_addr(bank, offset))[0].kind != LineKind::Spacing,
        is_solid(rows_at(t, bank_addr(bank, offset))[0]) ==> !is_labeled(
            t,
            bank_addr(bank, offset),
        ),
        rows_at(t, bank_addr(bank, offset)).last().kind != LineKind::Label,
{
}

/// No row from `offset` on lies below `offset`.
proof fn lemma_rows_lower(t: Analysis, bank: u32, offset: nat, k: int)
    requires
        printable(t),
        bank <= 0xFF,
        0 <= k < rows_from(t, bank, offset).len(),
    ensures
        rows_from(t, bank, offset)[k].pc >= bank * 0x1_0000 + offset,
        offset < 0x1_0000,
    decreases
            if offset >= 0x1_0000 {
                0
            } else {
                0x1_0000 - offset
            },
{
    if offset < 0x1_0000 {
        let pc = bank_addr(bank, offset);
        let head = rows_at(t, pc);
        let next = offset + stride(t, pc);
        lemma_rows_at(t, bank, offset);
        if k < head.len() {
            assert(rows_from(t, bank, offset)[k] == head[k]);
        } else {
            lemma_rows_lower(t, bank, next, k - head.len());
        }
    }
}

/// The rows from `offset` on are in the order of their addresses, and the
/// code and data rows among them in strict order.
proof fn lemma_rows_ordered(t: Analysis, bank: u32, offset: nat, i: int, j: int)
    requires
        printable(t),
        bank <= 0xFF,
        0 <= i < j < rows_from(t, bank, offset).len(),
    ensures
        rows_from(t, bank, offset)[i].pc <= rows_from(t, bank, offset)[j].pc,
        is_solid(rows_from(t, bank, offset)[i]) && is_solid(rows_from(t, bank, offset)[j])
            ==> rows_from(t, bank, offset)[i].pc < rows_from(t, bank, offset)[j].pc,
    decreases
            if offset >= 0x1_0000 {
                0
            } else {
                0x1_0000 - offset
            },
{
    if offset < 0x1_0000 {
        let pc = bank_addr(bank, offset);
        let head = rows_at(t, pc);
        let next = offset + stride(t, pc);
        let rows = rows_from(t, bank, offset);
        lemma_rows_at(t, bank, offset);
        if j < head.len() {
            assert(rows[i] == head[i]);
            assert(rows[j] == head[j]);
            assert(row_shape(t, head, i));
            assert(row_shape(t, head, j));
        } else if i < head.len() {
            assert(rows[i] == head[i]);
            lemma_rows_lower(t, bank, next, j - head.len());
        } else {
            lemma_rows_ordered(t, bank, next, i - head.len(), j - head.len());
        }
    }
}

/// The first row from `offset` on is no empty row, and it is a code or
/// data row only where its address is not labelled.
proof fn lemma_rows_first(t: Analysis, bank: u32, offset: nat)
    requires
        printable(t),
        bank <= 0xFF,
        rows_from(t, bank, offset).len() > 0,
    ensures
        rows_from(t, bank, offset)[0].kind != LineKind::Spacing,
        is_solid(rows_from(t, bank, offset)[0]) ==> !is_labeled(
            t,
            rows_from(t, bank, offset)[0].pc,
        ),
{
    if offset < 0x1_0000 {
        lemma_rows_at(t, bank, offset);
        let head = rows_at(t, bank_addr(bank, offset));
        assert(rows_from(t, bank, offset)[0] == head[0]);
    }
}

/// Each row from `offset` on has the shape of its kind.
proof fn lemma_rows_shape(t: Analysis, bank: u32, offset: nat, k: int)
    requires
        printable(t),
        bank <= 0xFF,
        0 <= k < rows_from(t, bank, offset).len(),
    ensures
        row_shape(t, rows_from(t, bank, offset), k),
    decreases
            if offset >= 0x1_0000 {
                0
            } else {
                0x1_0000 - offset
            },
{
    if offset < 0x1_0000 {
        let pc = bank_addr(bank, offset);
        let head = rows_at(t, pc);
        let next = offset + stride(t, pc);
        let tail = rows_from(t, bank, next);
        let rows = rows_from(t, bank, offset);
        lemma_rows_at(t, bank, offset);
        if k < head.len() {
            assert(row_shape(t, head, k));
            assert(rows[k] == head[k]);
            if k + 1 < head.len() {
                assert(rows[k + 1] == head[k + 1]);
            }
            if k > 0 {
                assert(rows[k - 1] == head[k - 1]);
            }
        } else {
            let kt = k - head.len();
            lemma_rows_shape(t, bank, next, kt);
            assert(rows[k] == tail[kt]);
            if kt + 1 < tail.len() {
                assert(rows[k + 1] == tail[kt + 1]);
            }
            if kt > 0 {
                assert(rows[k - 1] == tail[kt - 1]);
            } else {
                lemma_rows_first(t, bank, next);
            }
        }
    }
}

/// No row behind a code or data row lies before the end of the bytes that
/// the row stands for.
proof fn lemma_rows_behind(t: Analysis, bank: u32, offset: nat, k: int, j: int)
    requires
        printable(t),
        bank <= 0xFF,
        0 <= k < j < rows_from(t, bank, offset).len(),
        is_solid(rows_from(t, bank, offset)[k]),
    ensures
        rows_from(t, bank, offset)[j].pc >= rows_from(t, bank, offset)[k].pc + rows_from(
            t,
            bank,
            offset,
        )[k].len,
    decreases
            if offset >= 0x1_0000 {
                0
            } else {
                0x1_0000 - offset
            },
{
    if offset < 0x1_0000 {
        let pc = bank_addr(bank, offset);
        let head = rows_at(t, pc);
        let next = offset + stride(t, pc);
        let rows = rows_from(t, bank, offset);
        lemma_rows_at(t, bank, offset);
        if k < head.len() {
            assert(rows[k] == head[k]);
            assert(row_shape(t, head, k));
            if j < head.len() {
                assert(rows[j] == head[j]);
                assert(row_shape(t, head, j));
            } else {
                lemma_rows_lower(t, bank, next, j - head.len());
            }
        } else {
            lemma_rows_behind(t, bank, next, k - head.len(), j - head.len());
        }
    }
}

/// Behind a code or data row comes, within three rows, the code or data
/// row of the byte that follows it, unless the bank ends there.
proof fn lemma_rows_next(t: Analysis, bank: u32, offset: nat, k: int)
    requires
        printable(t),
        bank <= 0xFF,
        0 <= k < rows_from(t, bank, offset).len(),
        is_solid(rows_from(t, bank, offset)[k]),
    ensures
        rows_from(t, bank, offset)[k].pc + rows_from(t, bank, offset)[k].len >= bank * 0x1_0000
            + 0x1_0000 || exists|j: int|
            k < j <= k + 3 && j < rows_from(t, bank, offset).len() && is_solid(
                #[trigger] rows_from(t, bank, offset)[j],
            ) && rows_from(t, bank, offset)[j].pc == rows_from(t, bank, offset)[k].pc
                + rows_from(t, bank, offset)[k].len,
    decreases
            if offset >= 0x1_0000 {
                0
            } else {
                0x1_0000 - offset
            },
{
    if offset < 0x1_0000 {
        let pc = bank_addr(bank, offset);
        let head = rows_at(t, pc);
        let next = offset + stride(t, pc);
        let tail = rows_from(t, bank, next);
        let rows = rows_from(t, bank, offset);
        lemma_rows_at(t, bank, offset);
        if k < head.len() {
            assert(rows[k] == head[k]);
            assert(row_shape(t, head, k));
            if next < 0x1_0000 {
                lemma_rows_at(t, bank, next);
                let first = rows_at(t, bank_addr(bank, next));
                let at = if is_solid(first[0]) {
                    0int
                } else {
                    1int
                };
                assert(row_shape(t, first, 0));
                assert(row_shape(t, first, at));
                assert(tail[at] == first[at]);
                let j = head.len() + at;
                assert(rows[j] == tail[at]);
                assert(is_solid(rows[j]));
            }
        } else {
            let kt = k - head.len();
            lemma_rows_next(t, bank, next, kt);
            assert(rows[k] == tail[kt]);
            if !(rows[k].pc + rows[k].len >= bank * 0x1_0000 + 0x1_0000) {
                let jt = choose|jt: int|
                    kt < jt <= kt + 3 && jt < tail.len() && is_solid(#[trigger] tail[jt])
                        && tail[jt].pc == tail[kt].pc + tail[kt].len;
                assert(rows[jt + head.len()] == tail[jt]);
            }
        }
    }
}

/// The code and data rows of a bank cover its upper half without gap or
/// overlap. The first of them, which is the first or second row, stands at
/// offset 0x8000. Each is followed, within three rows, by the one for the
/// byte behind it, and no row behind it lies before that byte. Where the
/// tables are well-formed the last one ends with the bank.
pub proof fn lemma_listing_covers(t: Analysis, bank: u32, k: int)
    requires
        printable(t),
        bank <= 0xFF,
        0 <= k < listing(t, bank).len(),
        is_solid(listing(t, bank)[k]),
    ensures
        listing(t, bank).len() >= 2,
        is_solid(listing(t, bank)[0]) || is_solid(listing(t, bank)[1]),
        is_solid(listing(t, bank)[0]) ==> listing(t, bank)[0].pc == bank * 0x1_0000 + 0x8000,
        !is_solid(listing(t, bank)[0]) ==> listing(t, bank)[1].pc == bank * 0x1_0000 + 0x8000,
        forall|j: int|
            k < j < listing(t, bank).len() ==> (#[trigger] listing(t, bank)[j]).pc >= listing(
                t,
                bank,
            )[k].pc + listing(t, bank)[k].len,
        listing(t, bank)[k].pc + listing(t, bank)[k].len >= bank * 0x1_0000 + 0x1_0000
            || exists|j: int|
            k < j <= k + 3 && j < listing(t, bank).len() && is_solid(
                #[trigger] listing(t, bank)[j],
            ) && listing(t, bank)[j].pc == listing(t, bank)[k].pc + listing(t, bank)[k].len,
        t.wf() ==> listing(t, bank)[k].pc + listing(t, bank)[k].len <= bank * 0x1_0000
            + 0x1_0000,
{
    let rows = listing(t, bank);
    lemma_rows_at(t, bank, 0x8000);
    let head = rows_at(t, bank_addr(bank, 0x8000));
    let next = 0x8000 + stride(t, bank_addr(bank, 0x8000));
    assert(rows == head + rows_from(t, bank, next));
    assert(row_shape(t, head, 0));
    assert(rows[0] == head[0]);
    if !is_solid(head[0]) {
        assert(row_shape(t, head, 1));
        assert(rows[1] == head[1]);
    } else {
        lemma_rows_next(t, bank, 0x8000, 0);
    }
    assert forall|j: int| k < j < rows.len() implies (#[trigger] rows[j]).pc >= rows[k].pc
        + rows[k].len by {
        lemma_rows_behind(t, bank, 0x8000, k, j);
    }
    lemma_rows_next(t, bank, 0x8000, k);
    if t.wf() {
        lemma_rows_lower(t, bank, 0x8000, k);
        lemma_rows_shape(t, bank, 0x8000, k);
        lemma_rows_top(t, bank, 0x8000, k);
        if rows[k].kind == LineKind::Code {
            lemma_entry_in_bank(t, rows[k].pc);
        }
    }
}

/// Every code or data row stands inside the bank.
proof fn lemma_rows_top(t: Analysis, bank: u32, offset: nat, k: int)
    requires
        printable(t),
        bank <= 0xFF,
        0 <= k < rows_from(t, bank, offset).len(),
        is_solid(rows_from(t, bank, offset)[k]),
    ensures
        rows_from(t, bank, offset)[k].pc < bank * 0x1_0000 + 0x1_0000,
        rows_from(t, bank, offset)[k].pc / 0x1_0000 == bank,
    decreases
            if offset >= 0x1_0000 {
                0
            } else {
                0x1_0000 - offset
            },
{
    if offset < 0x1_0000 {
        let pc = bank_addr(bank, offset);
        let head = rows_at(t, pc);
        let next = offset + stride(t, pc);
        lemma_rows_at(t, bank, offset);
        if k < head.len() {
            assert(rows_from(t, bank, offset)[k] == head[k]);
        } else {
            lemma_rows_top(t, bank, next, k - head.len());
            assert(rows_from(t, bank, offset)[k] == rows_from(t, bank, next)[k - head.len()]);
        }
    }
}

/// The rows of a bank are in the order of their addresses, and the
/// addresses of the code and data rows strictly increase.
pub proof fn lemma_listing_ordered(t: Analysis, bank: u32, i: int, j: int)
    requires
        printable(t),
        bank <= 0xFF,
        0 <= i < j < listing(t, bank).len(),
    ensures
        listing(t, bank)[i].pc <= listing(t, bank)[j].pc,
        is_solid(listing(t, bank)[i]) && is_solid(listing(t, bank)[j]) ==> listing(t, bank)[i].pc
            < listing(t, bank)[j].pc,
{
    lemma_rows_ordered(t, bank, 0x8000, i, j);
}

/// A code row shows the entry at its address: four spaces, then the
/// entry's mnemonic in lower case, then the rest of the instruction.
pub proof fn lemma_code_row_text(t: Analysis, bank: u32, k: int)
    requires
        printable(t),
        bank <= 0xFF,
        0 <= k < listing(t, bank).len(),
        listing(t, bank)[k].kind == LineKind::Code,
    ensures
        t.entries.contains_key(listing(t, bank)[k].pc),
        listing(t, bank)[k] == code_line(t, listing(t, bank)[k].pc),
        listing(t, bank)[k].text.len() >= 4 + t.entries[listing(
            t,
            bank,
        )[k].pc].instr.mnemonic.spec_name().len(),
        listing(t, bank)[k].text.subrange(0, 4) == seq![' ', ' ', ' ', ' '],
        listing(t, bank)[k].text.subrange(
            4,
            4 + t.entries[listing(t, bank)[k].pc].instr.mnemonic.spec_name().len() as int,
        ) == t.entries[listing(t, bank)[k].pc].instr.mnemonic.spec_name(),
{
    lemma_rows_shape(t, bank, 0x8000, k);
    let row = listing(t, bank)[k];
    let instr = t.entries[row.pc].instr;
    let name = instr.mnemonic.spec_name();
    reveal_strlit("    ");
    assert("    "@ =~= seq![' ', ' ', ' ', ' ']);
    assert(row.text.subrange(0, 4) =~= seq![' ', ' ', ' ', ' ']);
    assert(row.text.subrange(4, 4 + name.len() as int) =~= name);
}

/// A code row carries the encoded length of its instruction, between one
/// and four bytes; a data row carries one byte; label rows and empty rows
/// carry none.
pub proof fn lemma_row_lengths(t: Analysis, bank: u32, k: int)
    requires
        printable(t),
        bank <= 0xFF,
        0 <= k < listing(t, bank).len(),
    ensures
        listing(t, bank)[k].kind == LineKind::Code ==> t.entries.contains_key(
            listing(t, bank)[k].pc,
        ) && listing(t, bank)[k].len == t.entries[listing(t, bank)[k].pc].instr.size + 1 && 1
            <= listing(t, bank)[k].len <= 4,
        listing(t, bank)[k].kind == LineKind::Data ==> listing(t, bank)[k].len == 1,
        listing(t, bank)[k].kind == LineKind::Label ==> listing(t, bank)[k].len == 0,
        listing(t, bank)[k].kind == LineKind::Spacing ==> listing(t, bank)[k].len == 0,
{
    lemma_rows_shape(t, bank, 0x8000, k);
}

/// The label row of a labelled address stands right before the code or
/// data row of that address, and a label row stands nowhere else.
pub proof fn lemma_label_rows(t: Analysis, bank: u32, k: int)
    requires
        printable(t),
        bank <= 0xFF,
        0 <= k < listing(t, bank).len(),
    ensures
        is_solid(listing(t, bank)[k]) && is_labeled(t, listing(t, bank)[k].pc) ==> k > 0
            && listing(t, bank)[k - 1] == label_line(t, listing(t, bank)[k].pc),
        listing(t, bank)[k].kind == LineKind::Label ==> is_labeled(t, listing(t, bank)[k].pc)
            && listing(t, bank)[k] == label_line(t, listing(t, bank)[k].pc) && k + 1 < listing(
            t,
            bank,
        ).len() && is_solid(listing(t, bank)[k + 1]) && listing(t, bank)[k + 1].pc == listing(
            t,
            bank,
        )[k].pc,
{
    lemma_rows_shape(t, bank, 0x8000, k);
}

} // verus!
