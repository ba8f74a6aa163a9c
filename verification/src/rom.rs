//! The cartridge image and its address map.

use vstd::prelude::*;
use vstd::slice::slice_subrange;

verus! {

/// Size of one ROM page: the upper half of a bank.
pub const PAGE_SIZE: usize = 0x8000;

/// How logical addresses map onto the cartridge.
#[derive(Clone, Copy, Debug, PartialEq, Eq, Structural)]
pub enum Mapper {
    LoRom,
    HiRom,
    Sa1,
}

/// Cartridge offset of a 24-bit logical address under the LoROM map.
///
/// The bank is taken modulo 0x40, banks 0x30..0x3F mirror 0x20..0x2F, and
/// each bank contributes one page of 0x8000 bytes.
pub open spec fn rom_offset(addr: u32) -> nat {
    let bank = (addr as nat / 0x10000) % 0x40;
    let page = if bank >= 0x30 {
        (bank - 0x10) as nat
    } else {
        bank
    };
    page * 0x8000 + addr as nat % 0x8000
}

/// The byte at a cartridge offset, or zero past the end of the image.
pub open spec fn byte_at(cart: Seq<u8>, off: nat) -> u8 {
    if off < cart.len() {
        cart[off as int]
    } else {
        0
    }
}

/// Little-endian value of the `n` bytes starting at cartridge offset `off`.
pub open spec fn le_value(cart: Seq<u8>, off: nat, n: nat) -> nat
    decreases n,
{
    if n == 0 {
        0
    } else {
        byte_at(cart, off) as nat + 256 * le_value(cart, off + 1, (n - 1) as nat)
    }
}

/// End of the page that holds cartridge offset `off`, cut at the image's end.
pub open spec fn page_end(cart: Seq<u8>, off: nat) -> nat {
    let end = (off / 0x8000 + 1) * 0x8000;
    if end <= cart.len() {
        end
    } else {
        cart.len()
    }
}

/// The bytes from `addr` to the end of its page; empty where the image has
/// no byte at `addr`.
pub open spec fn page_rest(cart: Seq<u8>, addr: u32) -> Seq<u8> {
    let off = rom_offset(addr);
    if off < cart.len() {
        cart.subrange(off as int, page_end(cart, off) as int)
    } else {
        Seq::empty()
    }
}

/// Whether `addr` names a byte of ROM: a 24-bit address in the upper half of
/// a bank below 0x40 (or its mirror above 0x80) whose cartridge offset lies
/// inside the image.
pub open spec fn is_rom_addr(cart: Seq<u8>, addr: u32) -> bool {
    &&& addr <= 0xFF_FFFF
    &&& addr % 0x10000 >= 0x8000
    &&& (addr / 0x10000) % 0x80 < 0x40
    &&& rom_offset(addr) < cart.len()
}

/// A cartridge image, addressed by 24-bit logical addresses.
pub struct Rom {
    cart: Vec<u8>,
    mapper: Mapper,
}

impl View for Rom {
    type V = Seq<u8>;

    closed spec fn view(&self) -> Seq<u8> {
        self.cart@
    }
}

impl Clone for Rom {
    fn clone(&self) -> (r: Self)
        ensures
            r@ == self@,
            r.mapper() == self.mapper(),
    {
        Rom { cart: self.cart.clone(), mapper: self.mapper }
    }
}

impl Rom {
    /// The mapper the image was created with.
    pub closed spec fn mapper(&self) -> Mapper {
        self.mapper
    }

    pub fn new(cart: Vec<u8>, mapper: Mapper) -> (r: Self)
        ensures
            r@ == cart@,
            r.mapper() == mapper,
    {
        Rom { cart, mapper }
    }

    /// Cartridge offset of `addr`.
    pub fn map_rom(addr: u32) -> (off: usize)
        ensures
            off == rom_offset(addr),
            off < 0x20_0000,
    {
        let mut bank: u32 = (addr >> 16) & 0x3F;
        if bank & 0x30 == 0x30 {
            bank &= !0x10;
        }
        let low: u32 = addr & 0x7FFF;
        let off: u32 = bank << 15 | low;
        assert(off == ({
            let b = (addr / 0x10000) % 0x40;
            let p = if b >= 0x30 {
                (b - 0x10) as u32
            } else {
                b
            };
            p * 0x8000 + addr % 0x8000
        }) && off < 0x20_0000) by (bit_vector)
            requires
                off == ({
                    let b0 = (addr >> 16) & 0x3F;
                    let b1 = if b0 & 0x30 == 0x30 {
                        b0 & !0x10u32
                    } else {
                        b0
                    };
                    b1 << 15 | (addr & 0x7FFF)
                }),
        ;
        off as usize
    }

    /// Whether `addr` names a byte of ROM.
    pub fn is_mapped(&self, addr: u32) -> (b: bool)
        ensures
            b == is_rom_addr(self@, addr),
    {
        assert((addr & 0x8000 == 0x8000) == (addr % 0x10000 >= 0x8000)) by (bit_vector);
        assert((addr & 0x40_0000 == 0) == ((addr / 0x10000) % 0x80 < 0x40)) by (bit_vector);
        addr <= 0xFF_FFFF && addr & 0x8000 == 0x8000 && addr & 0x40_0000 == 0 && Self::map_rom(addr)
            < self.cart.len()
    }

    fn byte(&self, off: usize) -> (b: u8)
        ensures
            b == byte_at(self@, off as nat),
    {
        if off < self.cart.len() {
            self.cart[off]
        } else {
            0
        }
    }

    /// The byte at `addr`; zero where the image has none.
    pub fn load(&self, addr: u32) -> (b: u8)
        ensures
            b == byte_at(self@, rom_offset(addr)),
    {
        let off = Self::map_rom(addr);
        self.byte(off)
    }

    /// The 16-bit little-endian word at `addr`.
    pub fn load_u16(&self, addr: u32) -> (w: u16)
        ensures
            w == le_value(self@, rom_offset(addr), 2),
    {
        let off = Self::map_rom(addr);
        let b0 = self.byte(off);
        let b1 = self.byte(off + 1);
        reveal_with_fuel(le_value, 3);
        b0 as u16 + 256 * (b1 as u16)
    }

    /// The 24-bit little-endian value at `addr`.
    pub fn load_u24(&self, addr: u32) -> (w: u32)
        ensures
            w == le_value(self@, rom_offset(addr), 3),
            w <= 0xFF_FFFF,
    {
        let off = Self::map_rom(addr);
        let b0 = self.byte(off);
        let b1 = self.byte(off + 1);
        let b2 = self.byte(off + 2);
        reveal_with_fuel(le_value, 4);
        b0 as u32 + 256 * (b1 as u32 + 256 * (b2 as u32))
    }

    /// The 32-bit little-endian value at `addr`.
    pub fn load_u32(&self, addr: u32) -> (w: u32)
        ensures
            w == le_value(self@, rom_offset(addr), 4),
    {
        let off = Self::map_rom(addr);
        let b0 = self.byte(off);
        let b1 = self.byte(off + 1);
        let b2 = self.byte(off + 2);
        let b3 = self.byte(off + 3);
        reveal_with_fuel(le_value, 5);
        b0 as u32 + 256 * (b1 as u32 + 256 * (b2 as u32 + 256 * (b3 as u32)))
    }

    /// The bytes from `addr` up to the end of its page.
    pub fn slice(&self, addr: u32) -> (s: &[u8])
        ensures
            s@ == page_rest(self@, addr),
    {
        let off = Self::map_rom(addr);
        let len = self.cart.len();
        if off < len {
            let page: usize = (off / PAGE_SIZE + 1) * PAGE_SIZE;
            let end = if page <= len {
                page
            } else {
                len
            };
            slice_subrange(self.cart.as_slice(), off, end)
        } else {
            slice_subrange(self.cart.as_slice(), 0, 0)
        }
    }
}

} // verus!
