use vstd::prelude::*;

verus! {

/// Bytes in a page.
pub const PAGE_SIZE: usize = 0x1000;

/// An Sv39 virtual address.
#[derive(Debug, Clone, Copy, PartialEq, Eq)]
pub struct VirtAddr(pub usize);

/// The Sv39 virtual address that `v` stands for: its low 39 bits.
pub open spec fn spec_va(v: usize) -> VirtAddr {
    VirtAddr((v as int % 0x80_0000_0000int) as usize)
}

impl VirtAddr {
    /// Keeps the low 39 bits of `v`.
    pub fn from_usize(v: usize) -> (va: VirtAddr)
        ensures
            va == spec_va(v),
    {
        let w: u64 = v as u64;
        assert(w & 0x7f_ffff_ffff == w % 0x80_0000_0000) by (bit_vector);
        assert(w & 0x7f_ffff_ffff <= w) by (bit_vector);
        VirtAddr((w & 0x7f_ffff_ffff) as usize)
    }

    /// The offset of this address within its page.
    pub fn page_offset(&self) -> (off: usize)
        ensures
            off == self.0 % PAGE_SIZE,
    {
        let v = self.0;
        assert(v & 0xfff == v % 0x1000) by (bit_vector);
        v & (PAGE_SIZE - 1)
    }

    /// The address is the start of a page.
    pub fn aligned(&self) -> (a: bool)
        ensures
            a == (self.0 % PAGE_SIZE == 0),
    {
        self.page_offset() == 0
    }
}

/// Access rights of a mapped area, as bits: readable (bit 1), writable
/// (bit 2), executable (bit 3), user-accessible (bit 4).
#[derive(Debug, Clone, Copy, PartialEq, Eq)]
pub struct MapPermission {
    pub bits: u8,
}

/// The bits that name a permission.
pub const MAP_PERMISSION_ALL: u8 = 0b1_1110;

impl MapPermission {
    /// The permission with exactly these bits, if every one of them names a
    /// permission.
    pub fn from_bits(bits: u8) -> (p: Option<MapPermission>)
        ensures
            p == (if bits & !MAP_PERMISSION_ALL == 0 {
                Some(MapPermission { bits })
            } else {
                None
            }),
    {
        if bits & !MAP_PERMISSION_ALL == 0 {
            Some(MapPermission { bits })
        } else {
            None
        }
    }
}

} // verus!
