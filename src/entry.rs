use vstd::prelude::*;
use crate::address::{PhysicalPageNumber, PPN_LIMIT};

verus! {

/// The entry refers to a next-level table or a frame.
pub const VALID: u8 = 1;
/// The page may be read.
pub const READABLE: u8 = 2;
/// The page may be written.
pub const WRITABLE: u8 = 4;
/// The page may be executed.
pub const EXECUTABLE: u8 = 8;
/// The page is reachable from user mode.
pub const USER: u8 = 16;
/// The mapping is present in every address space.
pub const GLOBAL: u8 = 32;
/// The page has been accessed.
pub const ACCESSED: u8 = 64;
/// The page has been written.
pub const DIRTY: u8 = 128;

/// The eight flag bits in the low byte of an entry.
#[derive(Clone, Copy, PartialEq, Eq, Structural, Debug)]
pub struct Flags(pub u8);

/// `bits` with the VALID bit set.
pub open spec fn with_valid(bits: u8) -> u8 {
    if bits % 2 == 1 { bits } else { (bits + 1) as u8 }
}

impl Flags {
    pub open spec fn has_valid(self) -> bool {
        self.0 % 2 == 1
    }

    /// Whether the VALID bit is set.
    pub fn is_valid(&self) -> (r: bool)
        ensures
            r == self.has_valid(),
    {
        self.0 % 2 == 1
    }

    /// The same flags with VALID added.
    pub fn valid(self) -> (r: Flags)
        ensures
            r.0 == with_valid(self.0),
            r.has_valid(),
    {
        if self.0 % 2 == 1 {
            self
        } else {
            Flags(self.0 + 1)
        }
    }
}

/// One page-table entry in the Sv39 layout: flags in bits 0..8, the physical
/// page number in bits 10..54.
#[derive(Clone, Copy, PartialEq, Eq, Structural, Debug)]
pub struct PageTableEntry {
    /// The raw hardware word.
    pub bits: u64,
}

/// The raw word of an entry built from a page number and flag bits.
pub open spec fn entry_bits(ppn: nat, flags: u8) -> nat {
    ppn * 1024 + flags as nat
}

impl PageTableEntry {
    pub open spec fn view_bits(self) -> nat {
        self.bits as nat
    }

    pub open spec fn spec_ppn(self) -> nat {
        self.bits as nat / 1024
    }

    pub open spec fn spec_flags(self) -> u8 {
        (self.bits % 256) as u8
    }

    /// The entry was built from a page number that fits and eight flag bits.
    pub open spec fn wf(self) -> bool {
        self.spec_ppn() < PPN_LIMIT && self.bits % 1024 < 256
    }

    pub open spec fn spec_is_valid(self) -> bool {
        self.bits % 2 == 1
    }

    /// Empty: VALID clear and a zero page number.
    pub open spec fn spec_is_empty(self) -> bool {
        self.bits % 2 == 0 && self.bits / 1024 == 0
    }

    pub open spec fn spec_new(ppn: nat, flags: u8) -> PageTableEntry {
        PageTableEntry { bits: entry_bits(ppn, flags) as u64 }
    }

    /// The empty entry.
    pub fn empty() -> (r: PageTableEntry)
        ensures
            r.bits == 0,
            r.spec_is_empty(),
            r.wf(),
            !r.spec_is_valid(),
    {
        PageTableEntry { bits: 0 }
    }

    /// An entry holding `ppn` and exactly `flags`.
    pub fn new(ppn: PhysicalPageNumber, flags: Flags) -> (r: PageTableEntry)
        requires
            ppn.0 < PPN_LIMIT,
        ensures
            r == PageTableEntry::spec_new(ppn.0 as nat, flags.0),
            r.wf(),
            r.spec_ppn() == ppn.0,
            r.spec_flags() == flags.0,
            r.spec_is_valid() == flags.has_valid(),
            r.spec_is_empty() == (ppn.0 == 0 && !flags.has_valid()),
    {
        let bits = ppn.0 * 1024 + flags.0 as u64;
        PageTableEntry { bits }
    }

    /// The physical page number field.
    pub fn page_number(&self) -> (r: PhysicalPageNumber)
        ensures
            r.0 == self.spec_ppn(),
    {
        PhysicalPageNumber(self.bits / 1024)
    }

    /// The flag bits.
    pub fn flags(&self) -> (r: Flags)
        ensures
            r.0 == self.spec_flags(),
    {
        Flags((self.bits % 256) as u8)
    }

    /// Whether VALID is set.
    pub fn is_valid(&self) -> (r: bool)
        ensures
            r == self.spec_is_valid(),
    {
        self.bits % 2 == 1
    }

    /// Whether the entry is the not-yet-populated sentinel.
    pub fn is_empty(&self) -> (r: bool)
        ensures
            r == self.spec_is_empty(),
    {
        self.bits % 2 == 0 && self.bits / 1024 == 0
    }
}

/// A well-formed entry is rebuilt exactly from its page number and flags.
pub proof fn lemma_entry_rebuild(e: PageTableEntry)
    requires
        e.wf(),
    ensures
        PageTableEntry::spec_new(e.spec_ppn(), e.spec_flags()) == e,
        e.spec_is_valid() == (e.spec_flags() % 2 == 1),
{
    let b = e.view_bits();
    assert(b == (b / 1024) * 1024 + b % 1024) by (nonlinear_arith)
        requires b >= 0;
    assert(b % 1024 < 256);
    assert(b % 256 == b % 1024) by (nonlinear_arith)
        requires b % 1024 < 256, b >= 0;
    assert(b % 2 == (b % 256) % 2) by (nonlinear_arith)
        requires b >= 0;
}

/// What an entry built from a page number and flags reads back as.
pub proof fn lemma_entry_fields(ppn: nat, flags: u8)
    requires
        ppn < PPN_LIMIT,
    ensures
        PageTableEntry::spec_new(ppn, flags).spec_ppn() == ppn,
        PageTableEntry::spec_new(ppn, flags).spec_flags() == flags,
        PageTableEntry::spec_new(ppn, flags).wf(),
        PageTableEntry::spec_new(ppn, flags).spec_is_valid() == (flags % 2 == 1),
        PageTableEntry::spec_new(ppn, flags).spec_is_empty() == (ppn == 0 && flags % 2 == 0),
{
    let b = ppn * 1024 + flags as nat;
    assert(b / 1024 == ppn && b % 1024 == flags as nat) by (nonlinear_arith)
        requires b == ppn * 1024 + flags as nat, flags < 256;
    assert(b % 256 == flags as nat && b % 2 == (flags as nat) % 2) by (nonlinear_arith)
        requires b == ppn * 1024 + flags as nat, flags < 256;
    assert(b < 0x40_0000_0000_0000) by (nonlinear_arith)
        requires b == ppn * 1024 + flags as nat, flags < 256, ppn < 0x1000_0000_0000;
}

} // verus!
