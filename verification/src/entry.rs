//! Page-table entries and their flag bits.
//!
//! An entry is a 64-bit word: bits 0–8 and 63 carry the flags named here,
//! bits 12–51 carry the physical frame address, and an all-zero word means
//! "unused".

use vstd::prelude::*;

verus! {

use crate::PAGE_SIZE;
use crate::frame::Frame;

/// Bits of an entry that carry the pointed-to physical frame address.
pub const ENTRY_ADDR_MASK: u64 = 0x000f_ffff_ffff_f000;

/// Bits of an entry that carry known flags.
pub const ENTRY_FLAGS_MASK: u64 = 0x8000_0000_0000_01ff;

/// The page is currently in memory.
pub const FLAG_PRESENT: u64 = 0x1;

/// The CPU is allowed to write to this page.
pub const FLAG_WRITABLE: u64 = 0x2;

/// Processes outside kernel mode may access this page.
pub const FLAG_USER_ACCESSIBLE: u64 = 0x4;

/// Writes go directly to memory.
pub const FLAG_WRITE_THROUGH: u64 = 0x8;

/// No cache is used for this page.
pub const FLAG_NO_CACHE: u64 = 0x10;

/// The CPU sets this bit when the page is used.
pub const FLAG_ACCESSED: u64 = 0x20;

/// The CPU sets this bit when the page is written.
pub const FLAG_DIRTY: u64 = 0x40;

/// In a level-3 table the entry points at a 1 GiB page, in a level-2 table at
/// a 2 MiB page; levels 1 and 4 require the bit to be zero.
pub const FLAG_HUGE_PAGE: u64 = 0x80;

/// The page is not flushed from caches on an address-space switch.
pub const FLAG_GLOBAL: u64 = 0x100;

/// Executing code on this page is forbidden.
pub const FLAG_NO_EXECUTE: u64 = 0x8000_0000_0000_0000;

/// ELF section flag: the section occupies memory at run time.
pub const ELF_SECTION_ALLOCATED: u64 = 0x1;

/// ELF section flag: the section is writable.
pub const ELF_SECTION_WRITABLE: u64 = 0x2;

/// ELF section flag: the section holds executable code.
pub const ELF_SECTION_EXECUTABLE: u64 = 0x4;

/// A set of page-table-entry flags: a 64-bit word whose bits outside the
/// known flag positions are always zero.
#[derive(Debug, Clone, Copy, PartialEq, Eq, Structural)]
pub struct EntryFlags {
    bits: u64,
}

/// Description of one kernel ELF section, as the boot loader reports it:
/// where it starts, how long it is, and its ELF flags.
#[derive(Debug, Clone, Copy, PartialEq, Eq, Structural)]
pub struct ElfSection {
    /// Physical (and, pre-remap, virtual) address of the section start.
    pub addr: u64,
    /// Length of the section in bytes.
    pub size: u64,
    /// ELF section flags (`ELF_SECTION_*` bits).
    pub flags: u64,
}

impl ElfSection {
    /// Whether the section occupies memory at run time.  Sections without
    /// this flag are skipped entirely by the kernel remap.
    pub fn is_allocated(&self) -> (r: bool)
        ensures
            r == (self.flags & ELF_SECTION_ALLOCATED == ELF_SECTION_ALLOCATED),
    {
        self.flags & ELF_SECTION_ALLOCATED == ELF_SECTION_ALLOCATED
    }

    /// Address of the first byte of the section.
    pub fn start_address(&self) -> (r: u64)
        ensures
            r == self.addr,
    {
        self.addr
    }

    /// Address one past the last byte of the section.
    pub fn end_address(&self) -> (r: u64)
        requires
            self.addr + self.size <= u64::MAX,
        ensures
            r == self.addr + self.size,
    {
        self.addr + self.size
    }
}

/// The page-table flags a kernel section must be mapped with: `PRESENT` if it
/// is allocated, `WRITABLE` if writable, `NO_EXECUTE` unless executable.
pub open spec fn spec_elf_to_entry_flags(elf_flags: u64) -> u64 {
    (if elf_flags & ELF_SECTION_ALLOCATED == ELF_SECTION_ALLOCATED {
        FLAG_PRESENT
    } else {
        0
    }) | (if elf_flags & ELF_SECTION_WRITABLE == ELF_SECTION_WRITABLE {
        FLAG_WRITABLE
    } else {
        0
    }) | (if elf_flags & ELF_SECTION_EXECUTABLE == ELF_SECTION_EXECUTABLE {
        0
    } else {
        FLAG_NO_EXECUTE
    })
}

impl EntryFlags {
    /// The flag word.
    pub closed spec fn spec_bits(self) -> u64 {
        self.bits
    }

    /// Only known flag positions are set.
    pub open spec fn wf(self) -> bool {
        self.spec_bits() & ENTRY_FLAGS_MASK == self.spec_bits()
    }

    /// The empty flag set.
    pub fn empty() -> (r: EntryFlags)
        ensures
            r.spec_bits() == 0u64,
            r.wf(),
    {
        proof {
            assert(0u64 & ENTRY_FLAGS_MASK == 0u64) by (bit_vector);
        }
        EntryFlags { bits: 0 }
    }

    /// The `PRESENT` flag alone.
    pub fn present() -> (r: EntryFlags)
        ensures
            r.spec_bits() == FLAG_PRESENT,
            r.wf(),
    {
        proof {
            assert(0x1u64 & 0x8000_0000_0000_01ffu64 == 0x1u64) by (bit_vector);
        }
        EntryFlags { bits: FLAG_PRESENT }
    }

    /// The `WRITABLE` flag alone.
    pub fn writable() -> (r: EntryFlags)
        ensures
            r.spec_bits() == FLAG_WRITABLE,
            r.wf(),
    {
        proof {
            assert(0x2u64 & 0x8000_0000_0000_01ffu64 == 0x2u64) by (bit_vector);
        }
        EntryFlags { bits: FLAG_WRITABLE }
    }

    /// The `HUGE_PAGE` flag alone.
    pub fn huge_page() -> (r: EntryFlags)
        ensures
            r.spec_bits() == FLAG_HUGE_PAGE,
            r.wf(),
    {
        proof {
            assert(0x80u64 & 0x8000_0000_0000_01ffu64 == 0x80u64) by (bit_vector);
        }
        EntryFlags { bits: FLAG_HUGE_PAGE }
    }

    /// The `NO_EXECUTE` flag alone.
    pub fn no_execute() -> (r: EntryFlags)
        ensures
            r.spec_bits() == FLAG_NO_EXECUTE,
            r.wf(),
    {
        proof {
            assert(0x8000_0000_0000_0000u64 & 0x8000_0000_0000_01ffu64
                == 0x8000_0000_0000_0000u64) by (bit_vector);
        }
        EntryFlags { bits: FLAG_NO_EXECUTE }
    }

    /// The word of flag bits.
    pub fn bits(&self) -> (r: u64)
        ensures
            r == self.spec_bits(),
    {
        self.bits
    }

    /// The flag set found in an arbitrary word: unknown bits are dropped.
    /// For every word `w`, the bits kept agree with `w` on every known flag
    /// position.
    pub fn from_bits_truncate(w: u64) -> (r: EntryFlags)
        ensures
            r.spec_bits() == w & ENTRY_FLAGS_MASK,
            r.spec_bits() & ENTRY_FLAGS_MASK == w & ENTRY_FLAGS_MASK,
            r.wf(),
    {
        proof {
            assert((w & 0x8000_0000_0000_01ffu64) & 0x8000_0000_0000_01ffu64 == w
                & 0x8000_0000_0000_01ffu64) by (bit_vector);
        }
        EntryFlags { bits: w & ENTRY_FLAGS_MASK }
    }

    /// Whether every flag of `other` is also set in `self`.
    pub fn contains(&self, other: EntryFlags) -> (r: bool)
        ensures
            r == (self.spec_bits() & other.spec_bits() == other.spec_bits()),
    {
        self.bits & other.bits == other.bits
    }

    /// The union of two flag sets.
    pub fn union(self, other: EntryFlags) -> (r: EntryFlags)
        ensures
            r.spec_bits() == self.spec_bits() | other.spec_bits(),
            self.wf() && other.wf() ==> r.wf(),
    {
        proof {
            let a = self.bits;
            let b = other.bits;
            assert(a & 0x8000_0000_0000_01ffu64 == a && b & 0x8000_0000_0000_01ffu64 == b ==> (a
                | b) & 0x8000_0000_0000_01ffu64 == (a | b)) by (bit_vector);
        }
        EntryFlags { bits: self.bits | other.bits }
    }

    /// The page-table flags for a kernel ELF section: `ALLOCATED` maps to
    /// `PRESENT`, `WRITABLE` to `WRITABLE`, and a section not marked
    /// `EXECUTABLE` gets `NO_EXECUTE`.
    pub fn from_elf_section_flags(section: &ElfSection) -> (r: EntryFlags)
        ensures
            r.spec_bits() == spec_elf_to_entry_flags(section.flags),
            r.wf(),
    {
        let present = if section.flags & ELF_SECTION_ALLOCATED == ELF_SECTION_ALLOCATED {
            EntryFlags::present()
        } else {
            EntryFlags::empty()
        };
        let writable = if section.flags & ELF_SECTION_WRITABLE == ELF_SECTION_WRITABLE {
            EntryFlags::writable()
        } else {
            EntryFlags::empty()
        };
        let no_execute = if section.flags & ELF_SECTION_EXECUTABLE == ELF_SECTION_EXECUTABLE {
            EntryFlags::empty()
        } else {
            EntryFlags::no_execute()
        };
        present.union(writable).union(no_execute)
    }
}

/// Whether an entry word has the `PRESENT` bit set.
pub open spec fn entry_present(e: u64) -> bool {
    e & FLAG_PRESENT == FLAG_PRESENT
}

/// Whether an entry word has the `HUGE_PAGE` bit set.
pub open spec fn entry_huge(e: u64) -> bool {
    e & FLAG_HUGE_PAGE == FLAG_HUGE_PAGE
}

/// Number of the frame an entry word points at (bits 12–51).
pub open spec fn entry_frame(e: u64) -> u64 {
    (e & ENTRY_ADDR_MASK) >> 12
}

/// The entry word pointing at frame number `f` with flag bits `bits`.
pub open spec fn entry_encode(f: u64, bits: u64) -> u64 {
    ((f * 4096) as u64) | bits
}

/// An encoded entry decodes back to its frame and to its flags, and carries
/// exactly the flag bits it was given.
pub proof fn lemma_entry_encode(f: u64, bits: u64)
    by (bit_vector)
    requires
        f < 0x100_0000_0000,
        bits & ENTRY_FLAGS_MASK == bits,
    ensures
        entry_frame(entry_encode(f, bits)) == f,
        entry_encode(f, bits) & ENTRY_FLAGS_MASK == bits,
        entry_present(entry_encode(f, bits)) == (bits & FLAG_PRESENT == FLAG_PRESENT),
        entry_huge(entry_encode(f, bits)) == (bits & FLAG_HUGE_PAGE == FLAG_HUGE_PAGE),
        entry_encode(f, bits) == f * 4096 + bits % 4096 + (if bits & FLAG_NO_EXECUTE
            == FLAG_NO_EXECUTE {
            0x8000_0000_0000_0000u64
        } else {
            0u64
        }),
{
}

/// Testing a flag on the truncated flag word agrees with testing it on the
/// whole entry word.
pub proof fn lemma_truncate_preserves(e: u64)
    by (bit_vector)
    ensures
        ((e & ENTRY_FLAGS_MASK) & FLAG_HUGE_PAGE == FLAG_HUGE_PAGE) == entry_huge(e),
        ((e & ENTRY_FLAGS_MASK) & FLAG_PRESENT == FLAG_PRESENT) == entry_present(e),
{
}

/// An entry encoded with the `PRESENT` flag added is present, not zero, and
/// still made of known flags.
pub proof fn lemma_encode_present(f: u64, bits: u64)
    requires
        bits & ENTRY_FLAGS_MASK == bits,
        f < 0x100_0000_0000,
    ensures
        (bits | FLAG_PRESENT) & ENTRY_FLAGS_MASK == (bits | FLAG_PRESENT),
        entry_present(entry_encode(f, (bits | FLAG_PRESENT) as u64)),
        entry_encode(f, (bits | FLAG_PRESENT) as u64) != 0,
        entry_frame(entry_encode(f, (bits | FLAG_PRESENT) as u64)) == f,
{
    let b = bits;
    assert((b | 0x1u64) & 0x8000_0000_0000_01ffu64 == (b | 0x1u64) && (b | 0x1u64) & 0x1u64
        == 0x1u64) by (bit_vector)
        requires
            b & 0x8000_0000_0000_01ffu64 == b,
    ;
    lemma_entry_encode(f, (bits | FLAG_PRESENT) as u64);
    lemma_present_nonzero(entry_encode(f, (bits | FLAG_PRESENT) as u64));
}

/// The frame field of any entry word fits in 40 bits.
pub proof fn lemma_entry_frame_bound(e: u64)
    by (bit_vector)
    ensures
        entry_frame(e) < 0x100_0000_0000,
{
}

/// A present entry word is not zero.
pub proof fn lemma_present_nonzero(e: u64)
    by (bit_vector)
    ensures
        entry_present(e) ==> e != 0,
        !entry_present(0u64),
        !entry_huge(0u64),
{
}

/// One entry of a page table, read out as a plain 64-bit word.
#[derive(Debug, Clone, Copy, PartialEq, Eq, Structural)]
pub struct Entry {
    value: u64,
}

impl Entry {
    /// The entry word.
    pub closed spec fn val(self) -> u64 {
        self.value
    }

    /// The entry holding the given word.
    pub fn new(value: u64) -> (r: Entry)
        ensures
            r.val() == value,
    {
        Entry { value }
    }

    /// The entry word, as a plain value.
    pub fn value(&self) -> (r: u64)
        ensures
            r == self.val(),
    {
        self.value
    }

    /// Whether the entry is unused, that is, entirely zero.
    pub fn is_unused(&self) -> (r: bool)
        ensures
            r == (self.val() == 0),
    {
        self.value == 0
    }

    /// Zero the whole entry.
    pub fn set_unused(&mut self)
        ensures
            final(self).val() == 0,
    {
        self.value = 0;
    }

    /// The known flags of the entry.
    pub fn flags(&self) -> (r: EntryFlags)
        ensures
            r.spec_bits() == self.val() & ENTRY_FLAGS_MASK,
            r.wf(),
    {
        EntryFlags::from_bits_truncate(self.value)
    }

    /// The frame the entry points at, or `None` when `PRESENT` is clear.
    pub fn pointed_frame(&self) -> (r: Option<Frame>)
        ensures
            entry_present(self.val()) ==> (r matches Some(f) && f.num() == entry_frame(
                self.val(),
            )),
            !entry_present(self.val()) ==> r is None,
    {
        if self.value & FLAG_PRESENT == FLAG_PRESENT {
            proof {
                let e = self.value;
                assert(((e & ENTRY_ADDR_MASK) / 4096) == ((e & ENTRY_ADDR_MASK) >> 12u64))
                    by (bit_vector);
            }
            Some(Frame::containing_address(self.value & ENTRY_ADDR_MASK))
        } else {
            None
        }
    }

    /// Point the entry at `frame` with the given flags.  The frame address
    /// must fit the 40-bit window of the entry.
    pub fn set(&mut self, frame: Frame, flags: EntryFlags)
        requires
            frame.num() < 0x100_0000_0000,
            flags.wf(),
        ensures
            final(self).val() == entry_encode(frame.num(), flags.spec_bits()),
    {
        proof {
            let f = frame.num();
            assert(f < 0x100_0000_0000 ==> f * 4096 <= u64::MAX) by (bit_vector);
        }
        let addr = frame.number() * PAGE_SIZE;
        self.value = addr | flags.bits();
    }
}

} // verus!
