//! Parser for the downloaded executable image: validates the legacy header,
//! the extended header and the machine type, computes the image base and the
//! absolute entry address, and enumerates the loadable sections with exact
//! size-truncation rules. All offset arithmetic is overflow-checked; any
//! overflow or out-of-bounds header is a rejection, never a wraparound.

use vstd::prelude::*;
use vstd::slice::{slice_subrange, slice_to_vec};

verus! {

/// Machine code for 32-bit x86 images; such images carry a 32-bit image base.
pub const MACHINE_X86: u16 = 0x014c;

/// Machine code for 64-bit x86 images; such images carry a 64-bit image base.
pub const MACHINE_X64: u16 = 0x8664;

/// Offset of the extended-header pointer in the legacy header.
pub const EXT_HEADER_PTR_OFF: usize = 0x3c;

/// Size of the fixed part of the extended header.
pub const EXT_HEADER_SIZE: usize = 0x18;

/// Size of one section record.
pub const SECTION_RECORD_SIZE: usize = 0x28;

/// The 16-bit little-endian value at `off`.
pub open spec fn le16(s: Seq<u8>, off: int) -> int {
    s[off] + 0x100 * s[off + 1]
}

/// The 32-bit little-endian value at `off`.
pub open spec fn le32(s: Seq<u8>, off: int) -> int {
    le16(s, off) + 0x10000 * le16(s, off + 2)
}

/// The 64-bit little-endian value at `off`.
pub open spec fn le64(s: Seq<u8>, off: int) -> int {
    le32(s, off) + 0x1_0000_0000 * le32(s, off + 4)
}

/// Where the extended header starts.
pub open spec fn spec_pe_off(s: Seq<u8>) -> int {
    le32(s, EXT_HEADER_PTR_OFF as int)
}

/// The declared machine type.
pub open spec fn spec_machine(s: Seq<u8>) -> int {
    le16(s, spec_pe_off(s) + 4)
}

/// The declared number of sections.
pub open spec fn spec_nsections(s: Seq<u8>) -> int {
    le16(s, spec_pe_off(s) + 6)
}

/// The declared size of the optional header.
pub open spec fn spec_opt_size(s: Seq<u8>) -> int {
    le16(s, spec_pe_off(s) + 0x14)
}

/// The image base: a 32-bit field for the x86 machine code, a 64-bit field
/// for the x64 one, always widened to 64 bits.
pub open spec fn spec_image_base(s: Seq<u8>) -> int {
    if spec_machine(s) == MACHINE_X86 {
        le32(s, spec_pe_off(s) + 0x34)
    } else {
        le64(s, spec_pe_off(s) + 0x30)
    }
}

/// The absolute entry address: image base plus the entry's relative address.
pub open spec fn spec_entry_point(s: Seq<u8>) -> int {
    spec_image_base(s) + le32(s, spec_pe_off(s) + 0x28)
}

/// Where the section-header table starts.
pub open spec fn spec_section_off(s: Seq<u8>) -> int {
    spec_pe_off(s) + EXT_HEADER_SIZE + spec_opt_size(s)
}

/// The total header size: everything up to the end of the section table.
pub open spec fn spec_header_size(s: Seq<u8>) -> int {
    spec_section_off(s) + spec_nsections(s) * SECTION_RECORD_SIZE
}

/// Everything `parse` checks: the legacy magic, an in-bounds extended header
/// with its magic, a recognized machine type, an entry address that does not
/// overflow, and a complete in-bounds section table.
pub open spec fn parse_ok(s: Seq<u8>) -> bool {
    &&& s.len() >= 0x40
    &&& s[0] == 0x4d && s[1] == 0x5a
    &&& spec_pe_off(s) + 4 <= s.len()
    &&& s[spec_pe_off(s)] == 0x50 && s[spec_pe_off(s) + 1] == 0x45
    &&& s[spec_pe_off(s) + 2] == 0 && s[spec_pe_off(s) + 3] == 0
    &&& spec_pe_off(s) + EXT_HEADER_SIZE <= s.len()
    &&& (spec_machine(s) == MACHINE_X86 || spec_machine(s) == MACHINE_X64)
    &&& spec_pe_off(s) + 0x38 <= s.len()
    &&& spec_entry_point(s) <= u64::MAX
    &&& spec_header_size(s) <= s.len()
}

/// Where the `i`-th section record starts.
pub open spec fn spec_sec_off(s: Seq<u8>, i: int) -> int {
    spec_section_off(s) + i * SECTION_RECORD_SIZE
}

/// The `i`-th section's declared virtual size.
pub open spec fn spec_sec_vsize(s: Seq<u8>, i: int) -> int {
    le32(s, spec_sec_off(s, i) + 0x8)
}

/// The `i`-th section's declared relative virtual address.
pub open spec fn spec_sec_vaddr(s: Seq<u8>, i: int) -> int {
    le32(s, spec_sec_off(s, i) + 0xc)
}

/// The `i`-th section's declared on-disk size.
pub open spec fn spec_sec_rawsize(s: Seq<u8>, i: int) -> int {
    le32(s, spec_sec_off(s, i) + 0x10)
}

/// The `i`-th section's declared on-disk offset.
pub open spec fn spec_sec_rawoff(s: Seq<u8>, i: int) -> int {
    le32(s, spec_sec_off(s, i) + 0x14)
}

/// How many of the `i`-th section's on-disk bytes are used: a section never
/// reads more raw bytes than it occupies in memory.
pub open spec fn spec_sec_len(s: Seq<u8>, i: int) -> int {
    if spec_sec_rawsize(s, i) < spec_sec_vsize(s, i) {
        spec_sec_rawsize(s, i)
    } else {
        spec_sec_vsize(s, i)
    }
}

/// The `i`-th section can be produced: its absolute address does not overflow
/// and its used raw bytes lie inside the image.
pub open spec fn spec_sec_ok(s: Seq<u8>, i: int) -> bool {
    &&& spec_image_base(s) + spec_sec_vaddr(s, i) <= u64::MAX
    &&& spec_sec_rawoff(s, i) + spec_sec_len(s, i) <= s.len()
}

/// One loadable section: its absolute virtual address, its size in memory,
/// and the raw bytes that initialize it.
pub struct Section {
    pub vaddr: u64,
    pub vsize: u32,
    pub bytes: Vec<u8>,
}

/// A validated executable image with its basic layout parsed out.
pub struct PeParser<'a> {
    bytes: &'a [u8],
    nsections: usize,
    section_off: usize,
    image_base: u64,
    /// Absolute virtual address of the entry point (includes the image base).
    pub entry_point: u64,
}

impl<'a> PeParser<'a> {
    /// The raw image this parser was built over.
    pub closed spec fn data(self) -> Seq<u8> {
        self.bytes@
    }

    /// The absolute entry address, as a spec value.
    pub closed spec fn entry(self) -> u64 {
        self.entry_point
    }

    /// The parser's fields agree with what the raw image declares.
    pub closed spec fn wf(self) -> bool {
        &&& parse_ok(self.bytes@)
        &&& self.nsections == spec_nsections(self.bytes@)
        &&& self.section_off == spec_section_off(self.bytes@)
        &&& self.image_base == spec_image_base(self.bytes@)
        &&& self.entry_point == spec_entry_point(self.bytes@)
    }

    /// Validate an executable image and parse its layout. Returns `None`
    /// exactly when some header check of [`parse_ok`] fails.
    pub fn parse(bytes: &'a [u8]) -> (r: Option<PeParser<'a>>)
        ensures
            r is Some <==> parse_ok(bytes@),
            r matches Some(p) ==> {
                &&& p.wf()
                &&& p.data() == bytes@
                &&& p.entry() == spec_entry_point(bytes@)
            },
    {
        let len = bytes.len();

        // Legacy header: magic and the pointer to the extended header.
        if len < 0x40 {
            return None;
        }
        if bytes[0] != 0x4d || bytes[1] != 0x5a {
            return None;
        }
        let pe_off_u32 = read_le_u32(bytes, EXT_HEADER_PTR_OFF);
        let pe_off = pe_off_u32 as usize;

        // Extended header magic, in bounds.
        let end4 = match pe_off.checked_add(4) {
            Some(e) => e,
            None => {
                return None;
            },
        };
        if end4 > len {
            return None;
        }
        if bytes[pe_off] != 0x50 || bytes[pe_off + 1] != 0x45 || bytes[pe_off + 2] != 0
            || bytes[pe_off + 3] != 0 {
            return None;
        }

        // The fixed extended header must lie inside the input.
        let ext_end = match pe_off.checked_add(EXT_HEADER_SIZE) {
            Some(e) => e,
            None => {
                return None;
            },
        };
        if ext_end > len {
            return None;
        }

        // Exactly two machine types are recognized.
        let machine = read_le_u16(bytes, pe_off + 4);
        if machine != MACHINE_X86 && machine != MACHINE_X64 {
            return None;
        }

        let nsections = read_le_u16(bytes, pe_off + 6) as usize;
        let opt_size = read_le_u16(bytes, pe_off + 0x14) as usize;

        // The image base needs bytes up to pe_off + 0x38 whichever width it
        // has.
        let base_end = match pe_off.checked_add(0x38) {
            Some(e) => e,
            None => {
                return None;
            },
        };
        if base_end > len {
            return None;
        }
        let image_base: u64 = if machine == MACHINE_X86 {
            read_le_u32(bytes, pe_off + 0x34) as u64
        } else {
            read_le_u64(bytes, pe_off + 0x30)
        };

        // Absolute entry address, overflow-checked.
        let entry_rva = read_le_u32(bytes, pe_off + 0x28);
        let entry_point = match image_base.checked_add(entry_rva as u64) {
            Some(e) => e,
            None => {
                return None;
            },
        };

        // The whole header, section table included, must lie inside the
        // input; this makes every section-record read below in bounds.
        let sec_table = match nsections.checked_mul(SECTION_RECORD_SIZE) {
            Some(v) => v,
            None => {
                return None;
            },
        };
        let section_off = match ext_end.checked_add(opt_size) {
            Some(v) => v,
            None => {
                return None;
            },
        };
        let header_size = match section_off.checked_add(sec_table) {
            Some(v) => v,
            None => {
                return None;
            },
        };
        if header_size > len {
            return None;
        }

        Some(PeParser { bytes, nsections, section_off, image_base, entry_point })
    }

    /// Produce the loadable sections in table order: for each, the absolute
    /// virtual address (image base plus the section's relative address), the
    /// virtual size, and the used raw bytes — the declared on-disk bytes
    /// truncated to the virtual size. Returns `None` exactly when some
    /// section's absolute address overflows or its raw bytes run outside the
    /// image; no partial table is returned.
    pub fn sections(&self) -> (r: Option<Vec<Section>>)
        requires
            self.wf(),
        ensures
            r is Some <==> (forall|i: int|
                0 <= i < spec_nsections(self.data()) ==> spec_sec_ok(self.data(), i)),
            r matches Some(v) ==> {
                &&& v@.len() == spec_nsections(self.data())
                &&& forall|i: int| 0 <= i < v@.len() ==> {
                    &&& (#[trigger] v@[i]).vaddr
                        == spec_image_base(self.data()) + spec_sec_vaddr(self.data(), i)
                    &&& v@[i].vsize == spec_sec_vsize(self.data(), i)
                    &&& v@[i].bytes@ == self.data().subrange(
                        spec_sec_rawoff(self.data(), i),
                        spec_sec_rawoff(self.data(), i) + spec_sec_len(self.data(), i),
                    )
                }
            },
    {
        let ghost s = self.bytes@;
        let len = self.bytes.len();
        let n = self.nsections;
        let mut out: Vec<Section> = Vec::new();
        let mut i: usize = 0;
        while i < n
            invariant
                self.wf(),
                s == self.bytes@,
                len == s.len(),
                n == spec_nsections(s),
                i <= n,
                out@.len() == i,
                forall|j: int| 0 <= j < i ==> spec_sec_ok(s, j),
                forall|j: int| 0 <= j < i ==> {
                    &&& (#[trigger] out@[j]).vaddr == spec_image_base(s) + spec_sec_vaddr(s, j)
                    &&& out@[j].vsize == spec_sec_vsize(s, j)
                    &&& out@[j].bytes@ == s.subrange(
                        spec_sec_rawoff(s, j),
                        spec_sec_rawoff(s, j) + spec_sec_len(s, j),
                    )
                },
            decreases n - i,
        {
            proof {
                // The record lies inside the validated header region.
                assert(spec_sec_off(s, i as int) + SECTION_RECORD_SIZE
                    <= spec_header_size(s)) by (nonlinear_arith)
                    requires
                        spec_sec_off(s, i as int)
                            == spec_section_off(s) + i * SECTION_RECORD_SIZE,
                        spec_header_size(s)
                            == spec_section_off(s) + spec_nsections(s) * SECTION_RECORD_SIZE,
                        i < spec_nsections(s),
                ;
            }
            let off = self.section_off + i * SECTION_RECORD_SIZE;
            let virt_size = read_le_u32(self.bytes, off + 0x8);
            let virt_addr = read_le_u32(self.bytes, off + 0xc);
            let raw_size = read_le_u32(self.bytes, off + 0x10);
            let raw_off = read_le_u32(self.bytes, off + 0x14) as usize;

            // Truncate the on-disk bytes to what the section occupies in
            // memory.
            let used: usize = if raw_size < virt_size { raw_size as usize } else {
                virt_size as usize
            };
            proof {
                assert(off as int == spec_sec_off(s, i as int));
                assert(virt_size == spec_sec_vsize(s, i as int));
                assert(virt_addr == spec_sec_vaddr(s, i as int));
                assert(raw_size == spec_sec_rawsize(s, i as int));
                assert(raw_off == spec_sec_rawoff(s, i as int));
                assert(used == spec_sec_len(s, i as int));
            }

            // Absolute address of the section, overflow-checked.
            let vaddr = match self.image_base.checked_add(virt_addr as u64) {
                Some(v) => v,
                None => {
                    proof {
                        assert(!spec_sec_ok(s, i as int));
                        assert(s == self.data());
                        assert(!(forall|j: int| 0 <= j < spec_nsections(self.data()) ==> spec_sec_ok(self.data(), j)));
                    }
                    return None;
                },
            };

            // The used raw bytes must lie inside the image.
            let raw_end = match raw_off.checked_add(used) {
                Some(v) => v,
                None => {
                    proof {
                        assert(!spec_sec_ok(s, i as int));
                        assert(s == self.data());
                        assert(!(forall|j: int| 0 <= j < spec_nsections(self.data()) ==> spec_sec_ok(self.data(), j)));
                    }
                    return None;
                },
            };
            if raw_end > len {
                proof {
                    assert(!spec_sec_ok(s, i as int));
                    assert(s == self.data());
                    assert(!(forall|j: int| 0 <= j < spec_nsections(self.data()) ==> spec_sec_ok(self.data(), j)));
                }
                return None;
            }

            let raw = slice_subrange(self.bytes, raw_off, raw_end);
            out.push(Section { vaddr, vsize: virt_size, bytes: slice_to_vec(raw) });
            i += 1;
        }
        Some(out)
    }
}

/// The 16-bit little-endian value at `off`.
fn read_le_u16(b: &[u8], off: usize) -> (r: u16)
    requires
        off + 2 <= b@.len(),
    ensures
        r == le16(b@, off as int),
{
    // Calling len() teaches the verifier that the slice fits the address
    // space, so the offset arithmetic below cannot overflow.
    let _len = b.len();
    let b0 = b[off];
    let b1 = b[off + 1];
    b0 as u16 + 0x100 * b1 as u16
}

/// The 32-bit little-endian value at `off`.
fn read_le_u32(b: &[u8], off: usize) -> (r: u32)
    requires
        off + 4 <= b@.len(),
    ensures
        r == le32(b@, off as int),
{
    let _len = b.len();
    let lo = read_le_u16(b, off);
    let hi = read_le_u16(b, off + 2);
    lo as u32 + 0x10000 * hi as u32
}

/// The 64-bit little-endian value at `off`.
fn read_le_u64(b: &[u8], off: usize) -> (r: u64)
    requires
        off + 8 <= b@.len(),
    ensures
        r == le64(b@, off as int),
{
    let _len = b.len();
    let lo = read_le_u32(b, off);
    let hi = read_le_u32(b, off + 4);
    lo as u64 + 0x1_0000_0000 * hi as u64
}

} // verus!
