//! Input format identification by signature sniffing: a fixed magic
//! sequence marks a debug database, otherwise a probe of the first sixteen
//! bytes classifies the input as one of the native object formats.

use vstd::prelude::*;

verus! {

/// Hints a probe of the first sixteen bytes can produce.
#[derive(Clone, Copy, PartialEq, Eq, Structural, Debug)]
pub enum FormatHint {
    Elf,
    Mach,
    MachFat,
    Pe,
    Te,
    Coff,
    Archive,
    Unknown,
    Unreadable,
}

/// The formats the parsing entry point dispatches on, and the two failure
/// classes: a recognized-but-unsupported signature, and bytes that could
/// not be identified at all.
#[derive(Clone, Copy, PartialEq, Eq, Structural, Debug)]
pub enum FileFormat {
    Pdb,
    Elf,
    MachO,
    Unrecognized,
    Unidentified,
}

/// The magic prefix of a debug database file.
pub open spec fn pdb_magic() -> Seq<u8> {
    seq![
        77u8, 105u8, 99u8, 114u8, 111u8, 115u8, 111u8, 102u8, 116u8, 32u8, 67u8, 47u8, 67u8,
        43u8, 43u8, 32u8, 77u8, 83u8, 70u8, 32u8, 55u8, 46u8, 48u8, 48u8, 13u8, 10u8, 26u8,
        68u8, 83u8, 0u8,
    ]
}

/// The bytes begin with the debug-database magic.
pub open spec fn is_pdb_magic(b: Seq<u8>) -> bool {
    b.len() >= 30 && b.take(30) == pdb_magic()
}

/// The bytes begin with the four ELF magic bytes.
pub open spec fn is_elf_magic(b: Seq<u8>) -> bool {
    b.len() >= 4 && b[0] == 0x7fu8 && b[1] == 0x45u8 && b[2] == 0x4cu8 && b[3] == 0x46u8
}

/// The bytes begin with the archive magic `!<arch>\n`.
pub open spec fn is_archive_magic(b: Seq<u8>) -> bool {
    &&& b.len() >= 8
    &&& b[0] == 0x21u8
    &&& b[1] == 0x3cu8
    &&& b[2] == 0x61u8
    &&& b[3] == 0x72u8
    &&& b[4] == 0x63u8
    &&& b[5] == 0x68u8
    &&& b[6] == 0x3eu8
    &&& b[7] == 0x0au8
}

/// The first two bytes read as a little-endian sixteen-bit word.
pub open spec fn le16(b: Seq<u8>) -> int {
    b[0] + 0x100 * b[1]
}

/// The first four bytes read as a big-endian thirty-two-bit word.
pub open spec fn be32(b: Seq<u8>) -> int {
    0x1000000 * b[0] + 0x10000 * b[1] + 0x100 * b[2] + b[3]
}

/// The word is one of the four Mach-O header magics, of either width and
/// byte order.
pub open spec fn is_mach_magic(w: int) -> bool {
    w == 0xfeedface || w == 0xcefaedfe || w == 0xfeedfacf || w == 0xcffaedfe
}

/// The sixteen-bit word is one of the bare COFF machine tags the probe
/// recognizes.
pub open spec fn is_coff_sig(w: int) -> bool {
    w == 0x14c || w == 0x8664 || w == 0xaa64
}

/// The little-endian word is one of the signatures claimed by the PE
/// family: a DOS header, a terse executable, or a bare COFF machine tag.
pub open spec fn is_pe_like(w: int) -> bool {
    w == 0x5a4d || w == 0x5a56 || is_coff_sig(w)
}

/// The probe has ruled out the ELF and archive magics.
pub open spec fn not_elf_ar(b: Seq<u8>) -> bool {
    !is_elf_magic(b) && !is_archive_magic(b)
}

/// The probe has reached its Mach-O stage: no ELF, archive or PE-family
/// signature matched.
pub open spec fn mach_stage(b: Seq<u8>) -> bool {
    not_elf_ar(b) && !is_pe_like(le16(b))
}

/// The probe reports an archive: the archive magic, and not the ELF one.
pub open spec fn archive_sig(b: Seq<u8>) -> bool {
    !is_elf_magic(b) && is_archive_magic(b)
}

/// The probe reports a PE image: the DOS signature, after ELF and archive
/// are ruled out.
pub open spec fn pe_sig(b: Seq<u8>) -> bool {
    not_elf_ar(b) && le16(b) == 0x5a4d
}

/// The probe reports a terse executable, after ELF and archive are ruled
/// out.
pub open spec fn te_sig(b: Seq<u8>) -> bool {
    not_elf_ar(b) && le16(b) == 0x5a56
}

/// The probe reports a bare COFF object, after ELF and archive are ruled
/// out.
pub open spec fn coff_sig(b: Seq<u8>) -> bool {
    not_elf_ar(b) && is_coff_sig(le16(b))
}

/// The probe reports a Mach-O image: one of its magics, at the Mach-O
/// stage.
pub open spec fn mach_sig(b: Seq<u8>) -> bool {
    mach_stage(b) && is_mach_magic(be32(b))
}

/// The probe reports a fat Mach-O container, at the Mach-O stage.
pub open spec fn mach_fat_sig(b: Seq<u8>) -> bool {
    mach_stage(b) && be32(b) == 0xcafebabe
}

/// Relies on goblin::peek_bytes, which classifies the first sixteen bytes
/// by their magic numbers: the ELF magic first, then the archive magic,
/// then the PE-family sixteen-bit signatures read little-endian, then the
/// Mach-O magics read big-endian; anything else is unknown.  On sixteen
/// bytes every read it makes succeeds and each of its Mach magics carries
/// a parsing context, so it returns no error and `Unreadable` never comes
/// back.
#[verifier::external_body]
fn probe(bytes: &[u8]) -> (r: FormatHint)
    requires
        bytes@.len() >= 16,
    ensures
        (r == FormatHint::Elf <==> is_elf_magic(bytes@)),
        (r == FormatHint::Archive <==> archive_sig(bytes@)),
        (r == FormatHint::Pe <==> pe_sig(bytes@)),
        (r == FormatHint::Te <==> te_sig(bytes@)),
        (r == FormatHint::Coff <==> coff_sig(bytes@)),
        (r == FormatHint::Mach <==> mach_sig(bytes@)),
        (r == FormatHint::MachFat <==> mach_fat_sig(bytes@)),
        (r != FormatHint::Unreadable),
{
    let mut head = [0u8; 16];
    head.copy_from_slice(&bytes[..16]);
    match goblin::peek_bytes(&head) {
        Ok(goblin::Hint::Elf(_)) => FormatHint::Elf,
        Ok(goblin::Hint::Mach(_)) => FormatHint::Mach,
        Ok(goblin::Hint::MachFat(_)) => FormatHint::MachFat,
        Ok(goblin::Hint::PE) => FormatHint::Pe,
        Ok(goblin::Hint::TE) => FormatHint::Te,
        Ok(goblin::Hint::COFF) => FormatHint::Coff,
        Ok(goblin::Hint::Archive) => FormatHint::Archive,
        Ok(_) => FormatHint::Unknown,
        Err(_) => FormatHint::Unreadable,
    }
}

fn pdb_magic_bytes() -> (r: Vec<u8>)
    ensures
        r@ == pdb_magic(),
{
    let mut v: Vec<u8> = Vec::new();
    v.push(77);
    v.push(105);
    v.push(99);
    v.push(114);
    v.push(111);
    v.push(115);
    v.push(111);
    v.push(102);
    v.push(116);
    v.push(32);
    v.push(67);
    v.push(47);
    v.push(67);
    v.push(43);
    v.push(43);
    v.push(32);
    v.push(77);
    v.push(83);
    v.push(70);
    v.push(32);
    v.push(55);
    v.push(46);
    v.push(48);
    v.push(48);
    v.push(13);
    v.push(10);
    v.push(26);
    v.push(68);
    v.push(83);
    v.push(0);
    proof {
        assert(v@ =~= pdb_magic());
    }
    v
}

fn has_pdb_magic(bytes: &Vec<u8>) -> (r: bool)
    ensures
        r == is_pdb_magic(bytes@),
{
    if bytes.len() < 30 {
        return false;
    }
    let magic = pdb_magic_bytes();
    let mut i: usize = 0;
    while i < 30
        invariant
            0 <= i <= 30,
            bytes@.len() >= 30,
            magic@ == pdb_magic(),
            forall|j: int| 0 <= j < i ==> bytes@[j] == pdb_magic()[j],
        decreases 30 - i,
    {
        if bytes[i] != magic[i] {
            proof {
                assert(bytes@.take(30)[i as int] != pdb_magic()[i as int]);
            }
            return false;
        }
        i = i + 1;
    }
    proof {
        assert(bytes@.take(30) =~= pdb_magic());
    }
    true
}

/// Classify raw input bytes: the debug-database magic wins, then the probe
/// of the first sixteen bytes decides between the native formats; inputs
/// shorter than sixteen bytes cannot be identified.
pub fn identify_format(bytes: &Vec<u8>) -> (r: FileFormat)
    ensures
        (r == FileFormat::Pdb <==> is_pdb_magic(bytes@)),
        (r == FileFormat::Elf <==> !is_pdb_magic(bytes@) && bytes@.len() >= 16 && is_elf_magic(
            bytes@,
        )),
        (r == FileFormat::MachO <==> !is_pdb_magic(bytes@) && bytes@.len() >= 16 && mach_sig(
            bytes@,
        )),
        (r == FileFormat::Unidentified <==> !is_pdb_magic(bytes@) && bytes@.len() < 16),
        (r == FileFormat::Unrecognized <==> !is_pdb_magic(bytes@) && bytes@.len() >= 16
            && !is_elf_magic(bytes@) && !mach_sig(bytes@)),
{
    if has_pdb_magic(bytes) {
        return FileFormat::Pdb;
    }
    if bytes.len() < 16 {
        return FileFormat::Unidentified;
    }
    match probe(bytes.as_slice()) {
        FormatHint::Elf => FileFormat::Elf,
        FormatHint::Mach => FileFormat::MachO,
        _ => FileFormat::Unrecognized,
    }
}

} // verus!
