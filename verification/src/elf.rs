//! Recognising an ELF image by its magic number.
use vstd::prelude::*;

verus! {

/// The four bytes an ELF image starts with: 0x7F, 'E', 'L', 'F'.
pub open spec fn elf_magic() -> Seq<u8> {
    seq![0x7Fu8, 0x45u8, 0x4Cu8, 0x46u8]
}

/// The bytes are at least four long and start with the ELF magic number.
pub fn has_elf_magic(contents: &[u8]) -> (r: bool)
    ensures
        r == (contents@.len() >= 4 && contents@.subrange(0, 4) == elf_magic()),
{
    if contents.len() < 4 {
        return false;
    }
    let r = contents[0] == 0x7F && contents[1] == 0x45 && contents[2] == 0x4C && contents[3] == 0x46;
    assert(r <==> contents@.subrange(0, 4) =~= elf_magic());
    r
}

} // verus!
