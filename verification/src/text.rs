//! Character-level helpers shared by the directory code: the Latin-1 reading
//! of on-disk name bytes, ASCII case folding, and the two std string
//! operations that vstd gives no specification.
use vstd::prelude::*;

verus! {

/// Each byte read as the character with the same code point.
pub open spec fn latin1(bytes: Seq<u8>) -> Seq<char> {
    bytes.map_values(|b: u8| b as char)
}

/// `u8::to_ascii_uppercase`: lower-case ASCII letters move down by 32.
pub open spec fn ascii_upper(b: u8) -> u8 {
    if 97 <= b && b <= 122 {
        (b - 32) as u8
    } else {
        b
    }
}

/// Upper-cases one ASCII letter and leaves every other byte as it is.
pub fn to_ascii_uppercase(b: u8) -> (r: u8)
    ensures
        r == ascii_upper(b),
{
    if 97 <= b && b <= 122 {
        b - 32
    } else {
        b
    }
}

/// Every character is ASCII.
pub open spec fn ascii_chars(s: Seq<char>) -> bool {
    forall|i: int| 0 <= i < s.len() ==> (#[trigger] s[i] as u32) < 128
}

/// The characters with each ASCII lower-case letter replaced by its capital.
pub open spec fn ascii_upper_chars(s: Seq<char>) -> Seq<char> {
    s.map_values(|c: char| if 97 <= (c as u32) <= 122 { ((c as u32) - 32) as char } else { c })
}

/// Upper-casing the characters is known to act on them as on ASCII text:
/// true where they are not all ASCII.
pub open spec fn upper_known(s: Seq<char>) -> bool {
    ascii_chars(s) ==> unicode_uppercase(s) == ascii_upper_chars(s)
}

/// What `str::to_uppercase` returns: the full Unicode upper-case mapping of
/// the characters, a function of them alone.
pub uninterp spec fn unicode_uppercase(s: Seq<char>) -> Seq<char>;

/// `str::to_uppercase` from std. Claimed: the result's characters are
/// `unicode_uppercase` of the argument's characters, and for ASCII text they
/// are its characters with the letters a to z made capitals (as the Unicode
/// mapping std follows does); nothing else is said of that mapping.
#[verifier::external_body]
pub(crate) fn str_to_uppercase(s: &str) -> (r: String)
    ensures
        r@ == unicode_uppercase(s@),
        ascii_chars(s@) ==> r@ == ascii_upper_chars(s@),
{
    s.to_uppercase()
}

/// `String::push` from std. Claimed: the character is appended at the end.
#[verifier::external_body]
fn string_push(s: &mut String, c: char)
    ensures
        final(s)@ == old(s)@.push(c),
{
    s.push(c)
}

/// Builds the string whose characters are the given bytes read as Latin-1.
pub fn latin1_string(bytes: &Vec<u8>) -> (s: String)
    ensures
        s@ == latin1(bytes@),
{
    let mut s = String::new();
    let mut i: usize = 0;
    while i < bytes.len()
        invariant
            i <= bytes.len(),
            s@ == latin1(bytes@.subrange(0, i as int)),
        decreases bytes.len() - i,
    {
        let c = bytes[i] as char;
        string_push(&mut s, c);
        proof {
            assert(bytes@.subrange(0, i + 1) =~= bytes@.subrange(0, i as int).push(bytes@[i as int]));
            assert(latin1(bytes@.subrange(0, i + 1)) =~= latin1(bytes@.subrange(0, i as int)).push(c));
        }
        i = i + 1;
    }
    proof {
        assert(bytes@.subrange(0, bytes@.len() as int) =~= bytes@);
    }
    s
}

} // verus!
