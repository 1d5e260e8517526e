//! Cross-process Apply lock.
use crate::chars::{chars_of, push_chars, string_of};
use vstd::prelude::*;
use vstd::utf8::encode_utf8;

verus! {

/// What std writes a text as in lower case.
pub uninterp spec fn lowercased(s: Seq<char>) -> Seq<char>;

/// `str::to_lowercase` answers from the text and the Unicode tables alone.
#[verifier::external_body]
fn lowercase(s: &str) -> (r: String)
    ensures
        r@ == lowercased(s@),
{
    s.to_lowercase()
}

/// The FNV-1a hash of some bytes, 64-bit.
pub open spec fn fnv(bytes: Seq<u8>) -> u64
    decreases bytes.len(),
{
    if bytes.len() == 0 {
        0xcbf2_9ce4_8422_2325
    } else {
        (fnv(bytes.drop_last()) ^ (bytes.last() as u64)).wrapping_mul(0x0000_0100_0000_01b3)
    }
}

/// FNV-1a, 64-bit, of a text's UTF-8 bytes.
///
/// Stable across builds.
pub fn fnv1a(text: &str) -> (r: u64)
    ensures
        r == fnv(encode_utf8(text@)),
{
    let bytes = text.as_bytes();
    let mut hash: u64 = 0xcbf2_9ce4_8422_2325;
    let mut i: usize = 0;
    assert(bytes@.take(0) =~= seq![]);
    while i < bytes.len()
        invariant
            i <= bytes@.len(),
            hash == fnv(bytes@.take(i as int)),
        decreases bytes@.len() - i,
    {
        assert(bytes@.take(i + 1).drop_last() =~= bytes@.take(i as int));
        assert(bytes@.take(i + 1).last() == bytes@[i as int]);
        hash = (hash ^ (bytes[i] as u64)).wrapping_mul(0x0000_0100_0000_01b3);
        i += 1;
    }
    assert(bytes@.take(i as int) =~= bytes@);
    hash
}

/// A hexadecimal digit.
pub open spec fn hex_digit(n: nat) -> char {
    if n < 10 {
        (0x30 + n) as char
    } else {
        (0x57 + n) as char
    }
}

/// The last `width` hexadecimal digits of a number.
pub open spec fn hex(n: nat, width: nat) -> Seq<char>
    decreases width,
{
    if width == 0 {
        seq![]
    } else {
        hex(n / 16, (width - 1) as nat).push(hex_digit(n % 16))
    }
}

fn hex_of(n: u64, width: usize) -> (r: Vec<char>)
    ensures
        r@ == hex(n as nat, width as nat),
    decreases width,
{
    if width == 0 {
        let none: Vec<char> = Vec::new();
        assert(none@ =~= seq![]);
        return none;
    }
    let mut out = hex_of(n / 16, width - 1);
    let d: u8 = (n % 16) as u8;
    let c: char = if d < 10 {
        (0x30 + d) as char
    } else {
        (0x57 + d) as char
    };
    out.push(c);
    out
}

/// The name of the lock of a library folder.
pub open spec fn lock_name(dir: Seq<char>) -> Seq<char> {
    "chibipop-library-"@ + hex(fnv(encode_utf8(lowercased(dir))) as nat, 16)
}

/// One name per library folder, whatever its case.
pub fn name_for(dir: &str) -> (r: String)
    ensures
        r@ == lock_name(dir@),
{
    let hash = fnv1a(lowercase(dir).as_str());
    let mut name = chars_of("chibipop-library-");
    push_chars(&mut name, hex_of(hash, 16).as_slice());
    string_of(name.as_slice())
}

/// Is a character a hexadecimal digit in lower case?
pub open spec fn is_hex(c: char) -> bool {
    '0' <= c <= '9' || 'a' <= c <= 'f'
}

proof fn hex_shape(n: nat, width: nat)
    ensures
        hex(n, width).len() == width,
        forall|i: int| 0 <= i < width ==> is_hex(#[trigger] hex(n, width)[i]),
    decreases width,
{
    if width > 0 {
        hex_shape(n / 16, (width - 1) as nat);
        let d = n % 16;
        assert(is_hex(hex_digit(d)));
    }
}

/// A lock's name is short, and free of what would make it a path.
pub proof fn a_lock_name_is_short_and_plain(dir: Seq<char>)
    ensures
        lock_name(dir).len() == 33,
        forall|i: int| 17 <= i < 33 ==> is_hex(#[trigger] lock_name(dir)[i]),
        !lock_name(dir).contains('\\'),
{
    let h = hex(fnv(encode_utf8(lowercased(dir))) as nat, 16);
    hex_shape(fnv(encode_utf8(lowercased(dir))) as nat, 16);
    reveal_strlit("chibipop-library-");
    assert forall|i: int| 0 <= i < 33 implies #[trigger] lock_name(dir)[i] != '\\' by {
        if i >= 17 {
            assert(lock_name(dir)[i] == h[i - 17]);
        }
    }
    assert forall|i: int| 17 <= i < 33 implies is_hex(#[trigger] lock_name(dir)[i]) by {
        assert(lock_name(dir)[i] == h[i - 17]);
    }
}

/// Two spellings that differ in case alone name one lock.
pub proof fn a_folder_has_one_lock(a: Seq<char>, b: Seq<char>)
    requires
        lowercased(a) == lowercased(b),
    ensures
        lock_name(a) == lock_name(b),
{
}

/// What an Apply is told while another holds the lock.
pub fn refusal() -> (r: String)
    ensures
        r@ == "another chibipop is changing your dictionaries - close it and try again"@,
{
    "another chibipop is changing your dictionaries - close it and try again".to_owned()
}

/// A hash starts at the offset basis, and each byte is mixed in before the
/// product is taken.
pub proof fn a_byte_is_mixed_in_before_the_product(bytes: Seq<u8>, b: u8)
    ensures
        fnv(seq![]) == 0xcbf2_9ce4_8422_2325u64,
        fnv(bytes.push(b)) == (fnv(bytes) ^ (b as u64)).wrapping_mul(0x0000_0100_0000_01b3),
{
    assert(bytes.push(b).drop_last() =~= bytes);
}

/// The number that a hexadecimal digit stands for.
pub open spec fn hex_value(c: char) -> nat {
    if '0' <= c <= '9' {
        (c as u32 - '0' as u32) as nat
    } else {
        (c as u32 - 'a' as u32 + 10) as nat
    }
}

/// The number that hexadecimal digits spell.
pub open spec fn hex_number(s: Seq<char>) -> nat
    decreases s.len(),
{
    if s.len() == 0 {
        0
    } else {
        hex_number(s.drop_last()) * 16 + hex_value(s.last())
    }
}

/// The number behind the largest that so many hexadecimal digits spell.
pub open spec fn hex_bound(width: nat) -> nat
    decreases width,
{
    if width == 0 {
        1
    } else {
        16 * hex_bound((width - 1) as nat)
    }
}

/// A number that so many hexadecimal digits can spell reads back from them.
pub proof fn a_hexadecimal_reads_back(n: nat, width: nat)
    requires
        n < hex_bound(width),
    ensures
        hex(n, width).len() == width,
        hex_number(hex(n, width)) == n,
    decreases width,
{
    if width > 0 {
        let w = (width - 1) as nat;
        assert(n / 16 < hex_bound(w));
        a_hexadecimal_reads_back(n / 16, w);
        let front = hex(n / 16, w);
        let c = hex_digit(n % 16);
        assert(front.push(c).drop_last() =~= front);
        assert(hex_value(c) == n % 16);
    }
}

} // verus!
