//! Text as sequences of characters.
//!
//! Executable code works on `[char]` slices; contracts speak of `Seq<char>`.
use vstd::prelude::*;
use vstd::slice::slice_subrange;

verus! {

/// `String::push` appends one character.
pub assume_specification[ String::push ](s: &mut String, c: char)
    ensures
        final(s)@ == old(s)@.push(c),
;

/// The characters that carry Unicode's `White_Space` property.
pub open spec fn white(c: char) -> bool {
    let u = c as u32;
    ||| 0x9 <= u <= 0xd
    ||| u == 0x20
    ||| u == 0x85
    ||| u == 0xa0
    ||| u == 0x1680
    ||| 0x2000 <= u <= 0x200a
    ||| u == 0x2028
    ||| u == 0x2029
    ||| u == 0x202f
    ||| u == 0x205f
    ||| u == 0x3000
}

/// `char::is_whitespace` tests the `White_Space` property, which is spelled out
/// in [`white`].
pub assume_specification[ char::is_whitespace ](c: char) -> (r: bool)
    ensures
        r == white(c),
;

/// Whether std counts a character among the numeric ones.
pub uninterp spec fn numeric(c: char) -> bool;

/// `char::is_numeric` answers from the Unicode tables alone.
pub assume_specification[ char::is_numeric ](c: char) -> (r: bool)
    ensures
        r == numeric(c),
;

/// Whether std counts a character among the alphanumeric ones.
pub uninterp spec fn alphanumeric(c: char) -> bool;

/// `char::is_alphanumeric` answers from the Unicode tables alone.
pub assume_specification[ char::is_alphanumeric ](c: char) -> (r: bool)
    ensures
        r == alphanumeric(c),
;

/// What each string of a list holds.
pub open spec fn strs(v: Seq<String>) -> Seq<Seq<char>> {
    v.map_values(|s: String| s@)
}

/// What each text of a list holds.
pub open spec fn texts(v: Seq<Vec<char>>) -> Seq<Seq<char>> {
    v.map_values(|s: Vec<char>| s@)
}

/// What an optional string holds.
pub open spec fn opt_str(s: Option<String>) -> Option<Seq<char>> {
    match s {
        Some(t) => Some(t@),
        None => None,
    }
}

/// The characters of a string.
pub fn chars_of(s: &str) -> (v: Vec<char>)
    ensures
        v@ == s@,
{
    let mut v: Vec<char> = Vec::new();
    for c in it: s.chars()
        invariant
            v@ == s@.take(it.index() as int),
            it.seq() == s@,
    {
        v.push(c);
    }
    v
}

/// A string of the given characters.
pub fn string_of(s: &[char]) -> (r: String)
    ensures
        r@ == s@,
{
    let mut r: String = String::new();
    let mut i: usize = 0;
    while i < s.len()
        invariant
            i <= s.len(),
            r@ == s@.take(i as int),
        decreases s.len() - i,
    {
        r.push(s[i]);
        i += 1;
    }
    assert(s@.take(i as int) =~= s@);
    r
}

/// A copy of a text.
pub fn copy_chars(s: &[char]) -> (r: Vec<char>)
    ensures
        r@ == s@,
{
    let mut r: Vec<char> = Vec::new();
    push_chars(&mut r, s);
    r
}

/// A copy of a string.
pub fn copy_of(s: &String) -> (r: String)
    ensures
        r@ == s@,
{
    s.clone()
}

/// The text without its leading white space.
pub open spec fn trim_start(s: Seq<char>) -> Seq<char>
    decreases s.len(),
{
    if s.len() > 0 && white(s[0]) {
        trim_start(s.skip(1))
    } else {
        s
    }
}

/// The text without its trailing white space.
pub open spec fn trim_end(s: Seq<char>) -> Seq<char>
    decreases s.len(),
{
    if s.len() > 0 && white(s.last()) {
        trim_end(s.drop_last())
    } else {
        s
    }
}

/// The text without the white space at both ends.
pub open spec fn trim(s: Seq<char>) -> Seq<char> {
    trim_end(trim_start(s))
}

pub fn trim_start_of<'a>(s: &'a [char]) -> (r: &'a [char])
    ensures
        r@ == trim_start(s@),
        r@.len() <= s@.len(),
{
    let mut i: usize = 0;
    assert(s@.skip(0) =~= s@);
    while i < s.len() && s[i].is_whitespace()
        invariant
            i <= s.len(),
            trim_start(s@) == trim_start(s@.skip(i as int)),
        decreases s.len() - i,
    {
        assert(s@.skip(i as int).skip(1) =~= s@.skip(i + 1));
        i += 1;
    }
    assert(s@.skip(i as int) =~= s@.subrange(i as int, s@.len() as int));
    slice_subrange(s, i, s.len())
}

pub fn trim_end_of<'a>(s: &'a [char]) -> (r: &'a [char])
    ensures
        r@ == trim_end(s@),
        r@.len() <= s@.len(),
{
    let mut i: usize = s.len();
    assert(s@.take(i as int) =~= s@);
    while i > 0 && s[i - 1].is_whitespace()
        invariant
            i <= s.len(),
            trim_end(s@) == trim_end(s@.take(i as int)),
        decreases i,
    {
        assert(s@.take(i as int).drop_last() =~= s@.take(i - 1));
        i -= 1;
    }
    assert(s@.take(i as int) =~= s@.subrange(0, i as int));
    slice_subrange(s, 0, i)
}

pub fn trim_of<'a>(s: &'a [char]) -> (r: &'a [char])
    ensures
        r@ == trim(s@),
        r@.len() <= s@.len(),
{
    trim_end_of(trim_start_of(s))
}

/// Do two texts hold the same characters?
pub fn same_chars(a: &[char], b: &[char]) -> (r: bool)
    ensures
        r == (a@ == b@),
{
    if a.len() != b.len() {
        return false;
    }
    let mut i: usize = 0;
    while i < a.len()
        invariant
            i <= a.len(),
            a.len() == b.len(),
            forall|j: int| 0 <= j < i ==> a@[j] == b@[j],
        decreases a.len() - i,
    {
        if a[i] != b[i] {
            return false;
        }
        i += 1;
    }
    assert(a@ =~= b@);
    true
}

/// Does a text hold exactly the characters of a string?
pub fn is_text(a: &[char], b: &str) -> (r: bool)
    ensures
        r == (a@ == b@),
{
    let v = chars_of(b);
    same_chars(a, v.as_slice())
}

/// Are two strings equal?
pub fn same_str(a: &str, b: &str) -> (r: bool)
    ensures
        r == (a@ == b@),
{
    let v = chars_of(a);
    is_text(v.as_slice(), b)
}

/// Are two optional strings equal?
pub fn same_opt(a: &Option<String>, b: &Option<String>) -> (r: bool)
    ensures
        r == (opt_str(*a) == opt_str(*b)),
{
    match (a, b) {
        (Some(x), Some(y)) => *x == *y,
        (None, None) => true,
        _ => false,
    }
}

/// The ASCII capitals, as code points.
pub open spec fn ascii_upper(c: char) -> bool {
    0x41 <= c as u32 <= 0x5a
}

pub open spec fn ascii_lower(c: char) -> bool {
    0x61 <= c as u32 <= 0x7a
}

pub open spec fn ascii_digit(c: char) -> bool {
    0x30 <= c as u32 <= 0x39
}

pub open spec fn ascii_alnum(c: char) -> bool {
    ascii_upper(c) || ascii_lower(c) || ascii_digit(c)
}

pub fn is_ascii_upper(c: char) -> (r: bool)
    ensures
        r == ascii_upper(c),
{
    0x41 <= c as u32 && c as u32 <= 0x5a
}

pub fn is_ascii_lower(c: char) -> (r: bool)
    ensures
        r == ascii_lower(c),
{
    0x61 <= c as u32 && c as u32 <= 0x7a
}

pub fn is_ascii_digit(c: char) -> (r: bool)
    ensures
        r == ascii_digit(c),
{
    0x30 <= c as u32 && c as u32 <= 0x39
}

pub fn is_ascii_alnum(c: char) -> (r: bool)
    ensures
        r == ascii_alnum(c),
{
    is_ascii_upper(c) || is_ascii_lower(c) || is_ascii_digit(c)
}

/// An ASCII capital as its small letter, and any other character unchanged.
pub open spec fn lower_char(c: char) -> char {
    if ascii_upper(c) {
        (c as u32 + 0x20) as char
    } else {
        c
    }
}

/// A small ASCII letter as its capital, and any other character unchanged.
pub open spec fn upper_char(c: char) -> char {
    if ascii_lower(c) {
        (c as u32 - 0x20) as char
    } else {
        c
    }
}

pub fn to_lower_char(c: char) -> (r: char)
    ensures
        r == lower_char(c),
{
    if is_ascii_upper(c) {
        (c as u8 + 0x20) as char
    } else {
        c
    }
}

pub fn to_upper_char(c: char) -> (r: char)
    ensures
        r == upper_char(c),
{
    if is_ascii_lower(c) {
        (c as u8 - 0x20) as char
    } else {
        c
    }
}

/// A text with every ASCII capital made small.
pub open spec fn lower(s: Seq<char>) -> Seq<char> {
    s.map_values(|c: char| lower_char(c))
}

pub fn lower_of(s: &[char]) -> (r: Vec<char>)
    ensures
        r@ == lower(s@),
{
    let mut r: Vec<char> = Vec::new();
    let mut i: usize = 0;
    while i < s.len()
        invariant
            i <= s.len(),
            r@ == lower(s@.take(i as int)),
        decreases s.len() - i,
    {
        r.push(to_lower_char(s[i]));
        i += 1;
    }
    assert(s@.take(i as int) =~= s@);
    r
}

/// Where a character first stands, or the length where it does not.
pub open spec fn first_at(s: Seq<char>, c: char) -> int
    decreases s.len(),
{
    if s.len() == 0 {
        0
    } else if s[0] == c {
        0
    } else {
        1 + first_at(s.skip(1), c)
    }
}

/// [`first_at`] is the least position of the character.
pub proof fn first_at_is_least(s: Seq<char>, c: char)
    ensures
        0 <= first_at(s, c) <= s.len(),
        first_at(s, c) < s.len() ==> s[first_at(s, c)] == c,
        forall|j: int| 0 <= j < first_at(s, c) ==> s[j] != c,
        first_at(s, c) < s.len() <==> s.contains(c),
    decreases s.len(),
{
    if s.len() > 0 && s[0] != c {
        first_at_is_least(s.skip(1), c);
        let k = first_at(s.skip(1), c);
        assert forall|j: int| 0 <= j < 1 + k implies s[j] != c by {
            if j > 0 {
                assert(s[j] == s.skip(1)[j - 1]);
            }
        }
        if s.contains(c) {
            let j = choose|j: int| 0 <= j < s.len() && s[j] == c;
            assert(s.skip(1)[j - 1] == c);
        }
    }
}

pub fn find_char(s: &[char], c: char) -> (r: usize)
    ensures
        r == first_at(s@, c),
        r <= s.len(),
{
    let mut i: usize = 0;
    assert(s@.skip(0) =~= s@);
    while i < s.len() && s[i] != c
        invariant
            i <= s.len(),
            first_at(s@, c) == i + first_at(s@.skip(i as int), c),
        decreases s.len() - i,
    {
        assert(s@.skip(i as int).skip(1) =~= s@.skip(i + 1));
        i += 1;
    }
    i
}

pub fn has_char(s: &[char], c: char) -> (r: bool)
    ensures
        r == s@.contains(c),
{
    proof {
        first_at_is_least(s@, c);
    }
    find_char(s, c) < s.len()
}

/// The value of a decimal numeral.
pub open spec fn numeral(d: Seq<char>) -> nat
    decreases d.len(),
{
    if d.len() == 0 {
        0
    } else {
        numeral(d.drop_last()) * 10 + (d.last() as u32 - 0x30) as nat
    }
}

/// Is every character an ASCII digit?
pub open spec fn all_digits(d: Seq<char>) -> bool {
    forall|j: int| 0 <= j < d.len() ==> ascii_digit(#[trigger] d[j])
}

/// The number that a text spells: an optional sign, then one or more ASCII
/// digits, within a range.
pub open spec fn parsed_int(s: Seq<char>, lo: int, hi: int) -> Option<int> {
    let signed = s.len() > 0 && (s[0] == '-' || s[0] == '+');
    let d = if signed {
        s.skip(1)
    } else {
        s
    };
    let v: int = if signed && s[0] == '-' {
        -(numeral(d) as int)
    } else {
        numeral(d) as int
    };
    if d.len() > 0 && all_digits(d) && lo <= v <= hi {
        Some(v)
    } else {
        None
    }
}

/// The `i32` that a text spells.
pub open spec fn parsed_i32(s: Seq<char>) -> Option<int> {
    parsed_int(s, i32::MIN as int, i32::MAX as int)
}

/// The `i64` that a text spells.
pub open spec fn parsed_i64(s: Seq<char>) -> Option<int> {
    parsed_int(s, i64::MIN as int, i64::MAX as int)
}

proof fn numeral_grows(d: Seq<char>, k: int)
    requires
        0 <= k <= d.len(),
    ensures
        numeral(d.take(k)) <= numeral(d),
    decreases d.len() - k,
{
    if k == d.len() {
        assert(d.take(k) =~= d);
    } else {
        numeral_grows(d, k + 1);
        assert(d.take(k + 1).drop_last() =~= d.take(k));
    }
}

/// Reads a number within a range as `str::parse` does.
pub fn parse_int(s: &[char], lo: i64, hi: i64) -> (r: Option<i64>)
    ensures
        match r {
            Some(v) => parsed_int(s@, lo as int, hi as int) == Some(v as int),
            None => parsed_int(s@, lo as int, hi as int) is None,
        },
{
    let signed = s.len() > 0 && (s[0] == '-' || s[0] == '+');
    let negative = signed && s[0] == '-';
    let from: usize = if signed {
        1
    } else {
        0
    };
    let ghost d = if signed {
        s@.skip(1)
    } else {
        s@
    };
    assert(s@.skip(0) =~= s@);
    if from >= s.len() {
        return None;
    }
    let mut n: i128 = 0;
    let mut i: usize = from;
    while i < s.len()
        invariant
            from <= i <= s.len(),
            d == s@.skip(from as int),
            0 <= n <= 0x8000_0000_0000_0000,
            n == numeral(d.take(i - from)),
            forall|j: int| 0 <= j < i - from ==> ascii_digit(#[trigger] d[j]),
            d == (if signed {
                s@.skip(1)
            } else {
                s@
            }),
            signed == (s@.len() > 0 && (s@[0] == '-' || s@[0] == '+')),
            negative == (signed && s@[0] == '-'),
        decreases s.len() - i,
    {
        let c = s[i];
        assert(c == d[i - from]);
        if !is_ascii_digit(c) {
            return None;
        }
        assert(d.take(i - from + 1).drop_last() =~= d.take(i - from));
        let m: i128 = n * 10 + (c as u32 - 0x30) as i128;
        assert(m == numeral(d.take(i - from + 1)));
        if m > 0x8000_0000_0000_0000 {
            proof {
                numeral_grows(d, i - from + 1);
            }
            return None;
        }
        n = m;
        i += 1;
    }
    assert(d.take(i - from) =~= d);
    let v: i128 = if negative {
        -n
    } else {
        n
    };
    if lo as i128 <= v && v <= hi as i128 {
        Some(v as i64)
    } else {
        None
    }
}

/// Reads an `i32` as `str::parse` does.
pub fn parse_i32(s: &[char]) -> (r: Option<i32>)
    ensures
        match r {
            Some(v) => parsed_i32(s@) == Some(v as int),
            None => parsed_i32(s@) is None,
        },
{
    match parse_int(s, i32::MIN as i64, i32::MAX as i64) {
        Some(v) => Some(v as i32),
        None => None,
    }
}

/// Reads an `i64` as `str::parse` does.
pub fn parse_i64(s: &[char]) -> (r: Option<i64>)
    ensures
        match r {
            Some(v) => parsed_i64(s@) == Some(v as int),
            None => parsed_i64(s@) is None,
        },
{
    parse_int(s, i64::MIN, i64::MAX)
}

/// The `u64` that a text spells: an optional `+`, then one or more ASCII
/// digits.
pub open spec fn parsed_u64(s: Seq<char>) -> Option<int> {
    let d = if s.len() > 0 && s[0] == '+' {
        s.skip(1)
    } else {
        s
    };
    if d.len() > 0 && all_digits(d) && numeral(d) <= u64::MAX {
        Some(numeral(d) as int)
    } else {
        None
    }
}

/// Reads a `u64` as `str::parse` does.
pub fn parse_u64(s: &[char]) -> (r: Option<u64>)
    ensures
        match r {
            Some(v) => parsed_u64(s@) == Some(v as int),
            None => parsed_u64(s@) is None,
        },
{
    let from: usize = if s.len() > 0 && s[0] == '+' {
        1
    } else {
        0
    };
    let ghost d = s@.skip(from as int);
    assert(s@.skip(0) =~= s@);
    if from >= s.len() {
        return None;
    }
    let mut n: u128 = 0;
    let mut i: usize = from;
    while i < s.len()
        invariant
            from <= i <= s.len(),
            d == s@.skip(from as int),
            n <= u64::MAX,
            n == numeral(d.take(i - from)),
            forall|j: int| 0 <= j < i - from ==> ascii_digit(#[trigger] d[j]),
            d == (if s@.len() > 0 && s@[0] == '+' {
                s@.skip(1)
            } else {
                s@
            }),
        decreases s.len() - i,
    {
        let c = s[i];
        assert(c == d[i - from]);
        if !is_ascii_digit(c) {
            return None;
        }
        assert(d.take(i - from + 1).drop_last() =~= d.take(i - from));
        let m: u128 = n * 10 + (c as u32 - 0x30) as u128;
        assert(m == numeral(d.take(i - from + 1)));
        if m > u64::MAX as u128 {
            proof {
                numeral_grows(d, i - from + 1);
            }
            return None;
        }
        n = m;
        i += 1;
    }
    assert(d.take(i - from) =~= d);
    Some(n as u64)
}

/// Does the text begin with a prefix?
pub open spec fn begins(s: Seq<char>, p: Seq<char>) -> bool {
    p.len() <= s.len() && s.take(p.len() as int) == p
}

/// Does the text end with a suffix?
pub open spec fn ends(s: Seq<char>, p: Seq<char>) -> bool {
    p.len() <= s.len() && s.skip(s.len() - p.len()) == p
}

pub fn begins_with(s: &[char], p: &[char]) -> (r: bool)
    ensures
        r == begins(s@, p@),
{
    if p.len() > s.len() {
        return false;
    }
    assert(s@.take(p@.len() as int) =~= s@.subrange(0, p@.len() as int));
    same_chars(slice_subrange(s, 0, p.len()), p)
}

pub fn ends_with(s: &[char], p: &[char]) -> (r: bool)
    ensures
        r == ends(s@, p@),
{
    if p.len() > s.len() {
        return false;
    }
    assert(s@.skip(s@.len() - p@.len()) =~= s@.subrange(s@.len() - p@.len(), s@.len() as int));
    same_chars(slice_subrange(s, s.len() - p.len(), s.len()), p)
}

/// A text with every occurrence of one character replaced by a text.
pub open spec fn replaced(s: Seq<char>, c: char, with: Seq<char>) -> Seq<char>
    decreases s.len(),
{
    if s.len() == 0 {
        seq![]
    } else {
        let rest = replaced(s.drop_last(), c, with);
        if s.last() == c {
            rest + with
        } else {
            rest.push(s.last())
        }
    }
}

/// Appends a text.
pub fn push_chars(out: &mut Vec<char>, s: &[char])
    ensures
        final(out)@ == old(out)@ + s@,
{
    let mut i: usize = 0;
    while i < s.len()
        invariant
            i <= s.len(),
            out@ == old(out)@ + s@.take(i as int),
        decreases s.len() - i,
    {
        out.push(s[i]);
        i += 1;
    }
    assert(s@.take(i as int) =~= s@);
}

pub fn replace_char(s: &[char], c: char, with: &[char]) -> (r: Vec<char>)
    ensures
        r@ == replaced(s@, c, with@),
{
    let mut r: Vec<char> = Vec::new();
    let mut i: usize = 0;
    while i < s.len()
        invariant
            i <= s.len(),
            r@ == replaced(s@.take(i as int), c, with@),
        decreases s.len() - i,
    {
        assert(s@.take(i + 1).drop_last() =~= s@.take(i as int));
        if s[i] == c {
            push_chars(&mut r, with);
        } else {
            r.push(s[i]);
        }
        i += 1;
    }
    assert(s@.take(i as int) =~= s@);
    r
}

/// A list of texts with a separator between each two.
pub open spec fn joined(parts: Seq<Seq<char>>, sep: Seq<char>) -> Seq<char>
    decreases parts.len(),
{
    if parts.len() == 0 {
        seq![]
    } else if parts.len() == 1 {
        parts[0]
    } else {
        joined(parts.drop_last(), sep) + sep + parts.last()
    }
}

pub fn join(parts: &[String], sep: &str) -> (r: String)
    ensures
        r@ == joined(strs(parts@), sep@),
{
    let mut r: String = String::new();
    let mut i: usize = 0;
    while i < parts.len()
        invariant
            i <= parts.len(),
            r@ == joined(strs(parts@.take(i as int)), sep@),
        decreases parts.len() - i,
    {
        assert(strs(parts@.take(i + 1)).drop_last() =~= strs(parts@.take(i as int)));
        if i > 0 {
            r.append(sep);
        }
        r.append(parts[i].as_str());
        i += 1;
    }
    assert(parts@.take(i as int) =~= parts@);
    r
}

/// Is a text a member of a list of strings?
pub fn list_has(list: &[String], s: &str) -> (r: bool)
    ensures
        r == strs(list@).contains(s@),
{
    let mut i: usize = 0;
    while i < list.len()
        invariant
            i <= list.len(),
            forall|j: int| 0 <= j < i ==> list@[j]@ != s@,
        decreases list.len() - i,
    {
        if same_str(list[i].as_str(), s) {
            assert(strs(list@)[i as int] == s@);
            return true;
        }
        i += 1;
    }
    assert forall|j: int| 0 <= j < list@.len() implies strs(list@)[j] != s@ by {}
    false
}

/// A copy of a list of strings.
pub fn copy_list(v: &Vec<String>) -> (r: Vec<String>)
    ensures
        r@ == v@,
        strs(r@) == strs(v@),
{
    let mut r: Vec<String> = Vec::new();
    let mut i: usize = 0;
    while i < v.len()
        invariant
            i <= v@.len(),
            r@ == v@.take(i as int),
        decreases v@.len() - i,
    {
        r.push(v[i].clone());
        i += 1;
    }
    assert(v@.take(i as int) =~= v@);
    r
}

/// A copy of an optional string.
pub fn copy_opt(s: &Option<String>) -> (r: Option<String>)
    ensures
        r == *s,
{
    match s {
        Some(t) => Some(t.clone()),
        None => None,
    }
}

/// Do two lists hold the same strings?
pub fn same_list(a: &Vec<String>, b: &Vec<String>) -> (r: bool)
    ensures
        r == (strs(a@) == strs(b@)),
{
    if a.len() != b.len() {
        assert(strs(a@).len() == a@.len());
        assert(strs(b@).len() == b@.len());
        return false;
    }
    let mut i: usize = 0;
    while i < a.len()
        invariant
            i <= a@.len(),
            a@.len() == b@.len(),
            forall|j: int| 0 <= j < i ==> a@[j]@ == b@[j]@,
        decreases a@.len() - i,
    {
        if a[i] != b[i] {
            assert(strs(a@)[i as int] != strs(b@)[i as int]);
            return false;
        }
        i += 1;
    }
    assert(strs(a@) =~= strs(b@));
    true
}

/// How long the first word of a text is.
pub open spec fn word_len(s: Seq<char>) -> int
    decreases s.len(),
{
    if s.len() == 0 || white(s[0]) {
        0
    } else {
        1 + word_len(s.skip(1))
    }
}

pub proof fn word_len_bounds(s: Seq<char>)
    ensures
        0 <= word_len(s) <= s.len(),
        s.len() > 0 && !white(s[0]) ==> word_len(s) > 0,
    decreases s.len(),
{
    if s.len() > 0 && !white(s[0]) {
        word_len_bounds(s.skip(1));
    }
}

pub proof fn trim_start_shape(s: Seq<char>)
    ensures
        trim_start(s).len() <= s.len(),
        trim_start(s).len() > 0 ==> !white(trim_start(s)[0]),
    decreases s.len(),
{
    if s.len() > 0 && white(s[0]) {
        trim_start_shape(s.skip(1));
    }
}

pub proof fn trim_end_shape(s: Seq<char>)
    ensures
        trim_end(s).len() <= s.len(),
        trim_end(s) == s.take(trim_end(s).len() as int),
        trim_end(s).len() > 0 ==> !white(trim_end(s).last()),
    decreases s.len(),
{
    if s.len() > 0 && white(s.last()) {
        trim_end_shape(s.drop_last());
        let n = trim_end(s).len() as int;
        assert(s.drop_last().take(n) =~= s.take(n));
    } else {
        assert(s.take(s.len() as int) =~= s);
    }
}

/// Trimming takes white space off both ends and nothing else: what is left is a
/// part of the text, with only white space before and behind it, and none at
/// its own ends.
pub proof fn trimming_takes_white_space_only(s: Seq<char>) -> (k: int)
    ensures
        0 <= k,
        k + trim(s).len() <= s.len(),
        trim(s) == s.subrange(k, k + trim(s).len()),
        forall|i: int| 0 <= i < k ==> white(#[trigger] s[i]),
        forall|i: int| k + trim(s).len() <= i < s.len() ==> white(#[trigger] s[i]),
        trim(s).len() > 0 ==> !white(trim(s)[0]) && !white(trim(s).last()),
{
    let k = start_trimmed(s);
    let t = trim_start(s);
    end_trimmed(t);
    trim_start_shape(s);
    trim_end_shape(t);
    let n = trim(s).len() as int;
    assert(trim(s) =~= s.subrange(k, k + n));
    assert forall|i: int| k + n <= i < s.len() implies white(#[trigger] s[i]) by {
        assert(t[i - k] == s[i]);
    }
    k
}

proof fn start_trimmed(s: Seq<char>) -> (k: int)
    ensures
        0 <= k <= s.len(),
        trim_start(s) == s.skip(k),
        forall|i: int| 0 <= i < k ==> white(#[trigger] s[i]),
    decreases s.len(),
{
    if s.len() > 0 && white(s[0]) {
        let k = start_trimmed(s.skip(1));
        assert(s.skip(1).skip(k) =~= s.skip(k + 1));
        assert forall|i: int| 0 <= i < k + 1 implies white(#[trigger] s[i]) by {
            if i > 0 {
                assert(s.skip(1)[i - 1] == s[i]);
            }
        }
        k + 1
    } else {
        assert(s.skip(0) =~= s);
        0
    }
}

proof fn end_trimmed(s: Seq<char>)
    ensures
        trim_end(s).len() <= s.len(),
        forall|i: int| trim_end(s).len() <= i < s.len() ==> white(#[trigger] s[i]),
    decreases s.len(),
{
    if s.len() > 0 && white(s.last()) {
        end_trimmed(s.drop_last());
        assert forall|i: int| trim_end(s).len() <= i < s.len() implies white(#[trigger] s[i]) by {
            if i < s.len() - 1 {
                assert(s.drop_last()[i] == s[i]);
            }
        }
    }
}

/// Trimmed text has nothing left to trim.
pub proof fn trimming_twice_is_trimming_once(s: Seq<char>)
    ensures
        trim(trim(s)) == trim(s),
{
    let t = trim_start(s);
    trim_start_shape(s);
    trim_end_shape(t);
    assert(trim_start(trim(s)) == trim(s));
}

/// The words of a text, parted by white space.
pub open spec fn words(s: Seq<char>) -> Seq<Seq<char>>
    decreases s.len(),
{
    let t = trim_start(s);
    if t.len() == 0 {
        seq![]
    } else {
        proof {
            trim_start_shape(s);
            word_len_bounds(t);
        }
        let k = word_len(t);
        seq![t.take(k)] + words(t.skip(k))
    }
}

pub fn words_of(s: &[char]) -> (r: Vec<Vec<char>>)
    ensures
        texts(r@) == words(s@),
{
    let mut out: Vec<Vec<char>> = Vec::new();
    let mut rest = s;
    assert(texts(out@) + words(rest@) =~= words(s@));
    loop
        invariant
            words(s@) == texts(out@) + words(rest@),
        decreases rest@.len(),
    {
        let t = trim_start_of(rest);
        proof {
            trim_start_shape(rest@);
            word_len_bounds(t@);
        }
        if t.len() == 0 {
            assert(texts(out@) + words(rest@) =~= texts(out@));
            return out;
        }
        let mut k: usize = 0;
        assert(t@.skip(0) =~= t@);
        while k < t.len() && !t[k].is_whitespace()
            invariant
                k <= t@.len(),
                word_len(t@) == k + word_len(t@.skip(k as int)),
            decreases t@.len() - k,
        {
            assert(t@.skip(k as int).skip(1) =~= t@.skip(k + 1));
            k += 1;
        }
        let word = slice_subrange(t, 0, k);
        assert(word@ =~= t@.take(k as int));
        let ghost before = texts(out@);
        out.push(copy_chars(word));
        assert(texts(out@) =~= before.push(t@.take(k as int)));
        let next = slice_subrange(t, k, t.len());
        assert(next@ =~= t@.skip(k as int));
        assert(texts(out@) + words(next@) =~= before + (seq![t@.take(k as int)] + words(next@)));
        rest = next;
    }
}

/// How two texts compare, character by character: -1 where the first comes
/// first, 1 where the second does. This is the order of their UTF-8 bytes too.
pub open spec fn lex(a: Seq<char>, b: Seq<char>) -> int
    decreases a.len(),
{
    if a.len() == 0 && b.len() == 0 {
        0
    } else if a.len() == 0 {
        -1
    } else if b.len() == 0 {
        1
    } else if (a[0] as u32) < (b[0] as u32) {
        -1
    } else if (a[0] as u32) > (b[0] as u32) {
        1
    } else {
        lex(a.skip(1), b.skip(1))
    }
}

/// Turned round, two texts compare the other way.
pub proof fn lex_turns(a: Seq<char>, b: Seq<char>)
    ensures
        lex(a, b) == -lex(b, a),
    decreases a.len(),
{
    if a.len() > 0 && b.len() > 0 && a[0] as u32 == b[0] as u32 {
        lex_turns(a.skip(1), b.skip(1));
    }
}

/// How two lists of texts compare, text by text.
pub open spec fn lex_list(a: Seq<Seq<char>>, b: Seq<Seq<char>>) -> int
    decreases a.len(),
{
    if a.len() == 0 && b.len() == 0 {
        0
    } else if a.len() == 0 {
        -1
    } else if b.len() == 0 {
        1
    } else if lex(a[0], b[0]) != 0 {
        lex(a[0], b[0])
    } else {
        lex_list(a.skip(1), b.skip(1))
    }
}

pub fn compare_text(a: &[char], b: &[char]) -> (r: i8)
    ensures
        r == lex(a@, b@),
{
    let mut i: usize = 0;
    assert(a@.skip(0) =~= a@);
    assert(b@.skip(0) =~= b@);
    while i < a.len() && i < b.len()
        invariant
            i <= a@.len(),
            i <= b@.len(),
            lex(a@, b@) == lex(a@.skip(i as int), b@.skip(i as int)),
        decreases a@.len() - i,
    {
        if (a[i] as u32) < (b[i] as u32) {
            return -1;
        }
        if (a[i] as u32) > (b[i] as u32) {
            return 1;
        }
        assert(a@.skip(i as int).skip(1) =~= a@.skip(i + 1));
        assert(b@.skip(i as int).skip(1) =~= b@.skip(i + 1));
        i += 1;
    }
    if i < b.len() {
        -1
    } else if i < a.len() {
        1
    } else {
        0
    }
}

/// Where two texts first differ decides which comes first: the lower
/// character, or the end of the shorter one. Equal texts stand level.
pub proof fn the_first_difference_decides(a: Seq<char>, b: Seq<char>, k: int)
    requires
        0 <= k <= a.len(),
        k <= b.len(),
        a.take(k) == b.take(k),
        k == a.len() || k == b.len() || a[k] != b[k],
    ensures
        k == a.len() && k == b.len() ==> lex(a, b) == 0,
        k == a.len() && k < b.len() ==> lex(a, b) < 0 < lex(b, a),
        k < a.len() && k < b.len() && (a[k] as u32) < (b[k] as u32) ==> lex(a, b) < 0 < lex(b, a),
    decreases k,
{
    if k > 0 {
        assert(a.take(k)[0] == a[0] && b.take(k)[0] == b[0]);
        assert forall|i: int| 0 <= i < k - 1 implies #[trigger] a.skip(1).take(k - 1)[i] == b.skip(
            1,
        ).take(k - 1)[i] by {
            assert(a.take(k)[i + 1] == a[i + 1] && b.take(k)[i + 1] == b[i + 1]);
        }
        assert(a.skip(1).take(k - 1) =~= b.skip(1).take(k - 1));
        the_first_difference_decides(a.skip(1), b.skip(1), k - 1);
    }
}

proof fn char_by_code(a: char, b: char)
    ensures
        a as u32 == b as u32 ==> a == b,
{
}

proof fn lex_level(a: Seq<char>, b: Seq<char>)
    ensures
        lex(a, b) == 0 <==> a == b,
        -1 <= lex(a, b) <= 1,
    decreases a.len(),
{
    if a.len() > 0 && b.len() > 0 {
        lex_level(a.skip(1), b.skip(1));
        char_by_code(a[0], b[0]);
        if a[0] == b[0] && a.skip(1) == b.skip(1) {
            assert(a =~= seq![a[0]] + a.skip(1));
            assert(b =~= seq![b[0]] + b.skip(1));
        }
    } else if a.len() == 0 && b.len() == 0 {
        assert(a =~= b);
    }
}

proof fn lex_chains(a: Seq<char>, b: Seq<char>, c: Seq<char>)
    requires
        lex(a, b) <= 0,
        lex(b, c) <= 0,
    ensures
        lex(a, c) <= 0,
        lex(a, b) < 0 || lex(b, c) < 0 ==> lex(a, c) < 0,
    decreases a.len(),
{
    if a.len() > 0 && b.len() > 0 && c.len() > 0 {
        char_by_code(a[0], b[0]);
        char_by_code(b[0], c[0]);
        if a[0] == b[0] && b[0] == c[0] {
            lex_chains(a.skip(1), b.skip(1), c.skip(1));
        }
    }
}

/// The first entry in which two lists differ decides which comes first, and
/// where none does, the shorter list.
pub proof fn the_first_differing_entry_decides(a: Seq<Seq<char>>, b: Seq<Seq<char>>, k: int)
    requires
        0 <= k <= a.len(),
        k <= b.len(),
        a.take(k) == b.take(k),
    ensures
        k == a.len() && k == b.len() ==> lex_list(a, b) == 0,
        k == a.len() && k < b.len() ==> lex_list(a, b) < 0 < lex_list(b, a),
        k < a.len() && k < b.len() && lex(a[k], b[k]) < 0 ==> lex_list(a, b) < 0 < lex_list(b, a),
    decreases k,
{
    if k > 0 {
        assert(a.take(k)[0] == b.take(k)[0]);
        lex_level(a[0], b[0]);
        lex_level(b[0], a[0]);
        assert forall|i: int| 0 <= i < k - 1 implies a.skip(1)[i] == b.skip(1)[i] by {
            assert(a.take(k)[i + 1] == b.take(k)[i + 1]);
        }
        assert(a.skip(1).take(k - 1) =~= b.skip(1).take(k - 1));
        the_first_differing_entry_decides(a.skip(1), b.skip(1), k - 1);
    } else if a.len() > 0 && b.len() > 0 {
        lex_turns(a[0], b[0]);
    }
}

/// The order of lists is one: it is level on equal lists only, it turns round,
/// and it chains.
pub proof fn lists_stand_in_one_order(a: Seq<Seq<char>>, b: Seq<Seq<char>>, c: Seq<Seq<char>>)
    ensures
        lex_list(a, b) == 0 <==> a == b,
        lex_list(a, b) == -lex_list(b, a),
        lex_list(a, b) <= 0 && lex_list(b, c) <= 0 ==> lex_list(a, c) <= 0,
        lex_list(a, b) <= 0 && lex_list(b, c) <= 0 && (lex_list(a, b) < 0 || lex_list(b, c) < 0)
            ==> lex_list(a, c) < 0,
    decreases a.len(),
{
    if a.len() > 0 && b.len() > 0 {
        lex_level(a[0], b[0]);
        lex_turns(a[0], b[0]);
        if c.len() > 0 {
            lex_level(b[0], c[0]);
            lex_level(a[0], c[0]);
            if lex(a[0], b[0]) <= 0 && lex(b[0], c[0]) <= 0 {
                lex_chains(a[0], b[0], c[0]);
            }
        }
        lists_stand_in_one_order(a.skip(1), b.skip(1), c.skip(1));
        if a[0] == b[0] && a.skip(1) == b.skip(1) {
            assert(a =~= seq![a[0]] + a.skip(1));
            assert(b =~= seq![b[0]] + b.skip(1));
        }
    } else if a.len() == 0 && b.len() == 0 {
        assert(a =~= b);
    }
}

pub fn compare_list(a: &Vec<String>, b: &Vec<String>) -> (r: i8)
    ensures
        r == lex_list(strs(a@), strs(b@)),
{
    let mut i: usize = 0;
    let ghost x = strs(a@);
    let ghost y = strs(b@);
    assert(x.skip(0) =~= x);
    assert(y.skip(0) =~= y);
    while i < a.len() && i < b.len()
        invariant
            i <= a@.len(),
            i <= b@.len(),
            x == strs(a@),
            y == strs(b@),
            lex_list(x, y) == lex_list(x.skip(i as int), y.skip(i as int)),
        decreases a@.len() - i,
    {
        let p = chars_of(a[i].as_str());
        let q = chars_of(b[i].as_str());
        let c = compare_text(p.as_slice(), q.as_slice());
        assert(x.skip(i as int)[0] == p@);
        assert(y.skip(i as int)[0] == q@);
        if c != 0 {
            return c;
        }
        assert(x.skip(i as int).skip(1) =~= x.skip(i + 1));
        assert(y.skip(i as int).skip(1) =~= y.skip(i + 1));
        i += 1;
    }
    if i < b.len() {
        -1
    } else if i < a.len() {
        1
    } else {
        0
    }
}

/// A number in decimal digits.
pub open spec fn decimal(n: nat) -> Seq<char>
    decreases n,
{
    if n < 10 {
        seq![(0x30 + n) as char]
    } else {
        decimal(n / 10).push((0x30 + n % 10) as char)
    }
}

/// A number in decimal digits, behind a minus sign where it is negative.
pub open spec fn signed(n: int) -> Seq<char> {
    if n < 0 {
        seq!['-'] + decimal((-n) as nat)
    } else {
        decimal(n as nat)
    }
}

fn digit(d: u64) -> (r: char)
    requires
        d < 10,
    ensures
        r == (0x30 + d) as char,
{
    let u = 0x30 + d as u8;
    u as char
}

pub fn decimal_of(n: u64) -> (r: Vec<char>)
    ensures
        r@ == decimal(n as nat),
    decreases n,
{
    if n < 10 {
        let mut out: Vec<char> = Vec::new();
        out.push(digit(n));
        assert(out@ =~= decimal(n as nat));
        out
    } else {
        let mut out = decimal_of(n / 10);
        out.push(digit(n % 10));
        out
    }
}

pub fn signed_of(n: i64) -> (r: Vec<char>)
    ensures
        r@ == signed(n as int),
{
    if n < 0 {
        let mut out: Vec<char> = Vec::new();
        out.push('-');
        let m: u64 = (-(n + 1)) as u64 + 1;
        push_chars(&mut out, decimal_of(m).as_slice());
        assert(out@ =~= signed(n as int));
        out
    } else {
        decimal_of(n as u64)
    }
}

/// A decimal reads back as the number it was written from.
pub proof fn a_decimal_reads_back(n: nat)
    ensures
        numeral(decimal(n)) == n,
        all_digits(decimal(n)),
        decimal(n).len() > 0,
    decreases n,
{
    reveal_with_fuel(numeral, 2);
    if n < 10 {
        let c = (0x30 + n) as char;
        assert(c as u32 == 0x30 + n);
        assert(decimal(n).drop_last() =~= seq![]);
        assert(decimal(n).last() == c);
    } else {
        a_decimal_reads_back(n / 10);
        let c = (0x30 + n % 10) as char;
        assert(c as u32 == 0x30 + n % 10);
        assert(decimal(n).drop_last() =~= decimal(n / 10));
        assert(decimal(n).last() == c);
    }
}

/// Where the last dot of a file name stands that has something before it, or
/// the length where there is none.
pub open spec fn last_dot(s: Seq<char>) -> int
    decreases s.len(),
{
    if s.len() <= 1 {
        -1
    } else if s.last() == '.' {
        s.len() - 1
    } else {
        last_dot(s.drop_last())
    }
}

/// A file name without its extension.
pub open spec fn stem(s: Seq<char>) -> Seq<char> {
    if last_dot(s) < 0 {
        s
    } else {
        s.take(last_dot(s))
    }
}

/// The extension of a file name, behind its dot, or nothing.
pub open spec fn extension(s: Seq<char>) -> Seq<char> {
    if last_dot(s) < 0 {
        seq![]
    } else {
        s.skip(last_dot(s))
    }
}

pub proof fn last_dot_bounds(s: Seq<char>)
    ensures
        -1 <= last_dot(s) < s.len() || s.len() == 0,
        last_dot(s) != 0,
        last_dot(s) >= -1,
    decreases s.len(),
{
    if s.len() > 1 && s.last() != '.' {
        last_dot_bounds(s.drop_last());
    }
}

/// A file name, parted in front of its extension.
pub fn split_extension(s: &[char]) -> (r: (Vec<char>, Vec<char>))
    ensures
        r.0@ == stem(s@),
        r.1@ == extension(s@),
{
    proof {
        last_dot_bounds(s@);
    }
    let mut k: usize = s.len();
    assert(s@.take(k as int) =~= s@);
    while k > 1
        invariant
            k <= s@.len(),
            last_dot(s@) == last_dot(s@.take(k as int)),
        decreases k,
    {
        assert(s@.take(k as int).last() == s@[k - 1]);
        assert(s@.take(k as int).drop_last() =~= s@.take(k - 1));
        if s[k - 1] == '.' {
            assert(s@.subrange(0, k - 1) =~= stem(s@));
            assert(s@.subrange(k - 1, s@.len() as int) =~= extension(s@));
            return (
                copy_chars(slice_subrange(s, 0, k - 1)),
                copy_chars(slice_subrange(s, k - 1, s.len())),
            );
        }
        k -= 1;
    }
    (copy_chars(s), Vec::new())
}

/// Does a text stand somewhere in another?
pub open spec fn within(s: Seq<char>, p: Seq<char>) -> bool {
    exists|i: int| 0 <= i <= s.len() && begins(#[trigger] s.skip(i), p)
}

pub fn has_part(s: &[char], p: &[char]) -> (r: bool)
    ensures
        r == within(s@, p@),
{
    let mut i: usize = 0;
    while i <= s.len()
        invariant
            i <= s@.len() + 1,
            forall|j: int| 0 <= j < i ==> !begins(#[trigger] s@.skip(j), p@),
        decreases s@.len() + 1 - i,
    {
        let rest = slice_subrange(s, i, s.len());
        assert(rest@ =~= s@.skip(i as int));
        if begins_with(rest, p) {
            return true;
        }
        if i == s.len() {
            return false;
        }
        i += 1;
    }
    false
}

/// Replacing a character by a text without it leaves none of it, changes
/// nothing where there was none, and keeps what stands on either side of it.
pub proof fn replacing_leaves_none(s: Seq<char>, c: char, with: Seq<char>)
    requires
        !with.contains(c),
    ensures
        !replaced(s, c, with).contains(c),
        !s.contains(c) ==> replaced(s, c, with) == s,
    decreases s.len(),
{
    if s.len() > 0 {
        let front = s.drop_last();
        replacing_leaves_none(front, c, with);
        let rest = replaced(front, c, with);
        let all = replaced(s, c, with);
        if all.contains(c) {
            let j = choose|j: int| 0 <= j < all.len() && all[j] == c;
            if j < rest.len() {
                assert(rest[j] == c);
            } else if s.last() == c {
                assert(with[j - rest.len()] == c);
            }
        }
        if !s.contains(c) {
            assert(s[s.len() - 1] == s.last());
            if front.contains(c) {
                let j = choose|j: int| 0 <= j < front.len() && front[j] == c;
                assert(s[j] == c);
            }
            assert(rest.push(s.last()) =~= s);
        }
    } else {
        assert(replaced(s, c, with) =~= s);
    }
}

/// Two texts one behind the other are replaced in one behind the other.
pub proof fn replacing_goes_part_by_part(a: Seq<char>, b: Seq<char>, c: char, with: Seq<char>)
    ensures
        replaced(a + b, c, with) == replaced(a, c, with) + replaced(b, c, with),
        replaced(seq![c], c, with) == with,
    decreases b.len(),
{
    assert(seq![c].drop_last() =~= seq![]);
    reveal_with_fuel(replaced, 2);
    assert(replaced(seq![c], c, with) =~= with);
    if b.len() == 0 {
        assert(a + b =~= a);
        assert(replaced(a, c, with) + seq![] =~= replaced(a, c, with));
    } else {
        assert((a + b).drop_last() =~= a + b.drop_last());
        replacing_goes_part_by_part(a, b.drop_last(), c, with);
        assert(replaced(a + b, c, with) =~= replaced(a, c, with) + replaced(b, c, with));
    }
}

/// What a filter leaves of a list is what it wants of it.
pub proof fn a_filter_leaves_what_it_wants<A>(s: Seq<A>, want: spec_fn(A) -> bool, x: A)
    ensures
        s.filter(want).contains(x) <==> s.contains(x) && want(x),
{
    broadcast use vstd::seq_lib::group_filter_ensures;

    let out = s.filter(want);
    if out.contains(x) {
        s.lemma_filter_contains_rev(want, x);
        let k = choose|k: int| 0 <= k < out.len() && out[k] == x;
        assert(want(out[k]));
    }
    if s.contains(x) && want(x) {
        let k = choose|k: int| 0 <= k < s.len() && s[k] == x;
        s.lemma_filter_contains(want, k);
    }
}

/// A file name's stem and extension are the name. The extension starts at the
/// last dot, which is not the first character, and a stem without one is the
/// whole name.
pub proof fn stem_and_extension_are_the_name(s: Seq<char>)
    ensures
        stem(s) + extension(s) == s,
        extension(s).len() > 0 ==> extension(s)[0] == '.' && stem(s).len() > 0 && forall|j: int|
            1 <= j < extension(s).len() ==> (#[trigger] extension(s)[j]) != '.',
        extension(s).len() == 0 ==> forall|j: int| 1 <= j < s.len() ==> (#[trigger] s[j]) != '.',
    decreases s.len(),
{
    last_dot_bounds(s);
    last_dot_is_last(s);
    let k = last_dot(s);
    if k < 0 {
        assert(stem(s) + extension(s) =~= s);
    } else {
        assert(stem(s) + extension(s) =~= s);
        assert(extension(s)[0] == s[k]);
        assert forall|j: int| 1 <= j < extension(s).len() implies (#[trigger] extension(s)[j]) != '.' by {
            assert(extension(s)[j] == s[k + j]);
        }
    }
}

proof fn last_dot_is_last(s: Seq<char>)
    ensures
        last_dot(s) > 0 ==> last_dot(s) < s.len() && s[last_dot(s)] == '.',
        forall|j: int| last_dot(s) < j < s.len() && j >= 1 ==> (#[trigger] s[j]) != '.',
    decreases s.len(),
{
    if s.len() > 1 && s.last() != '.' {
        let front = s.drop_last();
        last_dot_is_last(front);
        last_dot_bounds(front);
        assert forall|j: int| last_dot(s) < j < s.len() && j >= 1 implies (#[trigger] s[j]) != '.' by {
            if j < front.len() {
                assert(front[j] == s[j]);
            }
        }
        if last_dot(s) > 0 {
            assert(front[last_dot(s)] == s[last_dot(s)]);
        }
    }
}

/// A written number reads back as the number, whatever its sign.
pub proof fn a_signed_number_reads_back(n: int)
    requires
        i64::MIN <= n <= i64::MAX,
    ensures
        parsed_i64(signed(n)) == Some(n),
        i32::MIN <= n <= i32::MAX ==> parsed_i32(signed(n)) == Some(n),
        signed(n).len() > 0,
        forall|j: int|
            0 <= j < signed(n).len() ==> ascii_digit(#[trigger] signed(n)[j]) || signed(n)[j] == '-',
{
    let m: nat = if n < 0 {
        (-n) as nat
    } else {
        n as nat
    };
    a_decimal_reads_back(m);
    let d = decimal(m);
    assert(ascii_digit(d[0]));
    if n < 0 {
        let s = seq!['-'] + d;
        assert(s.skip(1) =~= d);
        assert forall|j: int| 0 <= j < s.len() implies ascii_digit(#[trigger] s[j]) || s[j] == '-' by {
            if j > 0 {
                assert(s[j] == d[j - 1]);
            }
        }
    }
}

proof fn solid_word_len(a: Seq<char>, rest: Seq<char>)
    requires
        forall|i: int| 0 <= i < a.len() ==> !white(#[trigger] a[i]),
        rest.len() == 0 || white(rest[0]),
    ensures
        word_len(a + rest) == a.len(),
    decreases a.len(),
{
    let s = a + rest;
    if a.len() > 0 {
        assert(s[0] == a[0]);
        let b = a.skip(1);
        assert forall|i: int| 0 <= i < b.len() implies !white(#[trigger] b[i]) by {
            assert(b[i] == a[i + 1]);
        }
        solid_word_len(b, rest);
        assert(s.skip(1) =~= b + rest);
    } else {
        assert(s =~= rest);
    }
}

/// The words of a text are what stands between its white space, in order: white
/// space before a word and between two is passed over, and a text without any
/// is one word.
pub proof fn words_stand_between_white_space(a: Seq<char>, c: char, b: Seq<char>)
    requires
        white(c),
        forall|i: int| 0 <= i < a.len() ==> !white(#[trigger] a[i]),
    ensures
        a.len() > 0 ==> words(a) == seq![a],
        a.len() > 0 ==> words(a + seq![c] + b) == seq![a] + words(b),
        words(seq![c] + b) == words(b),
        a.len() == 0 ==> words(a).len() == 0,
{
    let lone = seq![c] + b;
    assert(lone.skip(1) =~= b);
    assert(trim_start(lone) == trim_start(b));
    if a.len() > 0 {
        let none: Seq<char> = seq![];
        assert(a + none =~= a);
        solid_word_len(a, none);
        assert(trim_start(a) == a);
        assert(a.take(a.len() as int) =~= a);
        assert(a.skip(a.len() as int) =~= none);
        assert(trim_start(none) == none);
        assert(words(none) =~= seq![]);
        assert(words(a) =~= seq![a]);
        let s = a + seq![c] + b;
        assert(s =~= a + lone);
        solid_word_len(a, lone);
        assert(s[0] == a[0]);
        assert(trim_start(s) == s);
        assert(s.take(a.len() as int) =~= a);
        assert(s.skip(a.len() as int) =~= lone);
        assert(words(s) == seq![a] + words(lone));
    }
}

/// Joining two lists is joining each, with the separator between them.
pub proof fn joined_lists_join(a: Seq<Seq<char>>, b: Seq<Seq<char>>, sep: Seq<char>)
    requires
        a.len() > 0,
        b.len() > 0,
    ensures
        joined(a + b, sep) == joined(a, sep) + sep + joined(b, sep),
        a.len() == 1 ==> joined(a, sep) == a[0],
    decreases b.len(),
{
    let all = a + b;
    assert(all.last() == b.last());
    assert(all.drop_last() =~= a + b.drop_last());
    if b.len() == 1 {
        assert(b.drop_last() =~= seq![]);
        assert(all.drop_last() =~= a);
        assert(joined(all, sep) =~= joined(a, sep) + sep + joined(b, sep));
    } else {
        joined_lists_join(a, b.drop_last(), sep);
        assert(joined(all, sep) =~= joined(a, sep) + sep + joined(b, sep));
    }
}

/// Lowering a text leaves no capital, keeps every other character and makes
/// each capital the small letter of the same place in the alphabet.
pub proof fn lowering_leaves_no_capital(s: Seq<char>, i: int)
    requires
        0 <= i < s.len(),
    ensures
        lower(s).len() == s.len(),
        !('A' as u32 <= lower(s)[i] as u32 <= 'Z' as u32),
        !('A' as u32 <= s[i] as u32 <= 'Z' as u32) ==> lower(s)[i] == s[i],
        'A' as u32 <= s[i] as u32 <= 'Z' as u32 ==> lower(s)[i] as u32 - 'a' as u32 == s[i] as u32
            - 'A' as u32,
        lower(lower(s)) == lower(s),
{
    assert(lower(s)[i] == lower_char(s[i]));
    assert(lower(lower(s)) =~= lower(s));
}

/// A text stands in another exactly where it is a stretch of it.
pub proof fn a_part_is_a_stretch(a: Seq<char>, p: Seq<char>, b: Seq<char>)
    ensures
        within(a + p + b, p),
        within(a, p) ==> p.len() <= a.len(),
{
    let s = a + p + b;
    let k = a.len() as int;
    assert(s.skip(k).take(p.len() as int) =~= p);
    assert(begins(s.skip(k), p));
}

} // verus!
