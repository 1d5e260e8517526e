//! The rebuild: what its child process is told, and what a person hears of it.
use crate::chars::{
    a_decimal_reads_back, all_digits, begins, begins_with, chars_of, copy_chars, decimal,
    decimal_of, find_char, first_at, is_ascii_digit, parse_u64, parsed_u64, push_chars, replaced,
    replacing_goes_part_by_part, replacing_leaves_none, string_of, strs, trim, trim_of,
};
use crate::library::{is_zip, zip_named};
use vstd::prelude::*;
use vstd::slice::slice_subrange;

verus! {

/// What a rebuild reports.
#[derive(Debug, PartialEq, Eq)]
pub enum Progress {
    Line(String),
    /// The path of what was built.
    Done(String),
    Failed(String),
}

fn with_suffix(out: &str, suffix: &str) -> (r: String)
    ensures
        r@ == out@ + suffix@,
{
    let mut name = chars_of(out);
    push_chars(&mut name, chars_of(suffix).as_slice());
    string_of(name.as_slice())
}

/// `<out>` with `.tmp` appended.
pub fn tmp_path(out: &str) -> (r: String)
    ensures
        r@ == out@ + ".tmp"@,
{
    with_suffix(out, ".tmp")
}

/// Where a staged build lands.
pub fn staging_path(out: &str) -> (r: String)
    ensures
        r@ == out@ + ".new"@,
{
    with_suffix(out, ".new")
}

/// A staged build never writes to the file that a live build writes to, nor to
/// the database itself.
pub proof fn a_staged_build_has_files_of_its_own(out: Seq<char>)
    ensures
        out + ".tmp"@ != (out + ".new"@) + ".tmp"@,
        out + ".new"@ != out,
        out + ".tmp"@ != out,
        out + ".new"@ != out + ".tmp"@,
{
    reveal_strlit(".tmp");
    reveal_strlit(".new");
    assert((out + ".tmp"@).len() != ((out + ".new"@) + ".tmp"@).len());
    assert((out + ".new"@).len() != out.len());
    assert((out + ".tmp"@).len() != out.len());
    assert((out + ".new"@)[out.len() as int + 1] == 'n');
    assert((out + ".tmp"@)[out.len() as int + 1] == 't');
}

/// Three decimal digits.
pub open spec fn three_digits(n: nat) -> Seq<char> {
    seq![
        (0x30 + n / 100 % 10) as char,
        (0x30 + n / 10 % 10) as char,
        (0x30 + n % 10) as char,
    ]
}

/// A number with its digits grouped by comma.
pub open spec fn thousands(n: nat) -> Seq<char>
    decreases n,
{
    if n < 1000 {
        decimal(n)
    } else {
        thousands(n / 1000) + ","@ + three_digits(n % 1000)
    }
}

fn digit(n: u64) -> (r: char)
    requires
        n < 10,
    ensures
        r == (0x30 + n) as char,
{
    (0x30 + n as u8) as char
}

/// Groups digits by comma.
pub fn format_thousands(n: u64) -> (r: Vec<char>)
    ensures
        r@ == thousands(n as nat),
    decreases n,
{
    if n < 1000 {
        return decimal_of(n);
    }
    let mut out = format_thousands(n / 1000);
    let rest: u64 = n % 1000;
    push_chars(&mut out, chars_of(",").as_slice());
    let ghost head = out@;
    out.push(digit(rest / 100 % 10));
    out.push(digit(rest / 10 % 10));
    out.push(digit(rest % 10));
    assert(out@ =~= head + three_digits(rest as nat));
    out
}

/// The line about how far a build is.
pub open spec fn counted(rest: Seq<char>) -> Option<Seq<char>> {
    let body = trim(rest);
    let k = first_at(body, '/');
    if k >= body.len() {
        None
    } else {
        match (parsed_u64(trim(body.take(k))), parsed_u64(trim(body.skip(k + 1)))) {
            (Some(n), Some(t)) => Some(
                thousands(n as nat) + " of "@ + thousands(t as nat) + " entries…"@,
            ),
            _ => None,
        }
    }
}

/// The name of an archive, without the index that may stand before it.
pub open spec fn archive_name(rest: Seq<char>) -> Seq<char> {
    if rest.len() > 0 && rest[0] == '[' {
        let inner = rest.skip(1);
        let k = first_at(inner, ']');
        if 0 < k < inner.len() && all_digits(inner.take(k)) {
            trim(inner.skip(k + 1))
        } else {
            rest
        }
    } else {
        rest
    }
}

/// The line about the archive that a build reads.
pub open spec fn reading(rest: Seq<char>) -> Option<Seq<char>> {
    let name = archive_name(trim(rest));
    if name.len() == 0 {
        None
    } else {
        Some("Reading "@ + name + "…"@)
    }
}

/// One line of the child, for a person.
pub open spec fn told_plainly(line: Seq<char>) -> Option<Seq<char>> {
    if begins(line, "progress"@) {
        counted(line.skip(8))
    } else if begins(line, "building"@) {
        Some("Creating search index…"@)
    } else if begins(line, "term dict"@) || begins(line, "freq dict"@) {
        reading(line.skip(9))
    } else {
        None
    }
}

fn count_line(rest: &[char]) -> (r: Option<Vec<char>>)
    ensures
        counted(rest@) == (match r {
            Some(s) => Some(s@),
            None => None,
        }),
{
    let body = trim_of(rest);
    let k = find_char(body, '/');
    if k >= body.len() {
        return None;
    }
    assert(body@.subrange(0, k as int) =~= body@.take(k as int));
    assert(body@.subrange(k + 1, body@.len() as int) =~= body@.skip(k + 1));
    let n = parse_u64(trim_of(slice_subrange(body, 0, k)));
    let t = parse_u64(trim_of(slice_subrange(body, k + 1, body.len())));
    match (n, t) {
        (Some(n), Some(t)) => {
            let mut out = format_thousands(n);
            push_chars(&mut out, chars_of(" of ").as_slice());
            push_chars(&mut out, format_thousands(t).as_slice());
            push_chars(&mut out, chars_of(" entries…").as_slice());
            Some(out)
        },
        _ => None,
    }
}

fn is_number(s: &[char]) -> (r: bool)
    ensures
        r == all_digits(s@),
{
    let mut i: usize = 0;
    while i < s.len()
        invariant
            i <= s@.len(),
            forall|j: int| 0 <= j < i ==> crate::chars::ascii_digit(#[trigger] s@[j]),
        decreases s@.len() - i,
    {
        if !is_ascii_digit(s[i]) {
            assert(!crate::chars::ascii_digit(s@[i as int]));
            return false;
        }
        i += 1;
    }
    true
}

fn name_of_archive(rest: &[char]) -> (r: Vec<char>)
    ensures
        r@ == archive_name(rest@),
{
    if rest.len() > 0 && rest[0] == '[' {
        let inner = slice_subrange(rest, 1, rest.len());
        assert(rest@.subrange(1, rest@.len() as int) =~= rest@.skip(1));
        let k = find_char(inner, ']');
        if k > 0 && k < inner.len() {
            assert(inner@.subrange(0, k as int) =~= inner@.take(k as int));
            assert(inner@.subrange(k + 1, inner@.len() as int) =~= inner@.skip(k + 1));
            if is_number(slice_subrange(inner, 0, k)) {
                return copy_chars(trim_of(slice_subrange(inner, k + 1, inner.len())));
            }
        }
    }
    copy_chars(rest)
}

/// One child line, for a person. `None` for lines to swallow.
pub fn friendly(line: &str) -> (r: Option<String>)
    ensures
        told_plainly(line@) == (match r {
            Some(s) => Some(s@),
            None => None,
        }),
{
    proof {
        reveal_strlit("progress");
        reveal_strlit("building");
        reveal_strlit("term dict");
        reveal_strlit("freq dict");
    }
    let all = chars_of(line);
    if begins_with(all.as_slice(), chars_of("progress").as_slice()) {
        assert(all@.subrange(8, all@.len() as int) =~= all@.skip(8));
        return match count_line(slice_subrange(all.as_slice(), 8, all.len())) {
            Some(s) => Some(string_of(s.as_slice())),
            None => None,
        };
    }
    if begins_with(all.as_slice(), chars_of("building").as_slice()) {
        return Some("Creating search index…".to_owned());
    }
    if begins_with(all.as_slice(), chars_of("term dict").as_slice()) || begins_with(
        all.as_slice(),
        chars_of("freq dict").as_slice(),
    ) {
        assert(all@.subrange(9, all@.len() as int) =~= all@.skip(9));
        let name = name_of_archive(trim_of(slice_subrange(all.as_slice(), 9, all.len())));
        if name.len() == 0 {
            return None;
        }
        let mut out = chars_of("Reading ");
        push_chars(&mut out, name.as_slice());
        push_chars(&mut out, chars_of("…").as_slice());
        return Some(string_of(out.as_slice()));
    }
    None
}

/// How many of the first `n` names are archives.
pub open spec fn archives_in(names: Seq<Seq<char>>, n: int) -> nat
    decreases n,
{
    if n <= 0 {
        0
    } else {
        archives_in(names, n - 1) + (if zip_named(names[n - 1]) {
            1nat
        } else {
            0
        })
    }
}

/// How many archives a folder lists.
pub fn archive_count(listing: &Vec<String>) -> (r: usize)
    ensures
        r == archives_in(strs(listing@), listing@.len() as int),
{
    let ghost names = strs(listing@);
    let mut n: usize = 0;
    let mut i: usize = 0;
    while i < listing.len()
        invariant
            i <= listing@.len(),
            names == strs(listing@),
            n <= i,
            n == archives_in(names, i as int),
        decreases listing@.len() - i,
    {
        assert(names[i as int] == listing@[i as int]@);
        if is_zip(listing[i].as_str()) {
            n += 1;
        }
        i += 1;
    }
    n
}

/// Why a build does not start: a folder without archives would empty the
/// database.
pub fn refusal(library: &str, listing: &Vec<String>) -> (r: Option<String>)
    ensures
        r is Some <==> archives_in(strs(listing@), listing@.len() as int) == 0,
        r matches Some(m) ==> m@ == library@ + " holds no dictionary archives"@,
{
    if archive_count(listing) == 0 {
        return Some(with_suffix(library, " holds no dictionary archives"));
    }
    None
}

/// Where a character last stands in a text, or -1.
pub open spec fn last_at(s: Seq<char>, c: char) -> int
    decreases s.len(),
{
    if s.len() == 0 {
        -1
    } else if s.last() == c {
        s.len() - 1
    } else {
        last_at(s.drop_last(), c)
    }
}

proof fn last_at_bounds(s: Seq<char>, c: char)
    ensures
        -1 <= last_at(s, c) < s.len(),
    decreases s.len(),
{
    if s.len() > 0 && s.last() != c {
        last_at_bounds(s.drop_last(), c);
    }
}

/// The last line that is not blank, trimmed.
pub open spec fn last_solid(s: Seq<char>) -> Option<Seq<char>>
    decreases s.len(),
{
    let k = last_at(s, '\n');
    let line = trim(s.skip(k + 1));
    if line.len() > 0 {
        Some(line)
    } else if 0 <= k < s.len() {
        last_solid(s.take(k))
    } else {
        None
    }
}

fn find_last(s: &[char], n: usize, c: char) -> (r: Option<usize>)
    requires
        n <= s@.len(),
    ensures
        last_at(s@.take(n as int), c) == (match r {
            Some(k) => k as int,
            None => -1,
        }),
        r matches Some(k) ==> k < n,
{
    let mut k: usize = n;
    while k > 0
        invariant
            k <= n <= s@.len(),
            last_at(s@.take(n as int), c) == last_at(s@.take(k as int), c),
        decreases k,
    {
        assert(s@.take(k as int).last() == s@[k - 1]);
        assert(s@.take(k as int).drop_last() =~= s@.take(k - 1));
        if s[k - 1] == c {
            return Some(k - 1);
        }
        k -= 1;
    }
    None
}

/// The innermost cause, if any.
pub fn last_line(errors: &str) -> (r: String)
    ensures
        r@ == (match last_solid(errors@) {
            Some(line) => ": "@ + line,
            None => seq![],
        }),
{
    let all = chars_of(errors);
    let mut n: usize = all.len();
    assert(all@.take(n as int) =~= all@);
    loop
        invariant
            n <= all@.len(),
            all@ == errors@,
            last_solid(errors@) == last_solid(all@.take(n as int)),
        decreases n,
    {
        proof {
            last_at_bounds(all@.take(n as int), '\n');
        }
        let k = find_last(all.as_slice(), n, '\n');
        let from: usize = match k {
            Some(k) => k + 1,
            None => 0,
        };
        assert(all@.subrange(from as int, n as int) =~= all@.take(n as int).skip(from as int));
        let line = trim_of(slice_subrange(all.as_slice(), from, n));
        assert(line@ == trim(all@.take(n as int).skip(from as int)));
        if line.len() > 0 {
            let mut out = chars_of(": ");
            push_chars(&mut out, line);
            return string_of(out.as_slice());
        }
        match k {
            Some(k) => {
                assert(all@.take(n as int).take(k as int) =~= all@.take(k as int));
                n = k;
            },
            None => {
                let none = String::new();
                assert(none@ =~= seq![]);
                return none;
            },
        }
    }
}

/// What a failed build reports: how the child ended, and its innermost cause.
pub fn failure(status: &str, errors: &str) -> (r: String)
    ensures
        r@ == "the builder failed ("@ + status@ + ")"@ + (match last_solid(errors@) {
            Some(line) => ": "@ + line,
            None => seq![],
        }),
{
    let mut out = chars_of("the builder failed (");
    push_chars(&mut out, chars_of(status).as_slice());
    push_chars(&mut out, chars_of(")").as_slice());
    push_chars(&mut out, chars_of(last_line(errors).as_str()).as_slice());
    string_of(out.as_slice())
}

/// What a rebuild reports last: the database, or why there is none.
pub fn finished(built: Result<String, String>) -> (r: Progress)
    ensures
        match built {
            Ok(out) => r == Progress::Done(out),
            Err(why) => r == Progress::Failed(why),
        },
{
    match built {
        Ok(out) => Progress::Done(out),
        Err(why) => Progress::Failed(why),
    }
}

proof fn three_more_digits(n: nat)
    requires
        n >= 1000,
    ensures
        decimal(n) == decimal(n / 1000) + three_digits(n % 1000),
{
    let a = n / 10;
    let b = a / 10;
    let c = b / 10;
    assert(c == n / 1000);
    let m = n % 1000;
    assert(m % 10 == n % 10);
    assert(m / 10 % 10 == a % 10);
    assert(m / 100 % 10 == b % 10);
    assert(decimal(n) == decimal(a).push((0x30 + n % 10) as char));
    assert(decimal(a) == decimal(b).push((0x30 + a % 10) as char));
    assert(decimal(b) == decimal(c).push((0x30 + b % 10) as char));
    assert(decimal(n) =~= decimal(c) + three_digits(m));
}

/// A number with commas is the number's digits, with a comma before every third
/// from the end: without the commas it reads as it did.
pub proof fn commas_change_no_number(n: nat)
    ensures
        replaced(thousands(n), ',', seq![]) == decimal(n),
        n >= 1000 ==> thousands(n).len() > 4 && thousands(n)[thousands(n).len() - 4] == ',',
        n < 1000 ==> !thousands(n).contains(','),
    decreases n,
{
    a_decimal_reads_back(n);
    reveal_strlit(",");
    if n < 1000 {
        digits_hold_no_comma(decimal(n));
        replacing_leaves_none(decimal(n), ',', seq![]);
    } else {
        commas_change_no_number(n / 1000);
        a_decimal_reads_back(n / 1000);
        let head = thousands(n / 1000);
        let tail = three_digits(n % 1000);
        assert(","@ =~= seq![',']);
        replacing_goes_part_by_part(head + seq![','], tail, ',', seq![]);
        replacing_goes_part_by_part(head, seq![','], ',', seq![]);
        let m = n % 1000;
        assert(all_digits(tail)) by {
            assert forall|j: int| 0 <= j < tail.len() implies crate::chars::ascii_digit(
                #[trigger] tail[j],
            ) by {}
        }
        digits_hold_no_comma(tail);
        replacing_leaves_none(tail, ',', seq![]);
        three_more_digits(n);
        assert(replaced(thousands(n), ',', seq![]) =~= decimal(n));
        assert(thousands(n) =~= head + seq![','] + tail);
        thousands_has_a_digit(n / 1000);
    }
}

proof fn thousands_has_a_digit(n: nat)
    ensures
        thousands(n).len() > 0,
{
    a_decimal_reads_back(n);
}

proof fn digits_hold_no_comma(d: Seq<char>)
    requires
        all_digits(d),
    ensures
        !d.contains(','),
{
    if d.contains(',') {
        let j = choose|j: int| 0 <= j < d.len() && d[j] == ',';
        assert(crate::chars::ascii_digit(d[j]));
    }
}

/// A bracketed index before an archive's name is left out, and a name without
/// one is told as it is.
pub proof fn an_index_is_left_out(digits: Seq<char>, rest: Seq<char>, name: Seq<char>)
    requires
        digits.len() > 0,
        all_digits(digits),
        name.len() == 0 || name[0] != '[',
    ensures
        archive_name(seq!['['] + digits + seq![']'] + rest) == trim(rest),
        archive_name(name) == name,
{
    let line = seq!['['] + digits + seq![']'] + rest;
    let inner = line.skip(1);
    let n = digits.len() as int;
    assert(inner =~= digits + seq![']'] + rest);
    crate::chars::first_at_is_least(inner, ']');
    assert(inner[n] == ']');
    assert forall|j: int| 0 <= j < n implies inner[j] != ']' by {
        assert(inner[j] == digits[j]);
        assert(crate::chars::ascii_digit(digits[j]));
    }
    assert(first_at(inner, ']') == n);
    assert(inner.take(n) =~= digits);
    assert(inner.skip(n + 1) =~= rest);
}

/// A line that counts entries tells both numbers, grouped, in their order.
pub proof fn a_count_tells_both_numbers(n: u64, t: u64)
    ensures
        counted(decimal(n as nat) + seq!['/'] + decimal(t as nat)) == Some(
            thousands(n as nat) + " of "@ + thousands(t as nat) + " entries…"@,
        ),
{
    a_decimal_reads_back(n as nat);
    a_decimal_reads_back(t as nat);
    let x = decimal(n as nat);
    let y = decimal(t as nat);
    let s = x + seq!['/'] + y;
    let k = x.len() as int;
    assert(crate::chars::ascii_digit(x[0]) && crate::chars::ascii_digit(x[x.len() - 1]));
    assert(crate::chars::ascii_digit(y[0]) && crate::chars::ascii_digit(y[y.len() - 1]));
    assert(s[0] == x[0]);
    assert(s.last() == y.last());
    assert(trim(s) == s);
    assert(trim(x) == x);
    assert(trim(y) == y);
    crate::chars::first_at_is_least(s, '/');
    assert(s[k] == '/');
    assert forall|j: int| 0 <= j < k implies s[j] != '/' by {
        assert(s[j] == x[j]);
        assert(crate::chars::ascii_digit(x[j]));
    }
    assert(first_at(s, '/') == k);
    assert(s.take(k) =~= x);
    assert(s.skip(k + 1) =~= y);
    assert(parsed_u64(x) == Some(n as int));
    assert(parsed_u64(y) == Some(t as int));
}

/// A folder is counted as empty exactly where none of its names is an
/// archive's.
pub proof fn no_archive_is_no_archive(names: Seq<Seq<char>>, n: int)
    requires
        0 <= n <= names.len(),
    ensures
        archives_in(names, n) == 0 <==> forall|i: int| 0 <= i < n ==> !zip_named(#[trigger] names[i]),
        archives_in(names, n) <= n,
    decreases n,
{
    if n > 0 {
        no_archive_is_no_archive(names, n - 1);
    }
}

proof fn last_at_is_last(s: Seq<char>, c: char)
    ensures
        -1 <= last_at(s, c) < s.len(),
        last_at(s, c) >= 0 ==> s[last_at(s, c)] == c,
        forall|j: int| last_at(s, c) < j < s.len() ==> (#[trigger] s[j]) != c,
    decreases s.len(),
{
    if s.len() > 0 && s.last() != c {
        let front = s.drop_last();
        last_at_is_last(front, c);
        assert forall|j: int| last_at(s, c) < j < s.len() implies (#[trigger] s[j]) != c by {
            if j < front.len() {
                assert(front[j] == s[j]);
            }
        }
    }
}

proof fn nothing_left_is_white(s: Seq<char>)
    requires
        trim(s).len() == 0,
    ensures
        forall|i: int| 0 <= i < s.len() ==> crate::chars::white(#[trigger] s[i]),
{
    let k = crate::chars::trimming_takes_white_space_only(s);
}

/// The innermost cause is one line, trimmed and not blank, and nothing but
/// white space stands behind it; there is none only where all is white space.
pub proof fn the_last_cause_is_told(s: Seq<char>) -> (at: (int, int))
    ensures
        match last_solid(s) {
            None => forall|i: int| 0 <= i < s.len() ==> crate::chars::white(#[trigger] s[i]),
            Some(line) => {
                let (a, b) = at;
                &&& 0 <= a <= b <= s.len()
                &&& line.len() > 0
                &&& line == trim(s.subrange(a, b))
                &&& a == 0 || s[a - 1] == '\n'
                &&& forall|i: int| a <= i < b ==> (#[trigger] s[i]) != '\n'
                &&& forall|i: int| b <= i < s.len() ==> crate::chars::white(#[trigger] s[i])
            },
        },
    decreases s.len(),
{
    let k = last_at(s, '\n');
    last_at_is_last(s, '\n');
    let tail = s.skip(k + 1);
    let n = s.len() as int;
    if trim(tail).len() > 0 {
        assert(s.subrange(k + 1, n) =~= tail);
        (k + 1, n)
    } else {
        nothing_left_is_white(tail);
        assert forall|i: int| k < i < n implies crate::chars::white(#[trigger] s[i]) by {
            assert(tail[i - (k + 1)] == s[i]);
        }
        if 0 <= k < s.len() {
            let front = s.take(k);
            let at = the_last_cause_is_told(front);
            assert forall|i: int| 0 <= i < k implies front[i] == #[trigger] s[i] by {}
            if last_solid(front) is Some {
                assert(front.subrange(at.0, at.1) =~= s.subrange(at.0, at.1));
            }
            at
        } else {
            (0, 0)
        }
    }
}

/// A line is told by how it starts: a count of entries, the index being made, or
/// the archive being read.
pub proof fn a_line_is_told_by_its_start(rest: Seq<char>)
    ensures
        told_plainly("progress"@ + rest) == counted(rest),
        told_plainly("building"@ + rest) == Some("Creating search index…"@),
        told_plainly("term dict"@ + rest) == reading(rest),
        told_plainly("freq dict"@ + rest) == reading(rest),
{
    reveal_strlit("progress");
    reveal_strlit("building");
    reveal_strlit("term dict");
    reveal_strlit("freq dict");
    let p = "progress"@ + rest;
    let b = "building"@ + rest;
    let t = "term dict"@ + rest;
    let f = "freq dict"@ + rest;
    assert(p.skip(8) =~= rest);
    assert(t.skip(9) =~= rest);
    assert(f.skip(9) =~= rest);
    assert(p.take(8) =~= "progress"@);
    assert(b.take(8) =~= "building"@);
    assert(t.take(9) =~= "term dict"@);
    assert(f.take(9) =~= "freq dict"@);
    assert(b.take(8)[0] == 'b' && "progress"@[0] == 'p');
    assert(t.take(8)[0] == 't' && "building"@[0] == 'b');
    assert(f.take(8)[0] == 'f');
}

} // verus!
