//! The screenshot-on-add rules.
//!
//! This module decides whether an add carries a picture, names the file,
//! selects the Anki fields, and prepares the picture. Windows are hidden,
//! regions are selected and pixels are grabbed elsewhere.
use crate::chars::{
    chars_of, copy_list, decimal, decimal_of, push_chars, same_str, split_extension, stem, string_of, strs,
};
use crate::config::{Config, FieldMapping};
use crate::text::{byte_len, byte_len_of_part, width_of};
use vstd::prelude::*;
use vstd::slice::slice_subrange;

verus! {

/// The file and note data for one screenshot add.
#[derive(Debug, PartialEq, Eq)]
pub struct ShotPlan {
    /// The expression that identifies the card.
    pub expr: String,
    /// Each field of the note with its value. A note names a field once.
    pub fields: Vec<(String, String)>,
    /// `<save_root>/<sanitized expr>_<epoch seconds>.png`, by components.
    pub path: Vec<String>,
    /// The Anki fields that receive the picture.
    pub picture_fields: Vec<String>,
}

/// What each field holds.
pub open spec fn fields_v(f: Seq<(String, String)>) -> Seq<(Seq<char>, Seq<char>)> {
    f.map_values(|p: (String, String)| (p.0@, p.1@))
}

/// Is no field named twice?
pub open spec fn named_once(f: Seq<(Seq<char>, Seq<char>)>) -> bool {
    forall|i: int, j: int| 0 <= i < j < f.len() ==> (#[trigger] f[i]).0 != (#[trigger] f[j]).0
}

/// A character that some platform forbids in a file name.
pub open spec fn illegal(c: char) -> bool {
    c == '/' || c == '\\' || c == ':' || c == '*' || c == '?' || c == '"' || c == '<' || c == '>'
        || c == '|' || c == '\0'
}

/// A text with each forbidden character, and each run of underscores, as one
/// underscore.
pub open spec fn smoothed(s: Seq<char>) -> Seq<char>
    decreases s.len(),
{
    if s.len() == 0 {
        seq![]
    } else {
        let before = smoothed(s.drop_last());
        let c = if illegal(s.last()) {
            '_'
        } else {
            s.last()
        };
        if c == '_' && before.len() > 0 && before.last() == '_' {
            before
        } else {
            before.push(c)
        }
    }
}

/// A text without the underscores that it starts with.
pub open spec fn bare_start(s: Seq<char>) -> Seq<char>
    decreases s.len(),
{
    if s.len() > 0 && s[0] == '_' {
        bare_start(s.skip(1))
    } else {
        s
    }
}

/// A text without the underscores that it ends with.
pub open spec fn bare_end(s: Seq<char>) -> Seq<char>
    decreases s.len(),
{
    if s.len() > 0 && s.last() == '_' {
        bare_end(s.drop_last())
    } else {
        s
    }
}

/// How many of the first `n` characters of a text fit into so many bytes.
pub open spec fn fitting(s: Seq<char>, max: nat, n: int) -> int
    decreases n,
{
    if n <= 0 || byte_len(s.take(n)) <= max {
        n
    } else {
        fitting(s, max, n - 1)
    }
}

/// The longest start of a text that fits into so many bytes.
pub open spec fn cut_to(s: Seq<char>, max: nat) -> Seq<char> {
    s.take(fitting(s, max, s.len() as int))
}

/// The file name of a word.
pub open spec fn file_name_of(word: Seq<char>) -> Seq<char> {
    let bare = bare_end(bare_start(smoothed(word)));
    if bare.len() == 0 {
        "screenshot"@
    } else {
        cut_to(bare, 60)
    }
}

fn is_illegal(c: char) -> (r: bool)
    ensures
        r == illegal(c),
{
    c == '/' || c == '\\' || c == ':' || c == '*' || c == '?' || c == '"' || c == '<' || c == '>'
        || c == '|' || c == '\0'
}

fn smooth(s: &[char]) -> (r: Vec<char>)
    ensures
        r@ == smoothed(s@),
{
    let mut out: Vec<char> = Vec::new();
    let mut i: usize = 0;
    assert(s@.take(0) =~= seq![]);
    while i < s.len()
        invariant
            i <= s@.len(),
            out@ == smoothed(s@.take(i as int)),
        decreases s@.len() - i,
    {
        assert(s@.take(i + 1).drop_last() =~= s@.take(i as int));
        assert(s@.take(i + 1).last() == s@[i as int]);
        let c = if is_illegal(s[i]) {
            '_'
        } else {
            s[i]
        };
        if !(c == '_' && out.len() > 0 && out[out.len() - 1] == '_') {
            out.push(c);
        }
        i += 1;
    }
    assert(s@.take(i as int) =~= s@);
    out
}

fn bare<'a>(s: &'a [char]) -> (r: &'a [char])
    ensures
        r@ == bare_end(bare_start(s@)),
{
    let mut a: usize = 0;
    assert(s@.skip(0) =~= s@);
    while a < s.len() && s[a] == '_'
        invariant
            a <= s@.len(),
            bare_start(s@) == bare_start(s@.skip(a as int)),
        decreases s@.len() - a,
    {
        assert(s@.skip(a as int).skip(1) =~= s@.skip(a + 1));
        a += 1;
    }
    let ghost rest = s@.skip(a as int);
    assert(bare_start(s@) == rest);
    let mut b: usize = s.len();
    assert(s@.subrange(a as int, b as int) =~= rest);
    while b > a && s[b - 1] == '_'
        invariant
            a <= b <= s@.len(),
            bare_end(rest) == bare_end(s@.subrange(a as int, b as int)),
        decreases b,
    {
        assert(s@.subrange(a as int, b as int).drop_last() =~= s@.subrange(a as int, b - 1));
        b -= 1;
    }
    slice_subrange(s, a, b)
}

proof fn fits_upto(s: Seq<char>, max: nat, k: int, n: int)
    requires
        0 <= k <= n <= s.len(),
        byte_len(s.take(k)) <= max,
        k < s.len() ==> byte_len(s.take(k + 1)) > max,
    ensures
        fitting(s, max, n) == k,
    decreases n,
{
    if n > k {
        byte_len_of_part(s.take(n), k + 1);
        assert(s.take(n).take(k + 1) =~= s.take(k + 1));
        fits_upto(s, max, k, n - 1);
    }
}

fn truncate_to_char_boundary<'a>(s: &'a [char], max_bytes: usize) -> (r: &'a [char])
    ensures
        r@ == cut_to(s@, max_bytes as nat),
{
    let mut used: usize = 0;
    let mut i: usize = 0;
    assert(s@.take(0) =~= seq![]);
    while i < s.len() && width_of(s[i]) <= max_bytes - used
        invariant
            i <= s@.len(),
            used <= max_bytes,
            used == byte_len(s@.take(i as int)),
        decreases s@.len() - i,
    {
        assert(s@.take(i + 1).drop_last() =~= s@.take(i as int));
        assert(s@.take(i + 1).last() == s@[i as int]);
        used += width_of(s[i]);
        i += 1;
    }
    proof {
        if i < s@.len() {
            assert(s@.take(i + 1).drop_last() =~= s@.take(i as int));
            assert(s@.take(i + 1).last() == s@[i as int]);
        }
        fits_upto(s@, max_bytes as nat, i as int, s@.len() as int);
        assert(s@.subrange(0, i as int) =~= s@.take(i as int));
    }
    slice_subrange(s, 0, i)
}

/// Returns a file name for `word` that works on every shipped platform.
///
/// Windows forbids `\ / : * ? " < > |`, and Linux forbids only `/` and NUL.
/// The name keeps clear of all of them on both.
pub fn sanitize_filename(word: &str) -> (r: String)
    ensures
        r@ == file_name_of(word@),
{
    let smooth_word = smooth(chars_of(word).as_slice());
    let bare_word = bare(smooth_word.as_slice());
    if bare_word.len() == 0 {
        return "screenshot".to_owned();
    }
    string_of(truncate_to_char_boundary(bare_word, 60))
}

proof fn smoothed_is_legal(s: Seq<char>)
    ensures
        forall|i: int| 0 <= i < smoothed(s).len() ==> !illegal(#[trigger] smoothed(s)[i]),
    decreases s.len(),
{
    if s.len() > 0 {
        let before = smoothed(s.drop_last());
        smoothed_is_legal(s.drop_last());
        assert forall|i: int| 0 <= i < smoothed(s).len() implies !illegal(
            #[trigger] smoothed(s)[i],
        ) by {
            if i < before.len() {
                assert(smoothed(s)[i] == before[i]);
            }
        }
    }
}

proof fn bare_start_is_a_part(s: Seq<char>) -> (a: int)
    ensures
        0 <= a <= s.len(),
        bare_start(s) == s.skip(a),
    decreases s.len(),
{
    if s.len() > 0 && s[0] == '_' {
        let a = bare_start_is_a_part(s.skip(1));
        assert(s.skip(1).skip(a) =~= s.skip(a + 1));
        a + 1
    } else {
        assert(s.skip(0) =~= s);
        0
    }
}

proof fn bare_end_is_a_part(s: Seq<char>) -> (b: int)
    ensures
        0 <= b <= s.len(),
        bare_end(s) == s.take(b),
    decreases s.len(),
{
    if s.len() > 0 && s.last() == '_' {
        let b = bare_end_is_a_part(s.drop_last());
        assert(s.drop_last().take(b) =~= s.take(b));
        b
    } else {
        assert(s.take(s.len() as int) =~= s);
        s.len() as int
    }
}

proof fn fitting_bounds(s: Seq<char>, max: nat, n: int)
    requires
        0 <= n <= s.len(),
    ensures
        0 <= fitting(s, max, n) <= n,
        byte_len(s.take(fitting(s, max, n))) <= max,
    decreases n,
{
    if n > 0 && byte_len(s.take(n)) > max {
        fitting_bounds(s, max, n - 1);
    } else if n == 0 {
        assert(s.take(0) =~= seq![]);
    }
}

/// A screenshot's name is short, and no platform forbids a character of it.
pub proof fn a_name_is_legal_and_short(word: Seq<char>)
    ensures
        byte_len(file_name_of(word)) <= 60,
        forall|i: int|
            0 <= i < file_name_of(word).len() ==> !illegal(#[trigger] file_name_of(word)[i]),
{
    reveal_strlit("screenshot");
    let all = smoothed(word);
    smoothed_is_legal(word);
    let a = bare_start_is_a_part(all);
    let b = bare_end_is_a_part(bare_start(all));
    let bare = bare_end(bare_start(all));
    assert forall|i: int| 0 <= i < bare.len() implies !illegal(#[trigger] bare[i]) by {
        assert(bare[i] == all[a + i]);
    }
    if bare.len() == 0 {
        reveal_with_fuel(byte_len, 11);
    } else {
        fitting_bounds(bare, 60, bare.len() as int);
        let k = fitting(bare, 60, bare.len() as int);
        assert forall|i: int| 0 <= i < k implies !illegal(#[trigger] bare.take(k)[i]) by {
            assert(bare.take(k)[i] == bare[i]);
        }
    }
}

/// Do no two underscores stand side by side?
pub open spec fn underscores_apart(s: Seq<char>) -> bool {
    forall|i: int| 0 <= i < s.len() - 1 && #[trigger] s[i] == '_' ==> s[i + 1] != '_'
}

proof fn smoothed_is_apart(s: Seq<char>)
    ensures
        underscores_apart(smoothed(s)),
    decreases s.len(),
{
    if s.len() > 0 {
        let before = smoothed(s.drop_last());
        smoothed_is_apart(s.drop_last());
        let all = smoothed(s);
        assert forall|i: int| 0 <= i < all.len() - 1 && #[trigger] all[i] == '_' implies all[i + 1]
            != '_' by {
            if i + 1 < before.len() {
                assert(before[i] == '_');
                assert(before[i + 1] != '_');
            } else if all.len() > before.len() {
                assert(all[i] == before.last());
            } else {
                assert(before[i] == '_');
            }
        }
    }
}

proof fn bare_start_starts(s: Seq<char>)
    ensures
        bare_start(s).len() > 0 ==> bare_start(s)[0] != '_',
    decreases s.len(),
{
    if s.len() > 0 && s[0] == '_' {
        bare_start_starts(s.skip(1));
    }
}

/// A screenshot's name starts with no underscore, and has no two of them side
/// by side.
pub proof fn a_name_is_smooth(word: Seq<char>)
    ensures
        file_name_of(word)[0] != '_',
        underscores_apart(file_name_of(word)),
{
    reveal_strlit("screenshot");
    a_name_is_never_empty(word);
    let all = smoothed(word);
    smoothed_is_apart(word);
    let a = bare_start_is_a_part(all);
    bare_start_starts(all);
    let b = bare_end_is_a_part(bare_start(all));
    let bare = bare_end(bare_start(all));
    if bare.len() > 0 {
        fitting_bounds(bare, 60, bare.len() as int);
        let name = file_name_of(word);
        assert(name[0] == bare_start(all)[0]);
        assert forall|i: int| 0 <= i < name.len() - 1 && #[trigger] name[i] == '_' implies name[i
            + 1] != '_' by {
            assert(name[i] == all[a + i]);
            assert(name[i + 1] == all[a + i + 1]);
        }
    }
}

proof fn smoothed_of_nothing(s: Seq<char>)
    requires
        forall|i: int| 0 <= i < s.len() ==> s[i] == '_' || illegal(#[trigger] s[i]),
    ensures
        smoothed(s) == seq!['_'] || smoothed(s).len() == 0,
    decreases s.len(),
{
    if s.len() > 0 {
        let front = s.drop_last();
        assert forall|i: int| 0 <= i < front.len() implies front[i] == '_' || illegal(
            #[trigger] front[i],
        ) by {
            assert(s[i] == '_' || illegal(s[i]));
        }
        smoothed_of_nothing(front);
        assert(s[s.len() - 1] == '_' || illegal(s[s.len() - 1]));
        if smoothed(front).len() == 0 {
            assert(smoothed(s) =~= seq!['_']);
        }
    }
}

/// A word that has nothing for a name is called a screenshot.
pub proof fn a_word_of_nothing_is_a_screenshot(word: Seq<char>)
    requires
        forall|i: int| 0 <= i < word.len() ==> word[i] == '_' || illegal(#[trigger] word[i]),
    ensures
        file_name_of(word) == "screenshot"@,
{
    smoothed_of_nothing(word);
    let all = smoothed(word);
    reveal_with_fuel(bare_start, 2);
    if all.len() > 0 {
        assert(all.skip(1) =~= seq![]);
    }
    assert(bare_start(all).len() == 0);
}

/// A screenshot always has a name.
pub proof fn a_name_is_never_empty(word: Seq<char>)
    ensures
        file_name_of(word).len() > 0,
{
    reveal_strlit("screenshot");
    let bare = bare_end(bare_start(smoothed(word)));
    if bare.len() > 0 {
        assert(bare.take(1).drop_last() =~= seq![]);
        assert(bare.take(1).last() == bare[0]);
        assert(byte_len(bare.take(1).drop_last()) == 0);
        assert(byte_len(bare.take(1)) <= 4);
        at_least_one(bare, bare.len() as int);
    }
}

proof fn at_least_one(s: Seq<char>, n: int)
    requires
        1 <= n <= s.len(),
        byte_len(s.take(1)) <= 60,
    ensures
        1 <= fitting(s, 60, n) <= n,
    decreases n,
{
    if n > 1 && byte_len(s.take(n)) > 60 {
        at_least_one(s, n - 1);
    }
}

/// The fields that the first `n` rows of a field map fill from a screenshot.
pub open spec fn picture_rows(map: Seq<FieldMapping>, n: int) -> Seq<Seq<char>>
    decreases n,
{
    if n <= 0 {
        seq![]
    } else if map[n - 1].source@ == "screenshot"@ {
        picture_rows(map, n - 1).push(map[n - 1].anki_field@)
    } else {
        picture_rows(map, n - 1)
    }
}

/// The name of the picture file of an expression, at a second.
pub open spec fn picture_name(expr: Seq<char>, now: u64) -> Seq<char> {
    file_name_of(expr) + "_"@ + decimal(now as nat) + ".png"@
}

fn copy_fields(f: &Vec<(String, String)>) -> (r: Vec<(String, String)>)
    ensures
        fields_v(r@) == fields_v(f@),
{
    let ghost all = fields_v(f@);
    let mut out: Vec<(String, String)> = Vec::new();
    assert(fields_v(out@) =~= all.take(0));
    let mut i: usize = 0;
    while i < f.len()
        invariant
            i <= f@.len(),
            all == fields_v(f@),
            fields_v(out@) == all.take(i as int),
        decreases f@.len() - i,
    {
        let ghost before = fields_v(out@);
        out.push((f[i].0.clone(), f[i].1.clone()));
        assert(fields_v(out@) =~= before.push(all[i as int]));
        assert(all.take(i + 1) =~= all.take(i as int).push(all[i as int]));
        i += 1;
    }
    assert(all.take(i as int) =~= all);
    out
}

/// Plans the screenshot that accompanies an already-authorized add, or returns
/// `None` when the screenshot-on-add setting is off.
///
/// `expr` and `fields` are the complete note: the popup may have changed by
/// the time the screenshot is taken, so neither is read again.
pub fn plan_add(
    expr: &str,
    fields: &Vec<(String, String)>,
    cfg: &Config,
    save_root: &Vec<String>,
    now: u64,
) -> (r: Option<ShotPlan>)
    ensures
        r is Some <==> cfg.actions.screenshot.include_on_add,
        r matches Some(plan) ==> {
            &&& plan.expr@ == expr@
            &&& fields_v(plan.fields@) == fields_v(fields@)
            &&& named_once(fields_v(fields@)) ==> named_once(fields_v(plan.fields@))
            &&& strs(plan.path@) == strs(save_root@).push(picture_name(expr@, now))
            &&& strs(plan.picture_fields@) == picture_rows(
                cfg.anki.field_map@,
                cfg.anki.field_map@.len() as int,
            )
        },
{
    if !cfg.actions.screenshot.include_on_add {
        return None;
    }
    let mut name = chars_of(sanitize_filename(expr).as_str());
    push_chars(&mut name, chars_of("_").as_slice());
    push_chars(&mut name, decimal_of(now).as_slice());
    push_chars(&mut name, chars_of(".png").as_slice());
    assert(name@ =~= picture_name(expr@, now));
    let mut path = copy_list(save_root);
    let ghost base = strs(path@);
    path.push(string_of(name.as_slice()));
    assert(strs(path@) =~= base.push(name@));
    let map = &cfg.anki.field_map;
    let mut picture_fields: Vec<String> = Vec::new();
    assert(strs(picture_fields@) =~= seq![]);
    let mut i: usize = 0;
    while i < map.len()
        invariant
            i <= map@.len(),
            strs(picture_fields@) == picture_rows(map@, i as int),
        decreases map@.len() - i,
    {
        if same_str(map[i].source.as_str(), "screenshot") {
            let ghost before = strs(picture_fields@);
            picture_fields.push(map[i].anki_field.clone());
            assert(strs(picture_fields@) =~= before.push(map@[i as int].anki_field@));
        }
        i += 1;
    }
    Some(ShotPlan { expr: expr.to_owned(), fields: copy_fields(fields), path, picture_fields })
}

/// The character that stands for six bits.
pub open spec fn base64_char(n: int) -> char {
    if n < 26 {
        ('A' as int + n) as char
    } else if n < 52 {
        ('a' as int + n - 26) as char
    } else if n < 62 {
        ('0' as int + n - 52) as char
    } else if n == 62 {
        '+'
    } else {
        '/'
    }
}

/// Some bytes as base64 text, in the standard alphabet and with padding: four
/// characters for each three bytes, six bits in each.
pub open spec fn base64_text(b: Seq<u8>) -> Seq<char>
    decreases b.len(),
{
    if b.len() == 0 {
        seq![]
    } else {
        let bits = b[0] * 0x10000 + (if b.len() > 1 {
            b[1] * 0x100
        } else {
            0
        }) + (if b.len() > 2 {
            b[2] as int
        } else {
            0
        });
        seq![
            base64_char(bits / 0x40000),
            base64_char(bits / 0x1000 % 64),
            if b.len() > 1 {
                base64_char(bits / 64 % 64)
            } else {
                '='
            },
            if b.len() > 2 {
                base64_char(bits % 64)
            } else {
                '='
            },
        ] + (if b.len() > 3 {
            base64_text(b.skip(3))
        } else {
            seq![]
        })
    }
}

/// `base64::engine::general_purpose::STANDARD.encode` writes the bytes in the
/// standard alphabet and pads the last four characters with `=`.
#[verifier::external_body]
fn encode_base64(bytes: &[u8]) -> (r: String)
    ensures
        r@ == base64_text(bytes@),
{
    base64::Engine::encode(&base64::engine::general_purpose::STANDARD, bytes)
}

/// A picture that goes with a note.
#[derive(Debug, PartialEq, Eq)]
pub struct NotePicture {
    pub data_base64: String,
    pub filename: String,
    pub fields: Vec<String>,
}

/// The picture of a plan whose bytes are encoded, or nothing where no field
/// takes it.
///
/// Anki copies the attached file. The copy uses the `chibipop-screenshot-`
/// namespace and the saved file's stem, so a user can match the two names.
pub fn attach(data_base64: String, plan: &ShotPlan) -> (r: Option<NotePicture>)
    ensures
        r is Some <==> plan.picture_fields@.len() > 0,
        r matches Some(p) ==> {
            &&& p.data_base64@ == data_base64@
            &&& p.filename@ == "chibipop-screenshot-"@ + (if plan.path@.len() > 0 {
                stem(plan.path@.last()@)
            } else {
                seq![]
            }) + ".png"@
            &&& strs(p.fields@) == strs(plan.picture_fields@)
        },
{
    if plan.picture_fields.len() == 0 {
        return None;
    }
    let mut filename = chars_of("chibipop-screenshot-");
    let ghost part = if plan.path@.len() > 0 {
        stem(plan.path@.last()@)
    } else {
        seq![]
    };
    if plan.path.len() > 0 {
        let last = chars_of(plan.path[plan.path.len() - 1].as_str());
        let (name, _) = split_extension(last.as_slice());
        push_chars(&mut filename, name.as_slice());
    }
    assert(filename@ =~= "chibipop-screenshot-"@ + part);
    push_chars(&mut filename, chars_of(".png").as_slice());
    Some(
        NotePicture {
            data_base64,
            filename: string_of(filename.as_slice()),
            fields: copy_list(&plan.picture_fields),
        },
    )
}

/// The picture that a plan sends to Anki with its note.
pub fn picture_of(png: &[u8], plan: &ShotPlan) -> (r: Option<NotePicture>)
    ensures
        r is Some <==> plan.picture_fields@.len() > 0,
        r matches Some(p) ==> {
            &&& p.data_base64@ == base64_text(png@)
            &&& p.filename@ == "chibipop-screenshot-"@ + (if plan.path@.len() > 0 {
                stem(plan.path@.last()@)
            } else {
                seq![]
            }) + ".png"@
            &&& strs(p.fields@) == strs(plan.picture_fields@)
        },
{
    attach(encode_base64(png), plan)
}

/// No platform forbids a character of a file name that a word is given.
pub proof fn no_platform_forbids_a_name(word: Seq<char>, i: int)
    requires
        0 <= i < file_name_of(word).len(),
    ensures
        ({
            let c = file_name_of(word)[i];
            c != '/' && c != '\\' && c != ':' && c != '*' && c != '?' && c != '"' && c != '<' && c != '>'
                && c != '|' && c != '\0'
        }),
{
    a_name_is_legal_and_short(word);
    assert(!illegal(file_name_of(word)[i]));
}

/// A word that is a file name already is its own file name, and a longer one
/// is cut where the next character would no longer fit.
pub proof fn a_plain_word_is_its_own_name(word: Seq<char>)
    requires
        word.len() > 0,
        forall|i: int|
            0 <= i < word.len() ==> {
                let c = #[trigger] word[i];
                c != '/' && c != '\\' && c != ':' && c != '*' && c != '?' && c != '"' && c != '<' && c
                    != '>' && c != '|' && c != '\0' && c != '_'
            },
    ensures
        byte_len(word) <= 60 ==> file_name_of(word) == word,
        byte_len(word) > 60 ==> {
            let n = file_name_of(word).len() as int;
            &&& n < word.len()
            &&& file_name_of(word) == word.take(n)
            &&& byte_len(word.take(n)) <= 60
            &&& byte_len(word.take(n + 1)) > 60
        },
{
    plain_stays_smooth(word);
    assert(word[0] != '_');
    assert(word[word.len() - 1] != '_');
    assert(bare_start(word) == word);
    assert(bare_end(word) == word);
    fit_is_longest(word, 60, word.len() as int);
    assert(word.take(word.len() as int) =~= word);
}

proof fn plain_stays_smooth(word: Seq<char>)
    requires
        forall|i: int| 0 <= i < word.len() ==> !illegal(#[trigger] word[i]) && word[i] != '_',
    ensures
        smoothed(word) == word,
    decreases word.len(),
{
    if word.len() > 0 {
        let front = word.drop_last();
        assert forall|i: int| 0 <= i < front.len() implies !illegal(#[trigger] front[i]) && front[i]
            != '_' by {
            assert(front[i] == word[i]);
        }
        plain_stays_smooth(front);
        assert(word[word.len() - 1] != '_');
        assert(!illegal(word[word.len() - 1]));
        assert(front.push(word.last()) =~= word);
    } else {
        assert(smoothed(word) =~= word);
    }
}

proof fn fit_is_longest(s: Seq<char>, max: nat, n: int)
    requires
        0 <= n <= s.len(),
    ensures
        0 <= fitting(s, max, n) <= n,
        byte_len(s.take(fitting(s, max, n))) <= max,
        fitting(s, max, n) < n ==> byte_len(s.take(fitting(s, max, n) + 1)) > max,
    decreases n,
{
    if n <= 0 {
        assert(s.take(0) =~= seq![]);
    } else if byte_len(s.take(n)) > max {
        fit_is_longest(s, max, n - 1);
    }
}

/// The fields that get the picture are those that the map fills from a
/// screenshot.
pub proof fn a_screenshot_field_gets_the_picture(map: Seq<FieldMapping>, n: int, f: Seq<char>)
    requires
        0 <= n <= map.len(),
    ensures
        picture_rows(map, n).contains(f) <==> exists|i: int|
            0 <= i < n && (#[trigger] map[i]).anki_field@ == f && map[i].source@ == "screenshot"@,
    decreases n,
{
    if n > 0 {
        a_screenshot_field_gets_the_picture(map, n - 1, f);
        let before = picture_rows(map, n - 1);
        let all = picture_rows(map, n);
        if all.contains(f) {
            let j = choose|j: int| 0 <= j < all.len() && all[j] == f;
            if j < before.len() {
                assert(before[j] == f);
            } else {
                assert(map[n - 1].anki_field@ == f);
            }
        }
        if exists|i: int|
            0 <= i < n && (#[trigger] map[i]).anki_field@ == f && map[i].source@ == "screenshot"@ {
            let i = choose|i: int|
                0 <= i < n && (#[trigger] map[i]).anki_field@ == f && map[i].source@ == "screenshot"@;
            if i < n - 1 {
                let j = choose|j: int| 0 <= j < before.len() && before[j] == f;
                assert(all[j] == f);
            } else {
                assert(all[before.len() as int] == f);
            }
        }
    }
}

/// Two pictures of one expression at two seconds have two names.
pub proof fn two_seconds_make_two_names(expr: Seq<char>, a: u64, b: u64)
    requires
        a != b,
    ensures
        picture_name(expr, a) != picture_name(expr, b),
        picture_name(expr, a).take(file_name_of(expr).len() as int) == file_name_of(expr),
{
    crate::chars::a_decimal_reads_back(a as nat);
    crate::chars::a_decimal_reads_back(b as nat);
    let head = file_name_of(expr) + "_"@;
    let x = decimal(a as nat);
    let y = decimal(b as nat);
    let p = picture_name(expr, a);
    let q = picture_name(expr, b);
    assert(p =~= head + x + ".png"@);
    assert(q =~= head + y + ".png"@);
    assert(p.take(file_name_of(expr).len() as int) =~= file_name_of(expr));
    if p == q {
        assert(x.len() == y.len());
        assert(x =~= y) by {
            assert forall|i: int| 0 <= i < x.len() implies x[i] == y[i] by {
                assert(p[head.len() + i] == x[i]);
                assert(q[head.len() + i] == y[i]);
            }
        }
    }
}

} // verus!
