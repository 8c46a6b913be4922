//! The persisted form of the registry: a pretty-printed JSON array of
//! objects `{ "path": ..., "name": ..., "last_opened": ... }`.
//!
//! `enc_registry` is the canonical encoding the library writes;
//! `sp_registry` is the grammar it reads, which also admits arbitrary
//! whitespace between tokens. Both are specification-level functions; the
//! executable serializer and parser are proved against them.
//!
//! The reader accepts the canonical form only, by policy: the three keys
//! in their written order, no unknown members, and `\u00XX` as the only
//! numeric escape (the short escapes `\n \r \t \b \f \/ \\ \"` are also
//! read). Everything this library writes is proved to parse back exactly
//! (see `roundtrip`); content in any other shape — including valid JSON
//! with reordered keys, extra members, or wider `\uXXXX` escapes, which a
//! general JSON reader would take — is treated as corrupt, and the store
//! operations then apply their corruption rules (read fails loud, writes
//! self-heal). One deliberate widening the other way: a leading-zero
//! integer such as `007` is read, though never written.

use vstd::prelude::*;

use crate::entry::EntryView;
use crate::entry::RecentFile;

verus! {

// ---------------------------------------------------------------------
// Character tables
// ---------------------------------------------------------------------
/// JSON insignificant whitespace.
pub open spec fn is_ws(c: char) -> bool {
    c == ' ' || c == '\n' || c == '\r' || c == '\t'
}

/// Value of a decimal digit character, or -1.
pub open spec fn digit_val(c: char) -> int {
    if c == '0' {
        0
    } else if c == '1' {
        1
    } else if c == '2' {
        2
    } else if c == '3' {
        3
    } else if c == '4' {
        4
    } else if c == '5' {
        5
    } else if c == '6' {
        6
    } else if c == '7' {
        7
    } else if c == '8' {
        8
    } else if c == '9' {
        9
    } else {
        -1
    }
}

/// Whether `c` is a decimal digit.
pub open spec fn is_digit(c: char) -> bool {
    digit_val(c) >= 0
}

/// The character for a decimal digit value.
pub open spec fn digit_char(d: int) -> char {
    if d == 0 {
        '0'
    } else if d == 1 {
        '1'
    } else if d == 2 {
        '2'
    } else if d == 3 {
        '3'
    } else if d == 4 {
        '4'
    } else if d == 5 {
        '5'
    } else if d == 6 {
        '6'
    } else if d == 7 {
        '7'
    } else if d == 8 {
        '8'
    } else {
        '9'
    }
}

/// Value of a hexadecimal digit character (either case), or -1.
pub open spec fn hex_val(c: char) -> int {
    if c == 'a' || c == 'A' {
        10
    } else if c == 'b' || c == 'B' {
        11
    } else if c == 'c' || c == 'C' {
        12
    } else if c == 'd' || c == 'D' {
        13
    } else if c == 'e' || c == 'E' {
        14
    } else if c == 'f' || c == 'F' {
        15
    } else {
        digit_val(c)
    }
}

/// The lower-case character for a hexadecimal digit value.
pub open spec fn hex_char(d: int) -> char {
    if d == 10 {
        'a'
    } else if d == 11 {
        'b'
    } else if d == 12 {
        'c'
    } else if d == 13 {
        'd'
    } else if d == 14 {
        'e'
    } else if d == 15 {
        'f'
    } else {
        digit_char(d)
    }
}

/// The character whose code is the byte value `v`.
pub open spec fn byte_char(v: int) -> char {
    (v as u8) as char
}

// ---------------------------------------------------------------------
// Canonical encoding
// ---------------------------------------------------------------------
/// How one character is written inside a JSON string: quote and backslash
/// are escaped, control characters become `\u00XX`, all else is literal.
pub open spec fn enc_char(c: char) -> Seq<char> {
    if c == '"' {
        seq!['\\', '"']
    } else if c == '\\' {
        seq!['\\', '\\']
    } else if (c as u32) < 0x20 {
        seq!['\\', 'u', '0', '0', hex_char(c as u32 as int / 16), hex_char(c as u32 as int % 16)]
    } else {
        seq![c]
    }
}

/// The body of a JSON string (between the quotes).
pub open spec fn enc_str_body(s: Seq<char>) -> Seq<char>
    decreases s.len(),
{
    if s.len() == 0 {
        Seq::empty()
    } else {
        enc_char(s[0]) + enc_str_body(s.skip(1))
    }
}

/// A complete JSON string, quotes included.
pub open spec fn enc_string(s: Seq<char>) -> Seq<char> {
    seq!['"'] + enc_str_body(s) + seq!['"']
}

/// Decimal digits of a nonnegative integer, most significant first.
pub open spec fn enc_nat(n: int) -> Seq<char>
    decreases n,
{
    if n < 10 {
        seq![digit_char(n)]
    } else {
        enc_nat(n / 10) + seq![digit_char(n % 10)]
    }
}

/// A JSON integer, with a leading minus sign when negative.
pub open spec fn enc_i64(v: int) -> Seq<char> {
    if v < 0 {
        seq!['-'] + enc_nat(-v)
    } else {
        enc_nat(v)
    }
}

/// Newline plus two spaces of indentation.
pub open spec fn nl2() -> Seq<char> {
    seq!['\n', ' ', ' ']
}

/// Newline plus four spaces of indentation.
pub open spec fn nl4() -> Seq<char> {
    seq!['\n', ' ', ' ', ' ', ' ']
}

/// The object key for an entry's path.
pub open spec fn key_path() -> Seq<char> {
    seq!['p', 'a', 't', 'h']
}

/// The object key for an entry's display name.
pub open spec fn key_name() -> Seq<char> {
    seq!['n', 'a', 'm', 'e']
}

/// The object key for an entry's last-opened time.
pub open spec fn key_last_opened() -> Seq<char> {
    seq!['l', 'a', 's', 't', '_', 'o', 'p', 'e', 'n', 'e', 'd']
}

/// One entry as a pretty-printed JSON object at one level of indentation.
pub open spec fn enc_entry(e: EntryView) -> Seq<char> {
    nl2() + seq!['{'] + nl4() + enc_string(key_path()) + seq![':', ' '] + enc_string(e.path)
        + seq![','] + nl4() + enc_string(key_name()) + seq![':', ' '] + enc_string(e.name)
        + seq![','] + nl4() + enc_string(key_last_opened()) + seq![':', ' '] + enc_i64(
        e.last_opened,
    ) + nl2() + seq!['}']
}

/// One or more encoded entries, comma-separated.
pub open spec fn enc_entries(es: Seq<EntryView>) -> Seq<char>
    decreases es.len(),
{
    if es.len() == 0 {
        Seq::empty()
    } else if es.len() == 1 {
        enc_entry(es[0])
    } else {
        enc_entry(es[0]) + seq![','] + enc_entries(es.skip(1))
    }
}

/// The whole registry as a pretty-printed JSON array.
pub open spec fn enc_registry(es: Seq<EntryView>) -> Seq<char> {
    if es.len() == 0 {
        seq!['[', ']']
    } else {
        seq!['['] + enc_entries(es) + seq!['\n', ']']
    }
}

// ---------------------------------------------------------------------
// Executable serializer
// ---------------------------------------------------------------------
/// Relies on std's `String::from_iter` for `char`: collecting characters
/// yields the string holding exactly those characters in order.
#[verifier::external_body]
pub fn chars_to_string(v: &Vec<char>) -> (r: String)
    ensures
        r@ == v@,
{
    v.iter().collect()
}

/// The characters of `s`, in order.
pub fn str_to_chars(s: &str) -> (r: Vec<char>)
    ensures
        r@ == s@,
{
    let n = s.unicode_len();
    let mut out: Vec<char> = Vec::new();
    let mut i: usize = 0;
    while i < n
        invariant
            0 <= i <= n,
            n == s@.len(),
            out@ == s@.take(i as int),
        decreases n - i,
    {
        out.push(s.get_char(i));
        proof {
            assert(out@ =~= s@.take(i + 1 as int));
        }
        i = i + 1;
    }
    proof {
        assert(s@.take(n as int) =~= s@);
    }
    out
}

/// The lower-case hexadecimal digit for a value below 16.
fn hex_char_exec(d: u32) -> (r: char)
    requires
        0 <= d < 16,
    ensures
        r == hex_char(d as int),
{
    match d {
        0 => '0',
        1 => '1',
        2 => '2',
        3 => '3',
        4 => '4',
        5 => '5',
        6 => '6',
        7 => '7',
        8 => '8',
        9 => '9',
        10 => 'a',
        11 => 'b',
        12 => 'c',
        13 => 'd',
        14 => 'e',
        _ => 'f',
    }
}

/// The decimal digit character for a value below 10.
fn digit_char_exec(d: u64) -> (r: char)
    requires
        0 <= d < 10,
    ensures
        r == digit_char(d as int),
{
    match d {
        0 => '0',
        1 => '1',
        2 => '2',
        3 => '3',
        4 => '4',
        5 => '5',
        6 => '6',
        7 => '7',
        8 => '8',
        _ => '9',
    }
}

/// Appends the encoding of one string-body character.
fn emit_char(out: &mut Vec<char>, c: char)
    ensures
        final(out)@ == old(out)@ + enc_char(c),
{
    if c == '"' {
        out.push('\\');
        out.push('"');
        proof {
            assert(final(out)@ =~= old(out)@ + enc_char(c));
        }
    } else if c == '\\' {
        out.push('\\');
        out.push('\\');
        proof {
            assert(final(out)@ =~= old(out)@ + enc_char(c));
        }
    } else {
        let v = c as u32;
        if v < 0x20 {
            out.push('\\');
            out.push('u');
            out.push('0');
            out.push('0');
            out.push(hex_char_exec(v / 16));
            out.push(hex_char_exec(v % 16));
            proof {
                assert(final(out)@ =~= old(out)@ + enc_char(c));
            }
        } else {
            out.push(c);
            proof {
                assert(final(out)@ =~= old(out)@ + enc_char(c));
            }
        }
    }
}

/// `enc_str_body` distributes over concatenation.
pub proof fn lemma_enc_str_body_concat(a: Seq<char>, b: Seq<char>)
    ensures
        enc_str_body(a + b) == enc_str_body(a) + enc_str_body(b),
    decreases a.len(),
{
    if a.len() == 0 {
        assert(a + b =~= b);
        assert(enc_str_body(a) + enc_str_body(b) =~= enc_str_body(b));
    } else {
        lemma_enc_str_body_concat(a.skip(1), b);
        assert((a + b).skip(1) =~= a.skip(1) + b);
        assert(enc_char(a[0]) + (enc_str_body(a.skip(1)) + enc_str_body(b)) =~= (enc_char(a[0])
            + enc_str_body(a.skip(1))) + enc_str_body(b));
    }
}

/// The body encoding of a single character is that character's encoding.
pub proof fn lemma_enc_str_body_single(c: char)
    ensures
        enc_str_body(seq![c]) == enc_char(c),
{
    assert(seq![c].skip(1) =~= Seq::<char>::empty());
    assert(enc_str_body(Seq::<char>::empty()) =~= Seq::<char>::empty());
    assert(enc_char(c) + Seq::<char>::empty() =~= enc_char(c));
}

/// Appends the quoted, escaped encoding of `s`.
fn emit_string(out: &mut Vec<char>, s: &str)
    ensures
        final(out)@ == old(out)@ + enc_string(s@),
{
    out.push('"');
    let n = s.unicode_len();
    let mut i: usize = 0;
    while i < n
        invariant
            0 <= i <= n,
            n == s@.len(),
            out@ == old(out)@ + seq!['"'] + enc_str_body(s@.take(i as int)),
        decreases n - i,
    {
        proof {
            assert(s@.take(i as int) + seq![s@[i as int]] =~= s@.take(i + 1 as int));
            lemma_enc_str_body_concat(s@.take(i as int), seq![s@[i as int]]);
            lemma_enc_str_body_single(s@[i as int]);
        }
        emit_char(out, s.get_char(i));
        proof {
            assert(out@ =~= old(out)@ + seq!['"'] + enc_str_body(s@.take(i + 1 as int)));
        }
        i = i + 1;
    }
    out.push('"');
    proof {
        assert(s@.take(n as int) =~= s@);
        assert(final(out)@ =~= old(out)@ + enc_string(s@));
    }
}

/// Appends the decimal digits of `n`.
fn emit_nat(out: &mut Vec<char>, n: u64)
    ensures
        final(out)@ == old(out)@ + enc_nat(n as int),
    decreases n,
{
    if n < 10 {
        out.push(digit_char_exec(n));
        proof {
            assert(final(out)@ =~= old(out)@ + enc_nat(n as int));
        }
    } else {
        emit_nat(out, n / 10);
        out.push(digit_char_exec(n % 10));
        proof {
            assert(final(out)@ =~= old(out)@ + enc_nat(n as int));
        }
    }
}

/// Appends the decimal form of `v`, sign included.
fn emit_i64(out: &mut Vec<char>, v: i64)
    ensures
        final(out)@ == old(out)@ + enc_i64(v as int),
{
    if v < 0 {
        out.push('-');
        let m: u64 = if v == i64::MIN {
            9223372036854775808u64
        } else {
            (-v) as u64
        };
        proof {
            assert(m as int == -(v as int));
        }
        emit_nat(out, m);
        proof {
            assert(final(out)@ =~= old(out)@ + enc_i64(v as int));
        }
    } else {
        emit_nat(out, v as u64);
    }
}

/// Appends a newline and two spaces.
fn emit_nl2(out: &mut Vec<char>)
    ensures
        final(out)@ == old(out)@ + nl2(),
{
    out.push('\n');
    out.push(' ');
    out.push(' ');
    proof {
        assert(final(out)@ =~= old(out)@ + nl2());
    }
}

/// Appends a newline and four spaces.
fn emit_nl4(out: &mut Vec<char>)
    ensures
        final(out)@ == old(out)@ + nl4(),
{
    out.push('\n');
    out.push(' ');
    out.push(' ');
    out.push(' ');
    out.push(' ');
    proof {
        assert(final(out)@ =~= old(out)@ + nl4());
    }
}

/// Appends one entry as a pretty-printed JSON object.
#[verifier::rlimit(100)]
fn emit_entry(out: &mut Vec<char>, e: &RecentFile)
    ensures
        final(out)@ == old(out)@ + enc_entry(e@),
{
    let ghost base = old(out)@;
    emit_nl2(out);
    out.push('{');
    emit_nl4(out);
    emit_string(out, "path");
    proof {
        reveal_strlit("path");
        assert("path"@ =~= key_path());
    }
    out.push(':');
    out.push(' ');
    emit_string(out, self_path(e));
    out.push(',');
    let ghost part1 = base + nl2() + seq!['{'] + nl4() + enc_string(key_path()) + seq![':', ' ']
        + enc_string(e@.path) + seq![','];
    proof {
        assert(out@ =~= part1);
    }
    emit_nl4(out);
    emit_string(out, "name");
    proof {
        reveal_strlit("name");
        assert("name"@ =~= key_name());
    }
    out.push(':');
    out.push(' ');
    emit_string(out, self_name(e));
    out.push(',');
    let ghost part2 = part1 + nl4() + enc_string(key_name()) + seq![':', ' '] + enc_string(e@.name)
        + seq![','];
    proof {
        assert(out@ =~= part2);
    }
    emit_nl4(out);
    emit_string(out, "last_opened");
    proof {
        reveal_strlit("last_opened");
        assert("last_opened"@ =~= key_last_opened());
    }
    out.push(':');
    out.push(' ');
    emit_i64(out, e.last_opened);
    emit_nl2(out);
    out.push('}');
    let ghost part3 = part2 + nl4() + enc_string(key_last_opened()) + seq![':', ' '] + enc_i64(
        e@.last_opened,
    ) + nl2() + seq!['}'];
    proof {
        assert(out@ =~= part3);
        assert(part3 =~= base + enc_entry(e@));
    }
}

/// The entry's path as a borrowed slice.
fn self_path(e: &RecentFile) -> (r: &str)
    ensures
        r@ == e@.path,
{
    e.path.as_str()
}

/// The entry's name as a borrowed slice.
fn self_name(e: &RecentFile) -> (r: &str)
    ensures
        r@ == e@.name,
{
    e.name.as_str()
}

/// `enc_entries` of a sequence with an entry appended.
pub proof fn lemma_enc_entries_snoc(es: Seq<EntryView>, e: EntryView)
    requires
        es.len() >= 1,
    ensures
        enc_entries(es.push(e)) == enc_entries(es) + seq![','] + enc_entry(e),
    decreases es.len(),
{
    if es.len() == 1 {
        assert(es.push(e).skip(1) =~= seq![e]);
        assert(enc_entries(seq![e]) =~= enc_entry(e));
        assert(es.push(e)[0] == es[0]);
    } else {
        lemma_enc_entries_snoc(es.skip(1), e);
        assert(es.push(e).skip(1) =~= es.skip(1).push(e));
        assert(es.push(e)[0] == es[0]);
        assert(enc_entry(es[0]) + seq![','] + (enc_entries(es.skip(1)) + seq![','] + enc_entry(e))
            =~= (enc_entry(es[0]) + seq![','] + enc_entries(es.skip(1))) + seq![','] + enc_entry(
            e,
        ));
    }
}

/// Serializes the registry in its canonical pretty-printed JSON form.
pub fn serialize_registry(files: &Vec<RecentFile>) -> (r: String)
    ensures
        r@ == enc_registry(files.deep_view()),
{
    let ghost es = files.deep_view();
    let mut out: Vec<char> = Vec::new();
    if files.len() == 0 {
        out.push('[');
        out.push(']');
        proof {
            assert(out@ =~= enc_registry(es));
        }
    } else {
        out.push('[');
        let mut i: usize = 0;
        while i < files.len()
            invariant
                0 <= i <= files.len(),
                files.len() >= 1,
                es == files.deep_view(),
                es.len() == files.len(),
                forall|j: int| 0 <= j < es.len() ==> es[j] == #[trigger] files[j]@,
                i >= 1 ==> out@ == seq!['['] + enc_entries(es.take(i as int)),
                i == 0 ==> out@ == seq!['['],
            decreases files.len() - i,
        {
            let ghost before = out@;
            if i > 0 {
                out.push(',');
            }
            emit_entry(&mut out, &files[i]);
            proof {
                if i == 0 {
                    assert(es.take(1) =~= seq![es[0]]);
                    assert(enc_entries(seq![es[0]]) =~= enc_entry(es[0]));
                    assert(out@ =~= seq!['['] + enc_entries(es.take(1)));
                } else {
                    assert(es.take(i as int).push(es[i as int]) =~= es.take(i + 1 as int));
                    lemma_enc_entries_snoc(es.take(i as int), es[i as int]);
                    assert(out@ =~= seq!['['] + enc_entries(es.take(i + 1 as int)));
                }
            }
            i = i + 1;
        }
        out.push('\n');
        out.push(']');
        proof {
            assert(es.take(es.len() as int) =~= es);
            assert(out@ =~= enc_registry(es));
        }
    }
    chars_to_string(&out)
}

// ---------------------------------------------------------------------
// Grammar
// ---------------------------------------------------------------------
// Each `sp_` function consumes from the front of a character sequence and
// returns the parsed value together with the unconsumed suffix, or `None`
// when the input does not match.
/// The suffix after leading whitespace.
pub open spec fn sp_ws(s: Seq<char>) -> Seq<char>
    decreases s.len(),
{
    if s.len() > 0 && is_ws(s[0]) {
        sp_ws(s.skip(1))
    } else {
        s
    }
}

/// A string body after its opening quote: literal characters, the short
/// escapes, and `\u00XX` byte escapes, up to the closing quote.
pub open spec fn sp_str_body(s: Seq<char>) -> Option<(Seq<char>, Seq<char>)>
    decreases s.len(),
{
    if s.len() == 0 {
        None
    } else if s[0] == '"' {
        Some((Seq::empty(), s.skip(1)))
    } else if s[0] == '\\' {
        if s.len() < 2 {
            None
        } else {
            let e = s[1];
            if e == '"' || e == '\\' || e == '/' {
                match sp_str_body(s.skip(2)) {
                    None => None,
                    Some((t, r)) => Some((seq![e] + t, r)),
                }
            } else if e == 'n' || e == 'r' || e == 't' || e == 'b' || e == 'f' {
                let c = if e == 'n' {
                    '\n'
                } else if e == 'r' {
                    '\r'
                } else if e == 't' {
                    '\t'
                } else if e == 'b' {
                    '\u{0008}'
                } else {
                    '\u{000c}'
                };
                match sp_str_body(s.skip(2)) {
                    None => None,
                    Some((t, r)) => Some((seq![c] + t, r)),
                }
            } else if e == 'u' {
                if s.len() < 6 {
                    None
                } else if s[2] == '0' && s[3] == '0' && hex_val(s[4]) >= 0 && hex_val(s[5]) >= 0 {
                    let v = hex_val(s[4]) * 16 + hex_val(s[5]);
                    match sp_str_body(s.skip(6)) {
                        None => None,
                        Some((t, r)) => Some((seq![byte_char(v)] + t, r)),
                    }
                } else {
                    None
                }
            } else {
                None
            }
        }
    } else if (s[0] as u32) < 0x20 {
        None
    } else {
        match sp_str_body(s.skip(1)) {
            None => None,
            Some((t, r)) => Some((seq![s[0]] + t, r)),
        }
    }
}

/// A quoted JSON string.
pub open spec fn sp_string(s: Seq<char>) -> Option<(Seq<char>, Seq<char>)> {
    if s.len() > 0 && s[0] == '"' {
        sp_str_body(s.skip(1))
    } else {
        None
    }
}

/// Folds leading decimal digits into `acc`.
pub open spec fn sp_digits(s: Seq<char>, acc: int) -> (int, Seq<char>)
    decreases s.len(),
{
    if s.len() > 0 && is_digit(s[0]) {
        sp_digits(s.skip(1), acc * 10 + digit_val(s[0]))
    } else {
        (acc, s)
    }
}

/// A JSON integer whose value fits in a signed 64-bit word.
pub open spec fn sp_int(s: Seq<char>) -> Option<(int, Seq<char>)> {
    if s.len() > 0 && s[0] == '-' {
        if s.len() > 1 && is_digit(s[1]) {
            let (m, r) = sp_digits(s.skip(1), 0);
            if m <= 0x8000000000000000 {
                Some((-m, r))
            } else {
                None
            }
        } else {
            None
        }
    } else if s.len() > 0 && is_digit(s[0]) {
        let (m, r) = sp_digits(s, 0);
        if m <= 0x7fffffffffffffff {
            Some((m, r))
        } else {
            None
        }
    } else {
        None
    }
}

/// An object member's key (which must equal `key`) and its colon; returns
/// the suffix after the colon.
pub open spec fn sp_key_colon(s: Seq<char>, key: Seq<char>) -> Option<Seq<char>> {
    let t = sp_ws(s);
    match sp_string(t) {
        None => None,
        Some((k, r)) => if k == key {
            let r2 = sp_ws(r);
            if r2.len() > 0 && r2[0] == ':' {
                Some(r2.skip(1))
            } else {
                None
            }
        } else {
            None
        },
    }
}

/// One registry entry: an object with the keys `path`, `name` and
/// `last_opened`, in that order.
pub open spec fn sp_entry(s: Seq<char>) -> Option<(EntryView, Seq<char>)> {
    let t = sp_ws(s);
    if t.len() > 0 && t[0] == '{' {
        match sp_key_colon(t.skip(1), key_path()) {
            None => None,
            Some(r) => match sp_string(sp_ws(r)) {
                None => None,
                Some((pathv, r)) => {
                    let r = sp_ws(r);
                    if r.len() > 0 && r[0] == ',' {
                        match sp_key_colon(r.skip(1), key_name()) {
                            None => None,
                            Some(r) => match sp_string(sp_ws(r)) {
                                None => None,
                                Some((namev, r)) => {
                                    let r = sp_ws(r);
                                    if r.len() > 0 && r[0] == ',' {
                                        match sp_key_colon(r.skip(1), key_last_opened()) {
                                            None => None,
                                            Some(r) => match sp_int(sp_ws(r)) {
                                                None => None,
                                                Some((ts, r)) => {
                                                    let r = sp_ws(r);
                                                    if r.len() > 0 && r[0] == '}' {
                                                        Some(
                                                            (
                                                                EntryView {
                                                                    path: pathv,
                                                                    name: namev,
                                                                    last_opened: ts,
                                                                },
                                                                r.skip(1),
                                                            ),
                                                        )
                                                    } else {
                                                        None
                                                    }
                                                },
                                            },
                                        }
                                    } else {
                                        None
                                    }
                                },
                            },
                        }
                    } else {
                        None
                    }
                },
            },
        }
    } else {
        None
    }
}

/// A comma-separated sequence of one or more entries; returns the suffix
/// after the last entry with its trailing whitespace removed.
pub open spec fn sp_entries(s: Seq<char>) -> Option<(Seq<EntryView>, Seq<char>)>
    decreases s.len(),
{
    match sp_entry(s) {
        None => None,
        Some((e, r)) => {
            let r2 = sp_ws(r);
            if r2.len() > 0 && r2[0] == ',' {
                if r2.len() <= s.len() {
                    match sp_entries(r2.skip(1)) {
                        None => None,
                        Some((es, r3)) => Some((seq![e] + es, r3)),
                    }
                } else {
                    None
                }
            } else {
                Some((seq![e], r2))
            }
        },
    }
}

/// A whole persisted registry: a JSON array of entries, with nothing but
/// whitespace after it.
pub open spec fn sp_registry(s: Seq<char>) -> Option<Seq<EntryView>> {
    let t = sp_ws(s);
    if t.len() > 0 && t[0] == '[' {
        let t2 = sp_ws(t.skip(1));
        if t2.len() > 0 && t2[0] == ']' {
            if sp_ws(t2.skip(1)).len() == 0 {
                Some(Seq::empty())
            } else {
                None
            }
        } else {
            match sp_entries(t.skip(1)) {
                None => None,
                Some((es, r)) => if r.len() > 0 && r[0] == ']' && sp_ws(r.skip(1)).len() == 0 {
                    Some(es)
                } else {
                    None
                },
            }
        }
    } else {
        None
    }
}

} // verus!
