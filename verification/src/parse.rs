//! Executable parser for the persisted registry form, proved to agree with
//! the grammar (`sp_registry` and its helpers) in `codec`.

use vstd::prelude::*;

use crate::codec::byte_char;
use crate::codec::digit_val;
use crate::codec::hex_val;
use crate::codec::is_digit;
use crate::codec::is_ws;
use crate::codec::key_last_opened;
use crate::codec::key_name;
use crate::codec::key_path;
use crate::codec::sp_digits;
use crate::codec::sp_entries;
use crate::codec::sp_entry;
use crate::codec::sp_int;
use crate::codec::sp_key_colon;
use crate::codec::sp_registry;
use crate::codec::sp_str_body;
use crate::codec::sp_string;
use crate::codec::sp_ws;
use crate::codec::chars_to_string;
use crate::codec::str_to_chars;
use crate::entry::RecentFile;

verus! {

/// The persisted content does not follow the registry's serialized form.
#[derive(Debug, PartialEq, Eq)]
pub struct ParseError;

/// Whether `c` is JSON whitespace.
fn is_ws_exec(c: char) -> (r: bool)
    ensures
        r == is_ws(c),
{
    c == ' ' || c == '\n' || c == '\r' || c == '\t'
}

/// The first position at or after `i` holding a non-whitespace character.
fn skip_ws(s: &Vec<char>, i: usize) -> (j: usize)
    requires
        i <= s.len(),
    ensures
        i <= j <= s.len(),
        s@.skip(j as int) == sp_ws(s@.skip(i as int)),
{
    let mut cur: usize = i;
    while cur < s.len() && is_ws_exec(s[cur])
        invariant
            i <= cur <= s.len(),
            sp_ws(s@.skip(i as int)) == sp_ws(s@.skip(cur as int)),
        decreases s.len() - cur,
    {
        proof {
            assert(s@.skip(cur as int)[0] == s@[cur as int]);
            assert(s@.skip(cur as int).skip(1) =~= s@.skip(cur as int + 1));
        }
        cur = cur + 1;
    }
    proof {
        assert(sp_ws(s@.skip(cur as int)) == s@.skip(cur as int));
    }
    cur
}

/// The decimal value of `c`, when it is a digit.
fn digit_val_exec(c: char) -> (r: Option<u8>)
    ensures
        r matches Some(v) ==> is_digit(c) && digit_val(c) == v as int && v < 10,
        r is None ==> !is_digit(c),
{
    match c {
        '0' => Some(0u8),
        '1' => Some(1u8),
        '2' => Some(2u8),
        '3' => Some(3u8),
        '4' => Some(4u8),
        '5' => Some(5u8),
        '6' => Some(6u8),
        '7' => Some(7u8),
        '8' => Some(8u8),
        '9' => Some(9u8),
        _ => None,
    }
}

/// The hexadecimal value of `c`, when it is a hex digit of either case.
fn hex_val_exec(c: char) -> (r: Option<u8>)
    ensures
        r matches Some(v) ==> hex_val(c) == v as int && v < 16,
        r is None ==> hex_val(c) < 0,
{
    match c {
        '0' => Some(0u8),
        '1' => Some(1u8),
        '2' => Some(2u8),
        '3' => Some(3u8),
        '4' => Some(4u8),
        '5' => Some(5u8),
        '6' => Some(6u8),
        '7' => Some(7u8),
        '8' => Some(8u8),
        '9' => Some(9u8),
        'a' => Some(10u8),
        'A' => Some(10u8),
        'b' => Some(11u8),
        'B' => Some(11u8),
        'c' => Some(12u8),
        'C' => Some(12u8),
        'd' => Some(13u8),
        'D' => Some(13u8),
        'e' => Some(14u8),
        'E' => Some(14u8),
        'f' => Some(15u8),
        'F' => Some(15u8),
        _ => None,
    }
}

/// Parses a quoted string starting at `i`, returning its decoded
/// characters and the position after the closing quote.
fn parse_string_chars(s: &Vec<char>, i: usize) -> (r: Option<(Vec<char>, usize)>)
    requires
        i <= s.len(),
    ensures
        r matches Some(p) ==> i < p.1 <= s.len() && sp_string(s@.skip(i as int)) == Some(
            (p.0@, s@.skip(p.1 as int)),
        ),
        r is None ==> sp_string(s@.skip(i as int)) is None,
{
    if i >= s.len() || s[i] != '"' {
        proof {
            if i < s.len() {
                assert(s@.skip(i as int)[0] == s@[i as int]);
            }
        }
        return None;
    }
    proof {
        assert(s@.skip(i as int)[0] == '"');
        assert(s@.skip(i as int).skip(1) =~= s@.skip(i as int + 1));
    }
    let ghost start: int = i as int + 1;
    let mut cur: usize = i + 1;
    let mut acc: Vec<char> = Vec::new();
    proof {
        assert(acc@ =~= Seq::<char>::empty());
    }
    loop
        invariant
            start == i as int + 1,
            start <= cur as int <= s.len(),
            i < s.len(),
            sp_string(s@.skip(i as int)) == sp_str_body(s@.skip(start)),
            (sp_str_body(s@.skip(start)) is None) == (sp_str_body(s@.skip(cur as int)) is None),
            sp_str_body(s@.skip(cur as int)) matches Some(p) ==> sp_str_body(s@.skip(start))
                == Some((acc@ + p.0, p.1)),
        decreases s.len() - cur,
    {
        if cur >= s.len() {
            return None;
        }
        let c = s[cur];
        proof {
            assert(s@.skip(cur as int)[0] == c);
        }
        if c == '"' {
            proof {
                assert(s@.skip(cur as int).skip(1) =~= s@.skip(cur as int + 1));
                assert(sp_str_body(s@.skip(cur as int)) == Some(
                    (Seq::<char>::empty(), s@.skip(cur as int + 1)),
                ));
                assert(acc@ + Seq::<char>::empty() =~= acc@);
            }
            return Some((acc, cur + 1));
        } else if c == '\\' {
            if cur + 1 >= s.len() {
                return None;
            }
            let e = s[cur + 1];
            proof {
                assert(s@.skip(cur as int)[1] == e);
            }
            if e == '"' || e == '\\' || e == '/' || e == 'n' || e == 'r' || e == 't' || e == 'b'
                || e == 'f' {
                let rc: char = if e == 'n' {
                    '\n'
                } else if e == 'r' {
                    '\r'
                } else if e == 't' {
                    '\t'
                } else if e == 'b' {
                    '\u{0008}'
                } else if e == 'f' {
                    '\u{000c}'
                } else {
                    e
                };
                proof {
                    assert(s@.skip(cur as int).skip(2) =~= s@.skip(cur as int + 2));
                    if sp_str_body(s@.skip(cur as int + 2)) is Some {
                        let p = sp_str_body(s@.skip(cur as int + 2)).unwrap();
                        assert(sp_str_body(s@.skip(cur as int)) == Some((seq![rc] + p.0, p.1)));
                        assert(acc@ + (seq![rc] + p.0) =~= (acc@ + seq![rc]) + p.0);
                    } else {
                        assert(sp_str_body(s@.skip(cur as int)) is None);
                    }
                }
                let ghost acc0 = acc@;
                acc.push(rc);
                proof {
                    assert(acc@ =~= acc0 + seq![rc]);
                }
                cur = cur + 2;
            } else if e == 'u' {
                if s.len() - cur < 6 {
                    return None;
                }
                proof {
                    assert(s@.skip(cur as int)[2] == s@[cur as int + 2]);
                    assert(s@.skip(cur as int)[3] == s@[cur as int + 3]);
                    assert(s@.skip(cur as int)[4] == s@[cur as int + 4]);
                    assert(s@.skip(cur as int)[5] == s@[cur as int + 5]);
                }
                if s[cur + 2] != '0' || s[cur + 3] != '0' {
                    return None;
                }
                let h1 = hex_val_exec(s[cur + 4]);
                let h2 = hex_val_exec(s[cur + 5]);
                if h1.is_none() || h2.is_none() {
                    return None;
                }
                let v: u8 = h1.unwrap() * 16 + h2.unwrap();
                let rc: char = v as char;
                proof {
                    let ghost sc = s@.skip(cur as int);
                    assert(v as int == hex_val(sc[4]) * 16 + hex_val(sc[5]));
                    assert(rc == byte_char(hex_val(sc[4]) * 16 + hex_val(sc[5])));
                    assert(s@.skip(cur as int).skip(6) =~= s@.skip(cur as int + 6));
                    if sp_str_body(s@.skip(cur as int + 6)) is Some {
                        let p = sp_str_body(s@.skip(cur as int + 6)).unwrap();
                        assert(sp_str_body(s@.skip(cur as int)) == Some((seq![rc] + p.0, p.1)));
                        assert(acc@ + (seq![rc] + p.0) =~= (acc@ + seq![rc]) + p.0);
                    } else {
                        assert(sp_str_body(s@.skip(cur as int)) is None);
                    }
                }
                let ghost acc0 = acc@;
                acc.push(rc);
                proof {
                    assert(acc@ =~= acc0 + seq![rc]);
                }
                cur = cur + 6;
            } else {
                return None;
            }
        } else {
            let cv = c as u32;
            if cv < 0x20 {
                return None;
            }
            proof {
                assert(s@.skip(cur as int).skip(1) =~= s@.skip(cur as int + 1));
                if sp_str_body(s@.skip(cur as int + 1)) is Some {
                    let p = sp_str_body(s@.skip(cur as int + 1)).unwrap();
                    assert(sp_str_body(s@.skip(cur as int)) == Some((seq![c] + p.0, p.1)));
                    assert(acc@ + (seq![c] + p.0) =~= (acc@ + seq![c]) + p.0);
                } else {
                    assert(sp_str_body(s@.skip(cur as int)) is None);
                }
            }
            let ghost acc0 = acc@;
            acc.push(c);
            proof {
                assert(acc@ =~= acc0 + seq![c]);
            }
            cur = cur + 1;
        }
    }
}

/// The folded digit value never falls below the accumulator.
pub proof fn lemma_sp_digits_lower(s: Seq<char>, acc: int)
    requires
        acc >= 0,
    ensures
        sp_digits(s, acc).0 >= acc,
        sp_digits(s, acc).0 >= 0,
    decreases s.len(),
{
    if s.len() > 0 && is_digit(s[0]) {
        assert(acc * 10 >= acc) by (nonlinear_arith)
            requires
                acc >= 0,
        ;
        lemma_sp_digits_lower(s.skip(1), acc * 10 + digit_val(s[0]));
    }
}

/// When the folded digit value exceeds the 64-bit range on either side,
/// the integer fails to parse.
proof fn lemma_sp_int_overflow(s: Seq<char>, i: int, dstart: int, neg: bool)
    requires
        0 <= i <= dstart <= s.len(),
        neg ==> dstart == i + 1 && i < s.len() && s.skip(i)[0] == '-',
        !neg ==> dstart == i,
        dstart < s.len(),
        is_digit(s[dstart]),
        sp_digits(s.skip(dstart), 0).0 > 9223372036854775808,
    ensures
        sp_int(s.skip(i)) is None,
{
    let si = s.skip(i);
    if neg {
        assert(si.skip(1) =~= s.skip(dstart));
        assert(si[1] == s[i + 1]);
        assert(is_digit(si[1]));
        assert(si.len() > 1);
    } else {
        assert(si =~= s.skip(dstart));
    }
}

/// Parses a JSON integer starting at `i` into a signed 64-bit value.
fn parse_i64(s: &Vec<char>, i: usize) -> (r: Option<(i64, usize)>)
    requires
        i <= s.len(),
    ensures
        r matches Some(p) ==> i < p.1 <= s.len() && sp_int(s@.skip(i as int)) == Some(
            (p.0 as int, s@.skip(p.1 as int)),
        ),
        r is None ==> sp_int(s@.skip(i as int)) is None,
{
    let mut cur: usize = i;
    let mut neg: bool = false;
    if cur < s.len() && s[cur] == '-' {
        proof {
            assert(s@.skip(i as int)[0] == '-');
            assert(s@.skip(i as int).skip(1) =~= s@.skip(i as int + 1));
        }
        neg = true;
        cur = cur + 1;
    } else {
        proof {
            if i < s.len() {
                assert(s@.skip(i as int)[0] == s@[i as int]);
            }
        }
    }
    if cur >= s.len() || digit_val_exec(s[cur]).is_none() {
        proof {
            if cur < s.len() {
                assert(s@.skip(cur as int)[0] == s@[cur as int]);
            }
        }
        return None;
    }
    let ghost dstart: int = cur as int;
    let mut acc: u64 = 0;
    while cur < s.len() && digit_val_exec(s[cur]).is_some()
        invariant
            i <= dstart <= cur as int <= s.len(),
            acc <= 9223372036854775808u64,
            sp_digits(s@.skip(dstart), 0) == sp_digits(s@.skip(cur as int), acc as int),
            neg ==> dstart == i as int + 1 && (i as int) < s@.len() && s@.skip(i as int)[0] == '-',
            !neg ==> dstart == i as int,
            dstart < s.len() && is_digit(s@[dstart]),
        decreases s.len() - cur,
    {
        let d = digit_val_exec(s[cur]).unwrap();
        proof {
            assert(s@.skip(cur as int)[0] == s@[cur as int]);
            assert(s@.skip(cur as int).skip(1) =~= s@.skip(cur as int + 1));
        }
        if acc > 922337203685477580u64 {
            proof {
                let ghost snext = s@.skip(cur as int + 1);
                let ghost anext = acc as int * 10 + digit_val(s@[cur as int]);
                assert(anext > 9223372036854775808) by (nonlinear_arith)
                    requires
                        acc as int > 922337203685477580,
                        digit_val(s@[cur as int]) >= 0,
                        anext == acc as int * 10 + digit_val(s@[cur as int]),
                ;
                assert(is_digit(s@[cur as int]));
                assert(sp_digits(s@.skip(cur as int), acc as int) == sp_digits(snext, anext));
                lemma_sp_digits_lower(snext, anext);
                assert(sp_digits(s@.skip(dstart), 0).0 > 9223372036854775808);
                lemma_sp_int_overflow(s@, i as int, dstart, neg);
            }
            return None;
        }
        let next: u64 = acc * 10 + d as u64;
        if next > 9223372036854775808u64 {
            proof {
                let ghost snext = s@.skip(cur as int + 1);
                assert(is_digit(s@[cur as int]));
                assert(sp_digits(s@.skip(cur as int), acc as int) == sp_digits(
                    snext,
                    next as int,
                ));
                lemma_sp_digits_lower(snext, next as int);
                assert(sp_digits(s@.skip(dstart), 0).0 > 9223372036854775808);
                lemma_sp_int_overflow(s@, i as int, dstart, neg);
            }
            return None;
        }
        acc = next;
        cur = cur + 1;
    }
    proof {
        if cur < s.len() {
            assert(s@.skip(cur as int)[0] == s@[cur as int]);
        }
        assert(sp_digits(s@.skip(cur as int), acc as int) == (acc as int, s@.skip(cur as int)));
    }
    if neg {
        if acc == 9223372036854775808u64 {
            return Some((i64::MIN, cur));
        } else {
            return Some((-(acc as i64), cur));
        }
    } else {
        if acc > 9223372036854775807u64 {
            return None;
        }
        return Some((acc as i64, cur));
    }
}

/// Whether the characters of `v` are exactly those of `expected`.
fn chars_is(v: &Vec<char>, expected: &str) -> (r: bool)
    ensures
        r == (v@ == expected@),
{
    let n = expected.unicode_len();
    if v.len() != n {
        proof {
            assert(v@.len() != expected@.len());
        }
        return false;
    }
    let mut k: usize = 0;
    while k < n
        invariant
            0 <= k <= n,
            n == expected@.len(),
            v@.len() == n,
            forall|j: int| 0 <= j < k ==> v@[j] == expected@[j],
        decreases n - k,
    {
        if v[k] != expected.get_char(k) {
            return false;
        }
        k = k + 1;
    }
    proof {
        assert(v@ =~= expected@);
    }
    true
}

/// Parses an object member whose key must be `expected`, up to and
/// including the colon; returns the position after the colon.
fn parse_key_colon(s: &Vec<char>, i: usize, expected: &str) -> (r: Option<usize>)
    requires
        i <= s.len(),
    ensures
        r matches Some(j) ==> i < j <= s.len() && sp_key_colon(s@.skip(i as int), expected@)
            == Some(s@.skip(j as int)),
        r is None ==> sp_key_colon(s@.skip(i as int), expected@) is None,
{
    let t = skip_ws(s, i);
    let parsed = parse_string_chars(s, t);
    match parsed {
        None => None,
        Some((k, j1)) => {
            if !chars_is(&k, expected) {
                return None;
            }
            let j2 = skip_ws(s, j1);
            if j2 < s.len() && s[j2] == ':' {
                proof {
                    assert(s@.skip(j2 as int)[0] == ':');
                    assert(s@.skip(j2 as int).skip(1) =~= s@.skip(j2 as int + 1));
                }
                Some(j2 + 1)
            } else {
                proof {
                    if j2 < s.len() {
                        assert(s@.skip(j2 as int)[0] == s@[j2 as int]);
                    }
                }
                None
            }
        },
    }
}

/// Parses one registry entry starting at `i`.
fn parse_entry(s: &Vec<char>, i: usize) -> (r: Option<(RecentFile, usize)>)
    requires
        i <= s.len(),
    ensures
        r matches Some(p) ==> i < p.1 <= s.len() && sp_entry(s@.skip(i as int)) == Some(
            (p.0@, s@.skip(p.1 as int)),
        ),
        r is None ==> sp_entry(s@.skip(i as int)) is None,
{
    let t = skip_ws(s, i);
    if t >= s.len() || s[t] != '{' {
        proof {
            if t < s.len() {
                assert(s@.skip(t as int)[0] == s@[t as int]);
            }
        }
        return None;
    }
    proof {
        assert(s@.skip(t as int)[0] == '{');
        assert(s@.skip(t as int).skip(1) =~= s@.skip(t as int + 1));
        reveal_strlit("path");
        assert("path"@ =~= key_path());
        reveal_strlit("name");
        assert("name"@ =~= key_name());
        reveal_strlit("last_opened");
        assert("last_opened"@ =~= key_last_opened());
    }
    let r1 = match parse_key_colon(s, t + 1, "path") {
        None => {
            return None;
        },
        Some(j) => j,
    };
    let w1 = skip_ws(s, r1);
    let (pathv, r2) = match parse_string_chars(s, w1) {
        None => {
            return None;
        },
        Some(p) => p,
    };
    let w2 = skip_ws(s, r2);
    if w2 >= s.len() || s[w2] != ',' {
        proof {
            if w2 < s.len() {
                assert(s@.skip(w2 as int)[0] == s@[w2 as int]);
            }
        }
        return None;
    }
    proof {
        assert(s@.skip(w2 as int)[0] == ',');
        assert(s@.skip(w2 as int).skip(1) =~= s@.skip(w2 as int + 1));
    }
    let r3 = match parse_key_colon(s, w2 + 1, "name") {
        None => {
            return None;
        },
        Some(j) => j,
    };
    let w3 = skip_ws(s, r3);
    let (namev, r4) = match parse_string_chars(s, w3) {
        None => {
            return None;
        },
        Some(p) => p,
    };
    let w4 = skip_ws(s, r4);
    if w4 >= s.len() || s[w4] != ',' {
        proof {
            if w4 < s.len() {
                assert(s@.skip(w4 as int)[0] == s@[w4 as int]);
            }
        }
        return None;
    }
    proof {
        assert(s@.skip(w4 as int)[0] == ',');
        assert(s@.skip(w4 as int).skip(1) =~= s@.skip(w4 as int + 1));
    }
    let r5 = match parse_key_colon(s, w4 + 1, "last_opened") {
        None => {
            return None;
        },
        Some(j) => j,
    };
    let w5 = skip_ws(s, r5);
    let (ts, r6) = match parse_i64(s, w5) {
        None => {
            return None;
        },
        Some(p) => p,
    };
    let w6 = skip_ws(s, r6);
    if w6 >= s.len() || s[w6] != '}' {
        proof {
            if w6 < s.len() {
                assert(s@.skip(w6 as int)[0] == s@[w6 as int]);
            }
        }
        return None;
    }
    proof {
        assert(s@.skip(w6 as int)[0] == '}');
        assert(s@.skip(w6 as int).skip(1) =~= s@.skip(w6 as int + 1));
    }
    let f = RecentFile {
        path: chars_to_string(&pathv),
        name: chars_to_string(&namev),
        last_opened: ts,
    };
    Some((f, w6 + 1))
}

/// Parses one or more comma-separated entries starting at `i`.
fn parse_entries(s: &Vec<char>, i: usize) -> (r: Option<(Vec<RecentFile>, usize)>)
    requires
        i <= s.len(),
    ensures
        r matches Some(p) ==> i <= p.1 <= s.len() && sp_entries(s@.skip(i as int)) == Some(
            (p.0.deep_view(), s@.skip(p.1 as int)),
        ),
        r is None ==> sp_entries(s@.skip(i as int)) is None,
{
    let mut out: Vec<RecentFile> = Vec::new();
    let mut cur: usize = i;
    proof {
        assert(out.deep_view() =~= Seq::<crate::entry::EntryView>::empty());
    }
    loop
        invariant
            i <= cur <= s.len(),
            (sp_entries(s@.skip(i as int)) is None) == (sp_entries(s@.skip(cur as int)) is None),
            sp_entries(s@.skip(cur as int)) matches Some(p) ==> sp_entries(s@.skip(i as int))
                == Some((out.deep_view() + p.0, p.1)),
        decreases s.len() - cur,
    {
        let parsed = parse_entry(s, cur);
        match parsed {
            None => {
                return None;
            },
            Some((f, j)) => {
                let j2 = skip_ws(s, j);
                let ghost out0 = out.deep_view();
                if j2 < s.len() && s[j2] == ',' {
                    proof {
                        assert(s@.skip(j2 as int)[0] == ',');
                        assert(s@.skip(j2 as int).skip(1) =~= s@.skip(j2 as int + 1));
                        assert(s@.skip(j2 as int).len() <= s@.skip(cur as int).len());
                        if sp_entries(s@.skip(j2 as int + 1)) is Some {
                            let p = sp_entries(s@.skip(j2 as int + 1)).unwrap();
                            assert(sp_entries(s@.skip(cur as int)) == Some((seq![f@] + p.0, p.1)));
                            assert(out0 + (seq![f@] + p.0) =~= (out0 + seq![f@]) + p.0);
                        } else {
                            assert(sp_entries(s@.skip(cur as int)) is None);
                        }
                    }
                    out.push(f);
                    proof {
                        assert(out.deep_view() =~= out0 + seq![f@]);
                    }
                    cur = j2 + 1;
                } else {
                    proof {
                        if j2 < s.len() {
                            assert(s@.skip(j2 as int)[0] == s@[j2 as int]);
                        }
                        assert(sp_entries(s@.skip(cur as int)) == Some((seq![f@], s@.skip(
                            j2 as int,
                        ))));
                    }
                    out.push(f);
                    proof {
                        assert(out.deep_view() =~= out0 + seq![f@]);
                        assert(out0 + seq![f@] =~= out.deep_view());
                    }
                    return Some((out, j2));
                }
            },
        }
    }
}

/// Parses persisted content into the registry it encodes, or reports that
/// the content does not follow the serialized form.
pub fn parse_registry(s: &str) -> (r: Result<Vec<RecentFile>, ParseError>)
    ensures
        r matches Ok(files) ==> sp_registry(s@) == Some(files.deep_view()),
        r is Err ==> sp_registry(s@) is None,
{
    let chars = str_to_chars(s);
    proof {
        assert(chars@.skip(0) =~= s@);
    }
    let t = skip_ws(&chars, 0);
    if t >= chars.len() || chars[t] != '[' {
        proof {
            if t < chars.len() {
                assert(chars@.skip(t as int)[0] == chars@[t as int]);
            }
        }
        return Err(ParseError);
    }
    proof {
        assert(chars@.skip(t as int)[0] == '[');
        assert(chars@.skip(t as int).skip(1) =~= chars@.skip(t as int + 1));
    }
    let t2 = skip_ws(&chars, t + 1);
    if t2 < chars.len() && chars[t2] == ']' {
        proof {
            assert(chars@.skip(t2 as int)[0] == ']');
            assert(chars@.skip(t2 as int).skip(1) =~= chars@.skip(t2 as int + 1));
        }
        let t3 = skip_ws(&chars, t2 + 1);
        if t3 == chars.len() {
            let empty_list: Vec<RecentFile> = Vec::new();
            proof {
                assert(empty_list.deep_view() =~= Seq::<crate::entry::EntryView>::empty());
            }
            return Ok(empty_list);
        } else {
            return Err(ParseError);
        }
    }
    proof {
        if t2 < chars.len() {
            assert(chars@.skip(t2 as int)[0] == chars@[t2 as int]);
        }
    }
    match parse_entries(&chars, t + 1) {
        None => Err(ParseError),
        Some((files, j)) => {
            if j < chars.len() && chars[j] == ']' {
                proof {
                    assert(chars@.skip(j as int)[0] == ']');
                    assert(chars@.skip(j as int).skip(1) =~= chars@.skip(j as int + 1));
                }
                let j2 = skip_ws(&chars, j + 1);
                if j2 == chars.len() {
                    Ok(files)
                } else {
                    Err(ParseError)
                }
            } else {
                proof {
                    if j < chars.len() {
                        assert(chars@.skip(j as int)[0] == chars@[j as int]);
                    }
                }
                Err(ParseError)
            }
        },
    }
}

} // verus!
