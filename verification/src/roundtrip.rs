//! The codec round trip: parsing the canonical serialized form of a
//! registry yields exactly that registry.

use vstd::prelude::*;

use crate::codec::byte_char;
use crate::codec::digit_char;
use crate::codec::digit_val;
use crate::codec::enc_char;
use crate::codec::enc_entries;
use crate::codec::enc_entry;
use crate::codec::enc_i64;
use crate::codec::enc_nat;
use crate::codec::enc_registry;
use crate::codec::enc_str_body;
use crate::codec::enc_string;
use crate::codec::hex_char;
use crate::codec::hex_val;
use crate::codec::is_digit;
use crate::codec::is_ws;
use crate::codec::key_last_opened;
use crate::codec::key_name;
use crate::codec::key_path;
use crate::codec::nl2;
use crate::codec::nl4;
use crate::codec::sp_digits;
use crate::codec::sp_entries;
use crate::codec::sp_entry;
use crate::codec::sp_int;
use crate::codec::sp_key_colon;
use crate::codec::sp_registry;
use crate::codec::sp_str_body;
use crate::codec::sp_string;
use crate::codec::sp_ws;
use crate::entry::EntryView;

verus! {

/// Whether an entry's timestamp fits in a signed 64-bit word, as every
/// entry materialized from a `RecentFile` does.
pub open spec fn ts_in_i64(e: EntryView) -> bool {
    -0x8000000000000000 <= e.last_opened <= 0x7fffffffffffffff
}

/// Skipping whitespace passes over an all-whitespace prefix.
pub proof fn lemma_sp_ws_concat(w: Seq<char>, rest: Seq<char>)
    requires
        forall|k: int| 0 <= k < w.len() ==> is_ws(#[trigger] w[k]),
    ensures
        sp_ws(w + rest) == sp_ws(rest),
    decreases w.len(),
{
    if w.len() == 0 {
        assert(w + rest =~= rest);
    } else {
        assert((w + rest)[0] == w[0]);
        assert((w + rest).skip(1) =~= w.skip(1) + rest);
        lemma_sp_ws_concat(w.skip(1), rest);
    }
}

/// Skipping whitespace leaves a sequence that does not start with any.
pub proof fn lemma_sp_ws_nonws(s: Seq<char>)
    requires
        s.len() == 0 || !is_ws(s[0]),
    ensures
        sp_ws(s) == s,
{
}

/// A hex digit character reads back as its value.
pub proof fn lemma_hex_char_val(d: int)
    requires
        0 <= d < 16,
    ensures
        hex_val(hex_char(d)) == d,
{
}

/// A decimal digit character reads back as its value.
pub proof fn lemma_digit_char_val(d: int)
    requires
        0 <= d < 10,
    ensures
        digit_val(digit_char(d)) == d,
        is_digit(digit_char(d)),
{
}

/// Decoding a string body undoes the escaping of its encoder.
pub proof fn lemma_sp_str_body_enc(t: Seq<char>, rest: Seq<char>)
    ensures
        sp_str_body(enc_str_body(t) + seq!['"'] + rest) == Some((t, rest)),
    decreases t.len(),
{
    let s = enc_str_body(t) + seq!['"'] + rest;
    if t.len() == 0 {
        assert(enc_str_body(t) =~= Seq::<char>::empty());
        assert(s =~= seq!['"'] + rest);
        assert(s[0] == '"');
        assert(s.skip(1) =~= rest);
    } else {
        let c = t[0];
        let tail = enc_str_body(t.skip(1)) + seq!['"'] + rest;
        lemma_sp_str_body_enc(t.skip(1), rest);
        assert(enc_str_body(t) == enc_char(c) + enc_str_body(t.skip(1)));
        assert(seq![c] + t.skip(1) =~= t);
        if c == '"' {
            assert(s[0] == '\\');
            assert(s[1] == '"');
            assert(s.len() >= 2);
            assert(s.skip(2) =~= tail);
            assert(sp_str_body(s) == Some((t, rest)));
        } else if c == '\\' {
            assert(s[0] == '\\');
            assert(s[1] == '\\');
            assert(s.len() >= 2);
            assert(s.skip(2) =~= tail);
            assert(sp_str_body(s) == Some((t, rest)));
        } else if (c as u32) < 0x20 {
            let v = c as u32 as int;
            assert(s[0] == '\\');
            assert(s[1] == 'u');
            assert(s[2] == '0');
            assert(s[3] == '0');
            assert(s[4] == hex_char(v / 16));
            assert(s[5] == hex_char(v % 16));
            assert(s.len() >= 6);
            assert(s.skip(6) =~= tail);
            lemma_hex_char_val(v / 16);
            lemma_hex_char_val(v % 16);
            assert(hex_val(s[4]) * 16 + hex_val(s[5]) == v);
            assert(byte_char(v) == c) by {
                vstd::utf8::char_u32_cast(c, c as u32);
                assert((v as u8) as u32 == c as u32);
            }
            assert(sp_str_body(s) == Some((t, rest)));
        } else {
            assert(s[0] == c);
            assert(s.skip(1) =~= tail);
            assert(sp_str_body(s) == Some((t, rest)));
        }
    }
}

/// Decoding a quoted string undoes its encoder.
pub proof fn lemma_sp_string_enc(t: Seq<char>, rest: Seq<char>)
    ensures
        sp_string(enc_string(t) + rest) == Some((t, rest)),
{
    let s = enc_string(t) + rest;
    assert(s[0] == '"');
    assert(s.skip(1) =~= enc_str_body(t) + seq!['"'] + rest);
    lemma_sp_str_body_enc(t, rest);
}

/// The number of decimal digits the encoder writes for `n`.
pub open spec fn ndigits(n: int) -> int
    decreases n,
{
    if n < 10 {
        1
    } else {
        1 + ndigits(n / 10)
    }
}

/// Ten to the power `k`.
pub open spec fn pow10(k: int) -> int
    decreases k,
{
    if k <= 0 {
        1
    } else {
        10 * pow10(k - 1)
    }
}

/// The encoder writes at least one character for `n`, and it starts with
/// a digit.
pub proof fn lemma_enc_nat_first(n: int)
    requires
        n >= 0,
    ensures
        enc_nat(n).len() >= 1,
        is_digit(enc_nat(n)[0]),
    decreases n,
{
    if n < 10 {
        lemma_digit_char_val(n);
    } else {
        lemma_enc_nat_first(n / 10);
        assert(enc_nat(n)[0] == enc_nat(n / 10)[0]);
    }
}

/// Folding the encoder's digits shifts the accumulator and adds `n`.
pub proof fn lemma_sp_digits_enc(n: int, acc: int, rest: Seq<char>)
    requires
        n >= 0,
        acc >= 0,
    ensures
        sp_digits(enc_nat(n) + rest, acc) == sp_digits(rest, acc * pow10(ndigits(n)) + n),
    decreases n,
{
    let s = enc_nat(n) + rest;
    if n < 10 {
        lemma_digit_char_val(n);
        assert(s[0] == digit_char(n));
        assert(s.skip(1) =~= rest);
        assert(pow10(0) == 1);
        assert(pow10(1) == 10);
        assert(sp_digits(s, acc) == sp_digits(rest, acc * 10 + n));
    } else {
        let k = ndigits(n / 10);
        let d = digit_char(n % 10);
        lemma_digit_char_val(n % 10);
        lemma_sp_digits_enc(n / 10, acc, seq![d] + rest);
        assert(enc_nat(n) + rest =~= enc_nat(n / 10) + (seq![d] + rest));
        let a2 = acc * pow10(k) + n / 10;
        assert((seq![d] + rest)[0] == d);
        assert((seq![d] + rest).skip(1) =~= rest);
        lemma_pow10_pos(k);
        lemma_ndigits_pos(n / 10);
        assert(a2 >= 0) by (nonlinear_arith)
            requires
                acc >= 0,
                pow10(k) >= 1,
                n >= 10,
                a2 == acc * pow10(k) + n / 10,
        ;
        assert(sp_digits(seq![d] + rest, a2) == sp_digits(rest, a2 * 10 + n % 10));
        assert(ndigits(n) == 1 + k);
        assert(pow10(1 + k) == 10 * pow10(k));
        assert(a2 * 10 + n % 10 == acc * (10 * pow10(k)) + n) by (nonlinear_arith)
            requires
                a2 == acc * pow10(k) + n / 10,
                n == 10 * (n / 10) + n % 10,
        ;
    }
}

/// The encoder writes at least one digit.
pub proof fn lemma_ndigits_pos(n: int)
    requires
        n >= 0,
    ensures
        ndigits(n) >= 1,
    decreases n,
{
    if n >= 10 {
        lemma_ndigits_pos(n / 10);
    }
}

/// Ten to any power is positive.
pub proof fn lemma_pow10_pos(k: int)
    ensures
        pow10(k) >= 1,
    decreases (if k <= 0 {
        0int
    } else {
        k
    }),
{
    if k > 0 {
        lemma_pow10_pos(k - 1);
    }
}

/// Decoding an integer undoes its encoder, for values in the signed
/// 64-bit range, when no digit follows.
pub proof fn lemma_sp_int_enc(v: int, rest: Seq<char>)
    requires
        -0x8000000000000000 <= v <= 0x7fffffffffffffff,
        rest.len() == 0 || !is_digit(rest[0]),
    ensures
        sp_int(enc_i64(v) + rest) == Some((v, rest)),
{
    if v < 0 {
        let m = -v;
        let s = enc_i64(v) + rest;
        assert(s[0] == '-');
        lemma_enc_nat_first(m);
        assert(s[1] == enc_nat(m)[0]);
        assert(is_digit(s[1]));
        assert(s.skip(1) =~= enc_nat(m) + rest);
        lemma_sp_digits_enc(m, 0, rest);
        lemma_pow10_pos(ndigits(m));
        assert(0 * pow10(ndigits(m)) + m == m) by (nonlinear_arith);
        assert(sp_digits(rest, m) == (m, rest));
        assert(sp_int(s) == Some((v, rest)));
    } else {
        let s = enc_i64(v) + rest;
        lemma_enc_nat_first(v);
        assert(s[0] == enc_nat(v)[0]);
        assert(is_digit(s[0]));
        assert(s[0] != '-');
        assert(s =~= enc_nat(v) + rest);
        lemma_sp_digits_enc(v, 0, rest);
        lemma_pow10_pos(ndigits(v));
        assert(0 * pow10(ndigits(v)) + v == v) by (nonlinear_arith);
        assert(sp_digits(rest, v) == (v, rest));
        assert(sp_int(s) == Some((v, rest)));
    }
}

/// Every character of the four-space indentation chunk is whitespace.
pub proof fn lemma_nl4_ws()
    ensures
        forall|k: int| 0 <= k < nl4().len() ==> is_ws(#[trigger] nl4()[k]),
{
    assert forall|k: int| 0 <= k < nl4().len() implies is_ws(#[trigger] nl4()[k]) by {
        if k == 0 {
            assert(nl4()[0] == '\n');
        } else {
            assert(nl4()[k] == ' ');
        }
    }
}

/// Every character of the two-space indentation chunk is whitespace.
pub proof fn lemma_nl2_ws()
    ensures
        forall|k: int| 0 <= k < nl2().len() ==> is_ws(#[trigger] nl2()[k]),
{
    assert forall|k: int| 0 <= k < nl2().len() implies is_ws(#[trigger] nl2()[k]) by {
        if k == 0 {
            assert(nl2()[0] == '\n');
        } else {
            assert(nl2()[k] == ' ');
        }
    }
}

/// Parsing a member at the encoder's indentation finds its key and colon
/// and stops just after the colon.
pub proof fn lemma_sp_key_colon_enc(key: Seq<char>, rest: Seq<char>)
    ensures
        sp_key_colon(nl4() + enc_string(key) + seq![':', ' '] + rest, key) == Some(
            seq![' '] + rest,
        ),
{
    let s = nl4() + enc_string(key) + seq![':', ' '] + rest;
    let s1 = enc_string(key) + (seq![':', ' '] + rest);
    assert(s =~= nl4() + s1);
    lemma_nl4_ws();
    lemma_sp_ws_concat(nl4(), s1);
    assert(s1[0] == '"');
    lemma_sp_ws_nonws(s1);
    assert(sp_ws(s) == s1);
    lemma_sp_string_enc(key, seq![':', ' '] + rest);
    let r = seq![':', ' '] + rest;
    lemma_sp_ws_nonws(r);
    assert(r[0] == ':');
    assert(r.skip(1) =~= seq![' '] + rest);
}

/// Decoding one entry undoes its encoder.
#[verifier::rlimit(100)]
pub proof fn lemma_sp_entry_enc(e: EntryView, rest: Seq<char>)
    requires
        ts_in_i64(e),
    ensures
        sp_entry(enc_entry(e) + rest) == Some((e, rest)),
{
    let cl = nl2() + (seq!['}'] + rest);
    let r6 = enc_i64(e.last_opened) + cl;
    let w6 = seq![' '] + r6;
    let r5 = nl4() + enc_string(key_last_opened()) + seq![':', ' '] + r6;
    let r5c = seq![','] + r5;
    let r4 = enc_string(e.name) + r5c;
    let w4 = seq![' '] + r4;
    let r3 = nl4() + enc_string(key_name()) + seq![':', ' '] + r4;
    let r3c = seq![','] + r3;
    let r2 = enc_string(e.path) + r3c;
    let w2 = seq![' '] + r2;
    let r1 = nl4() + enc_string(key_path()) + seq![':', ' '] + r2;
    let s = enc_entry(e) + rest;
    assert(s =~= nl2() + (seq!['{'] + r1));
    lemma_nl2_ws();
    lemma_nl4_ws();
    lemma_sp_ws_concat(nl2(), seq!['{'] + r1);
    lemma_sp_ws_nonws(seq!['{'] + r1);
    let t = sp_ws(s);
    assert(t == seq!['{'] + r1);
    assert(t[0] == '{');
    assert(t.skip(1) =~= r1);
    lemma_sp_key_colon_enc(key_path(), r2);
    assert(sp_key_colon(t.skip(1), key_path()) == Some(w2));
    assert(w2 =~= seq![' '] + r2);
    lemma_sp_ws_concat(seq![' '], r2);
    assert(r2[0] == '"');
    lemma_sp_ws_nonws(r2);
    assert(sp_ws(w2) == r2);
    lemma_sp_string_enc(e.path, r3c);
    assert(sp_string(r2) == Some((e.path, r3c)));
    lemma_sp_ws_nonws(r3c);
    assert(r3c[0] == ',');
    assert(r3c.skip(1) =~= r3);
    lemma_sp_key_colon_enc(key_name(), r4);
    assert(sp_key_colon(r3c.skip(1), key_name()) == Some(w4));
    lemma_sp_ws_concat(seq![' '], r4);
    assert(r4[0] == '"');
    lemma_sp_ws_nonws(r4);
    assert(sp_ws(w4) == r4);
    lemma_sp_string_enc(e.name, r5c);
    assert(sp_string(r4) == Some((e.name, r5c)));
    lemma_sp_ws_nonws(r5c);
    assert(r5c[0] == ',');
    assert(r5c.skip(1) =~= r5);
    lemma_sp_key_colon_enc(key_last_opened(), r6);
    assert(sp_key_colon(r5c.skip(1), key_last_opened()) == Some(w6));
    lemma_sp_ws_concat(seq![' '], r6);
    if e.last_opened < 0 {
        assert(r6[0] == '-');
    } else {
        lemma_enc_nat_first(e.last_opened);
        assert(r6[0] == enc_nat(e.last_opened)[0]);
        assert(is_digit(r6[0]));
    }
    assert(!is_ws(r6[0]));
    lemma_sp_ws_nonws(r6);
    assert(sp_ws(w6) == r6);
    assert(cl[0] == '\n');
    assert(!is_digit(cl[0]));
    lemma_sp_int_enc(e.last_opened, cl);
    assert(sp_int(r6) == Some((e.last_opened, cl)));
    lemma_sp_ws_concat(nl2(), seq!['}'] + rest);
    lemma_sp_ws_nonws(seq!['}'] + rest);
    assert(sp_ws(cl) == seq!['}'] + rest);
    assert((seq!['}'] + rest)[0] == '}');
    assert((seq!['}'] + rest).skip(1) =~= rest);
    assert(sp_entry(s) == Some(
        (EntryView { path: e.path, name: e.name, last_opened: e.last_opened }, rest),
    ));
    assert(EntryView { path: e.path, name: e.name, last_opened: e.last_opened } == e);
}

/// Decoding a comma-separated run of entries undoes its encoder, when
/// what follows does not begin (after whitespace) with another comma.
pub proof fn lemma_sp_entries_enc(es: Seq<EntryView>, rest: Seq<char>)
    requires
        es.len() >= 1,
        forall|k: int| 0 <= k < es.len() ==> ts_in_i64(#[trigger] es[k]),
        sp_ws(rest).len() == 0 || sp_ws(rest)[0] != ',',
    ensures
        sp_entries(enc_entries(es) + rest) == Some((es, sp_ws(rest))),
    decreases es.len(),
{
    let s = enc_entries(es) + rest;
    if es.len() == 1 {
        assert(enc_entries(es) == enc_entry(es[0]));
        lemma_sp_entry_enc(es[0], rest);
        assert(sp_entry(s) == Some((es[0], rest)));
        assert(seq![es[0]] =~= es);
    } else {
        let t = enc_entries(es.skip(1)) + rest;
        let ct = seq![','] + t;
        assert(s =~= enc_entry(es[0]) + ct);
        lemma_sp_entry_enc(es[0], ct);
        assert(sp_entry(s) == Some((es[0], ct)));
        lemma_sp_ws_nonws(ct);
        assert(ct[0] == ',');
        assert(ct.skip(1) =~= t);
        assert(ct.len() <= s.len());
        assert(forall|k: int|
            0 <= k < es.skip(1).len() ==> ts_in_i64(#[trigger] es.skip(1)[k]));
        lemma_sp_entries_enc(es.skip(1), rest);
        assert(sp_entries(t) == Some((es.skip(1), sp_ws(rest))));
        assert(seq![es[0]] + es.skip(1) =~= es);
    }
}

/// The codec round trip: parsing the canonical serialization of any
/// registry yields exactly that registry.
pub proof fn lemma_registry_round_trip(es: Seq<EntryView>)
    requires
        forall|k: int| 0 <= k < es.len() ==> ts_in_i64(#[trigger] es[k]),
    ensures
        sp_registry(enc_registry(es)) == Some(es),
{
    let s = enc_registry(es);
    if es.len() == 0 {
        assert(s =~= seq!['[', ']']);
        lemma_sp_ws_nonws(s);
        assert(s[0] == '[');
        assert(s.skip(1) =~= seq![']']);
        lemma_sp_ws_nonws(seq![']']);
        assert(seq![']'].skip(1) =~= Seq::<char>::empty());
        assert(sp_ws(Seq::<char>::empty()).len() == 0);
        assert(sp_registry(s) == Some(Seq::<EntryView>::empty()));
        assert(Seq::<EntryView>::empty() =~= es);
    } else {
        let close = seq!['\n', ']'];
        let ee = enc_entries(es) + close;
        assert(s =~= seq!['['] + ee);
        lemma_sp_ws_nonws(s);
        assert(s[0] == '[');
        assert(s.skip(1) =~= ee);
        // after the bracket the first entry's indentation begins, so the
        // empty-array branch is not taken
        assert(enc_entry(es[0]).len() >= 4);
        assert(ee[0] == '\n');
        assert(ee[1] == ' ');
        assert(ee[2] == ' ');
        assert(ee[3] == '{');
        let e2 = ee.skip(3);
        assert(ee =~= nl2() + e2);
        lemma_nl2_ws();
        lemma_sp_ws_concat(nl2(), e2);
        assert(e2[0] == '{');
        lemma_sp_ws_nonws(e2);
        assert(sp_ws(ee) == e2);
        assert(sp_ws(ee)[0] != ']');
        // the run of entries, then the closing bracket
        assert(close[0] == '\n');
        assert(is_ws(close[0]));
        assert(close.skip(1) =~= seq![']']);
        lemma_sp_ws_nonws(seq![']']);
        assert(sp_ws(close) == seq![']']) by {
            assert(close =~= seq!['\n'] + seq![']']);
            lemma_sp_ws_concat(seq!['\n'], seq![']']);
        }
        lemma_sp_entries_enc(es, close);
        assert(sp_entries(ee) == Some((es, seq![']'])));
        assert(seq![']'][0] == ']');
        assert(seq![']'].skip(1) =~= Seq::<char>::empty());
        assert(sp_ws(Seq::<char>::empty()).len() == 0);
        assert(sp_registry(s) == Some(es));
    }
}

} // verus!
