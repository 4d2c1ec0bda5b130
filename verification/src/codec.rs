//! The persisted form of the corpus index.
//!
//! The index is written as a JSON-style object keyed by document path,
//! each value an object keyed by token mapping to its count:
//! `{"path":{"TOKEN":3,...},...}`. Strings escape `"` and `\` with a
//! backslash and control characters with their short escape or `\u00XX`;
//! the reader also accepts `\/` and any `\uXXXX` of a Unicode scalar
//! value. Counts are plain decimal numbers. [`enc_index`] is the encoder's
//! model, the `parse_*` functions the decoder's, and loading what was
//! saved gives the index back exactly ([`lemma_save_load_round_trip`]).
use crate::chars::{is_dec_digit, is_digit_char};
use crate::index::{
    doc_seq_view, entry_seq_view, keys_unique, lemma_count_le_sum, tf_entries_valid, CorpusIndex,
    TermFreq,
};
use crate::strutil::push_char;
use vstd::arithmetic::div_mod::lemma_fundamental_div_mod;
use vstd::prelude::*;
use vstd::string::StrSliceExecFns;

verus! {

// ---------------------------------------------------------------------------
// Characters
// ---------------------------------------------------------------------------
pub open spec fn digit_val(c: char) -> nat {
    (c as u32 - 48) as nat
}

/// The decimal digit character for `d` (`d < 10`).
pub open spec fn digit_char(d: nat) -> char {
    if d == 0 {
        '0'
    } else if d == 1 {
        '1'
    } else if d == 2 {
        '2'
    } else if d == 3 {
        '3'
    } else if d == 4 {
        '4'
    } else if d == 5 {
        '5'
    } else if d == 6 {
        '6'
    } else if d == 7 {
        '7'
    } else if d == 8 {
        '8'
    } else {
        '9'
    }
}

pub proof fn lemma_digit_char(d: nat)
    requires
        d < 10,
    ensures
        is_digit_char(digit_char(d)),
        digit_val(digit_char(d)) == d,
{
}

pub open spec fn is_hex_char(c: char) -> bool {
    is_digit_char(c) || (97 <= c as u32 && c as u32 <= 102) || (65 <= c as u32 && c as u32 <= 70)
}

/// The value of a hexadecimal digit character (either case).
pub open spec fn hex_val(c: char) -> nat {
    if is_digit_char(c) {
        (c as u32 - 48) as nat
    } else if 97 <= c as u32 && c as u32 <= 102 {
        (c as u32 - 87) as nat
    } else {
        (c as u32 - 55) as nat
    }
}

/// The lowercase hexadecimal digit character for `d` (`d < 16`).
pub open spec fn hex_char(d: nat) -> char {
    if d < 10 {
        digit_char(d)
    } else if d == 10 {
        'a'
    } else if d == 11 {
        'b'
    } else if d == 12 {
        'c'
    } else if d == 13 {
        'd'
    } else if d == 14 {
        'e'
    } else {
        'f'
    }
}

pub proof fn lemma_hex_char(d: nat)
    requires
        d < 16,
    ensures
        is_hex_char(hex_char(d)),
        hex_val(hex_char(d)) == d,
{
}

// ---------------------------------------------------------------------------
// Encoding
// ---------------------------------------------------------------------------
/// How one character is written inside a string: `"` and `\` get a
/// backslash, the control characters get their short escape or `\u00XX`,
/// and every other character stands as itself.
pub open spec fn esc_char(c: char) -> Seq<char> {
    if c == '"' || c == '\\' {
        seq!['\\', c]
    } else if c == '\u{8}' {
        seq!['\\', 'b']
    } else if c == '\t' {
        seq!['\\', 't']
    } else if c == '\n' {
        seq!['\\', 'n']
    } else if c == '\u{c}' {
        seq!['\\', 'f']
    } else if c == '\r' {
        seq!['\\', 'r']
    } else if (c as u32) < 32 {
        seq!['\\', 'u', '0', '0', hex_char((c as u32 / 16) as nat), hex_char((c as u32 % 16) as nat)]
    } else {
        seq![c]
    }
}

pub open spec fn enc_str_body(s: Seq<char>) -> Seq<char>
    decreases s.len(),
{
    if s.len() == 0 {
        Seq::empty()
    } else {
        esc_char(s[0]) + enc_str_body(s.drop_first())
    }
}

pub open spec fn enc_string(s: Seq<char>) -> Seq<char> {
    seq!['"'] + enc_str_body(s) + seq!['"']
}

pub open spec fn enc_nat(n: nat) -> Seq<char>
    decreases n,
{
    if n < 10 {
        seq![digit_char(n)]
    } else {
        enc_nat(n / 10).push(digit_char(n % 10))
    }
}

pub open spec fn enc_entry(e: (Seq<char>, nat)) -> Seq<char> {
    enc_string(e.0) + seq![':'] + enc_nat(e.1)
}

pub open spec fn enc_entries_rest(es: Seq<(Seq<char>, nat)>) -> Seq<char>
    decreases es.len(),
{
    if es.len() == 0 {
        Seq::empty()
    } else {
        seq![','] + enc_entry(es[0]) + enc_entries_rest(es.drop_first())
    }
}

pub open spec fn enc_tf(es: Seq<(Seq<char>, nat)>) -> Seq<char> {
    if es.len() == 0 {
        seq!['{', '}']
    } else {
        seq!['{'] + enc_entry(es[0]) + enc_entries_rest(es.drop_first()) + seq!['}']
    }
}

pub open spec fn enc_doc(d: (Seq<char>, Seq<(Seq<char>, nat)>)) -> Seq<char> {
    enc_string(d.0) + seq![':'] + enc_tf(d.1)
}

pub open spec fn enc_docs_rest(ds: Seq<(Seq<char>, Seq<(Seq<char>, nat)>)>) -> Seq<char>
    decreases ds.len(),
{
    if ds.len() == 0 {
        Seq::empty()
    } else {
        seq![','] + enc_doc(ds[0]) + enc_docs_rest(ds.drop_first())
    }
}

/// The whole persisted form of an index.
pub open spec fn enc_index(ds: Seq<(Seq<char>, Seq<(Seq<char>, nat)>)>) -> Seq<char> {
    if ds.len() == 0 {
        seq!['{', '}']
    } else {
        seq!['{'] + enc_doc(ds[0]) + enc_docs_rest(ds.drop_first()) + seq!['}']
    }
}

// ---------------------------------------------------------------------------
// Parsing
// ---------------------------------------------------------------------------
/// The character a short escape letter stands for, if it is one.
pub open spec fn unescape_short(e: char) -> Option<char> {
    if e == '"' {
        Some('"')
    } else if e == '\\' {
        Some('\\')
    } else if e == '/' {
        Some('/')
    } else if e == 'b' {
        Some('\u{8}')
    } else if e == 'f' {
        Some('\u{c}')
    } else if e == 'n' {
        Some('\n')
    } else if e == 'r' {
        Some('\r')
    } else if e == 't' {
        Some('\t')
    } else {
        None
    }
}

/// The value of the four hex digits of a `\uXXXX` escape at the head of
/// `s` (after the backslash and the `u`).
pub open spec fn hex4_val(s: Seq<char>) -> nat {
    ((hex_val(s[2]) * 16 + hex_val(s[3])) * 16 + hex_val(s[4])) * 16 + hex_val(s[5])
}

/// Whether `s` starts with a well-formed `\uXXXX` escape naming a Unicode
/// scalar value (four hex digits, not a surrogate).
pub open spec fn valid_u_escape(s: Seq<char>) -> bool {
    s.len() >= 6 && s[1] == 'u' && is_hex_char(s[2]) && is_hex_char(s[3]) && is_hex_char(s[4])
        && is_hex_char(s[5]) && !(0xD800 <= hex4_val(s) && hex4_val(s) <= 0xDFFF)
}

/// Characters of a string up to its closing quote; `None` on a stray end
/// or a bad escape.
pub open spec fn parse_str_body(s: Seq<char>) -> Option<(Seq<char>, Seq<char>)>
    decreases s.len(),
{
    if s.len() == 0 {
        None
    } else if s[0] == '"' {
        Some((Seq::empty(), s.drop_first()))
    } else if s[0] == '\\' {
        if s.len() >= 2 && unescape_short(s[1]) is Some {
            match parse_str_body(s.skip(2)) {
                Some((t, r)) => Some((seq![unescape_short(s[1])->Some_0] + t, r)),
                None => None,
            }
        } else if valid_u_escape(s) {
            match parse_str_body(s.skip(6)) {
                Some((t, r)) => Some((seq![(hex4_val(s) as u32) as char] + t, r)),
                None => None,
            }
        } else {
            None
        }
    } else {
        match parse_str_body(s.drop_first()) {
            Some((t, r)) => Some((seq![s[0]] + t, r)),
            None => None,
        }
    }
}

pub open spec fn parse_string(s: Seq<char>) -> Option<(Seq<char>, Seq<char>)> {
    if s.len() > 0 && s[0] == '"' {
        parse_str_body(s.drop_first())
    } else {
        None
    }
}

/// Reads the maximal digit run into `acc`; `None` when the value would not
/// fit the machine.
pub open spec fn parse_nat_rec(s: Seq<char>, acc: nat) -> Option<(nat, Seq<char>)>
    decreases s.len(),
{
    if s.len() == 0 || !is_digit_char(s[0]) {
        Some((acc, s))
    } else if acc * 10 + digit_val(s[0]) > usize::MAX {
        None
    } else {
        parse_nat_rec(s.drop_first(), acc * 10 + digit_val(s[0]))
    }
}

pub open spec fn parse_nat(s: Seq<char>) -> Option<(nat, Seq<char>)> {
    if s.len() > 0 && is_digit_char(s[0]) {
        parse_nat_rec(s, 0)
    } else {
        None
    }
}

pub open spec fn parse_entry(s: Seq<char>) -> Option<((Seq<char>, nat), Seq<char>)> {
    match parse_string(s) {
        Some((k, r)) => if r.len() > 0 && r[0] == ':' {
            match parse_nat(r.drop_first()) {
                Some((n, r2)) => Some(((k, n), r2)),
                None => None,
            }
        } else {
            None
        },
        None => None,
    }
}

/// After the first entry of an object: either `}` or `,` and another
/// entry.
pub open spec fn parse_entries_rest(s: Seq<char>) -> Option<(Seq<(Seq<char>, nat)>, Seq<char>)>
    decreases s.len(),
{
    if s.len() == 0 {
        None
    } else if s[0] == '}' {
        Some((Seq::empty(), s.drop_first()))
    } else if s[0] == ',' {
        match parse_entry(s.drop_first()) {
            Some((e, r)) => if r.len() < s.len() {
                match parse_entries_rest(r) {
                    Some((es, r2)) => Some((seq![e] + es, r2)),
                    None => None,
                }
            } else {
                None
            },
            None => None,
        }
    } else {
        None
    }
}

pub open spec fn parse_tf(s: Seq<char>) -> Option<(Seq<(Seq<char>, nat)>, Seq<char>)> {
    if s.len() >= 2 && s[0] == '{' && s[1] == '}' {
        Some((Seq::empty(), s.skip(2)))
    } else if s.len() > 0 && s[0] == '{' {
        match parse_entry(s.drop_first()) {
            Some((e, r)) => if r.len() < s.len() {
                match parse_entries_rest(r) {
                    Some((es, r2)) => Some((seq![e] + es, r2)),
                    None => None,
                }
            } else {
                None
            },
            None => None,
        }
    } else {
        None
    }
}

pub open spec fn parse_doc(s: Seq<char>) -> Option<
    ((Seq<char>, Seq<(Seq<char>, nat)>), Seq<char>),
> {
    match parse_string(s) {
        Some((p, r)) => if r.len() > 0 && r[0] == ':' {
            match parse_tf(r.drop_first()) {
                Some((es, r2)) => Some(((p, es), r2)),
                None => None,
            }
        } else {
            None
        },
        None => None,
    }
}

pub open spec fn parse_docs_rest(s: Seq<char>) -> Option<
    (Seq<(Seq<char>, Seq<(Seq<char>, nat)>)>, Seq<char>),
>
    decreases s.len(),
{
    if s.len() == 0 {
        None
    } else if s[0] == '}' {
        Some((Seq::empty(), s.drop_first()))
    } else if s[0] == ',' {
        match parse_doc(s.drop_first()) {
            Some((d, r)) => if r.len() < s.len() {
                match parse_docs_rest(r) {
                    Some((ds, r2)) => Some((seq![d] + ds, r2)),
                    None => None,
                }
            } else {
                None
            },
            None => None,
        }
    } else {
        None
    }
}

pub open spec fn parse_index(s: Seq<char>) -> Option<
    (Seq<(Seq<char>, Seq<(Seq<char>, nat)>)>, Seq<char>),
> {
    if s.len() >= 2 && s[0] == '{' && s[1] == '}' {
        Some((Seq::empty(), s.skip(2)))
    } else if s.len() > 0 && s[0] == '{' {
        match parse_doc(s.drop_first()) {
            Some((d, r)) => if r.len() < s.len() {
                match parse_docs_rest(r) {
                    Some((ds, r2)) => Some((seq![d] + ds, r2)),
                    None => None,
                }
            } else {
                None
            },
            None => None,
        }
    } else {
        None
    }
}

/// Validity of loaded data: unique paths, and valid entries per document.
pub open spec fn index_data_valid(ds: Seq<(Seq<char>, Seq<(Seq<char>, nat)>)>) -> bool {
    &&& keys_unique(ds)
    &&& (forall|i: int| 0 <= i < ds.len() ==> tf_entries_valid((#[trigger] ds[i]).1))
}

/// What loading means: a full parse of the input with nothing left over,
/// whose data is valid.
pub open spec fn spec_load(s: Seq<char>) -> Option<Seq<(Seq<char>, Seq<(Seq<char>, nat)>)>> {
    match parse_index(s) {
        Some((ds, r)) => if r.len() == 0 && index_data_valid(ds) {
            Some(ds)
        } else {
            None
        },
        None => None,
    }
}

// ---------------------------------------------------------------------------
// Round trip: parsing inverts encoding
// ---------------------------------------------------------------------------
proof fn lemma_rt_str_body(t: Seq<char>, rest: Seq<char>)
    ensures
        parse_str_body(enc_str_body(t) + seq!['"'] + rest) == Some((t, rest)),
    decreases t.len(),
{
    let s = enc_str_body(t) + seq!['"'] + rest;
    if t.len() == 0 {
        assert(s =~= seq!['"'] + rest);
        assert(s[0] == '"');
        assert(s.drop_first() =~= rest);
        assert(t =~= Seq::<char>::empty());
    } else {
        let c = t[0];
        let t2 = t.drop_first();
        let tail = enc_str_body(t2) + seq!['"'] + rest;
        lemma_rt_str_body(t2, rest);
        if c == '"' || c == '\\' || c == '\u{8}' || c == '\t' || c == '\n' || c == '\u{c}' || c
            == '\r' {
            assert(esc_char(c).len() == 2 && esc_char(c)[0] == '\\');
            assert(s =~= esc_char(c) + tail);
            assert(s[0] == '\\');
            assert(s[1] == esc_char(c)[1]);
            assert(s.len() >= 2);
            assert(unescape_short(s[1]) == Some(c));
            assert(s.skip(2) =~= tail);
            assert(seq![c] + t2 =~= t);
        } else if (c as u32) < 32 {
            let u = c as u32;
            assert(s =~= esc_char(c) + tail);
            assert(s[0] == '\\');
            assert(s[1] == 'u');
            assert(unescape_short('u') is None);
            assert(s.len() >= 6);
            assert(s[2] == '0' && s[3] == '0');
            assert(s[4] == hex_char((u / 16) as nat));
            assert(s[5] == hex_char((u % 16) as nat));
            lemma_hex_char((u / 16) as nat);
            lemma_hex_char((u % 16) as nat);
            assert(is_hex_char(s[2]) && is_hex_char(s[3]));
            assert(hex_val(s[2]) == 0 && hex_val(s[3]) == 0);
            lemma_fundamental_div_mod(u as int, 16);
            assert(hex4_val(s) == u);
            assert(valid_u_escape(s));
            assert(((hex4_val(s) as u32) as char) == c) by {
                vstd::utf8::char_u32_cast(c, c as u32);
                assert(hex4_val(s) as u32 == c as u32);
            }
            assert(s.skip(6) =~= tail);
            assert(seq![c] + t2 =~= t);
        } else {
            assert(s =~= seq![c] + tail);
            assert(s[0] == c);
            assert(s.drop_first() =~= tail);
            assert(seq![s[0]] + t2 =~= t);
        }
    }
}

proof fn lemma_rt_string(t: Seq<char>, rest: Seq<char>)
    ensures
        parse_string(enc_string(t) + rest) == Some((t, rest)),
{
    let s = enc_string(t) + rest;
    assert(s =~= seq!['"'] + (enc_str_body(t) + seq!['"'] + rest));
    assert(s[0] == '"');
    assert(s.drop_first() =~= enc_str_body(t) + seq!['"'] + rest);
    lemma_rt_str_body(t, rest);
}

proof fn lemma_enc_nat_digits(n: nat)
    ensures
        enc_nat(n).len() >= 1,
        forall|i: int| 0 <= i < enc_nat(n).len() ==> is_digit_char(#[trigger] enc_nat(n)[i]),
    decreases n,
{
    if n < 10 {
        lemma_digit_char(n);
    } else {
        lemma_enc_nat_digits(n / 10);
        lemma_digit_char(n % 10);
        assert(forall|i: int|
            0 <= i < enc_nat(n / 10).len() ==> #[trigger] enc_nat(n)[i] == enc_nat(n / 10)[i]);
        assert(enc_nat(n).last() == digit_char(n % 10));
    }
}

/// The accumulator after reading the digits of `m` on top of `acc`.
pub open spec fn acc_after(acc: nat, m: nat) -> nat
    decreases m,
{
    if m < 10 {
        acc * 10 + m
    } else {
        acc_after(acc, m / 10) * 10 + m % 10
    }
}

proof fn lemma_acc_after_zero(m: nat)
    ensures
        acc_after(0, m) == m,
    decreases m,
{
    if m >= 10 {
        lemma_acc_after_zero(m / 10);
        lemma_fundamental_div_mod(m as int, 10);
    }
}

proof fn lemma_rt_nat_rec(m: nat, acc: nat, rest: Seq<char>)
    requires
        acc_after(acc, m) <= usize::MAX,
    ensures
        parse_nat_rec(enc_nat(m) + rest, acc) == parse_nat_rec(rest, acc_after(acc, m)),
    decreases m,
{
    if m < 10 {
        let s = enc_nat(m) + rest;
        lemma_digit_char(m);
        assert(s[0] == digit_char(m));
        assert(is_digit_char(s[0]));
        assert(digit_val(s[0]) == m);
        assert(s.drop_first() =~= rest);
    } else {
        let d = m % 10;
        let s = enc_nat(m) + rest;
        lemma_digit_char(d);
        assert(enc_nat(m) =~= enc_nat(m / 10) + seq![digit_char(d)]);
        assert(s =~= enc_nat(m / 10) + (seq![digit_char(d)] + rest));
        let mid = acc_after(acc, m / 10);
        assert(mid <= mid * 10) by (nonlinear_arith)
            requires
                mid >= 0,
        ;
        lemma_rt_nat_rec(m / 10, acc, seq![digit_char(d)] + rest);
        let s2 = seq![digit_char(d)] + rest;
        assert(s2[0] == digit_char(d));
        assert(is_digit_char(s2[0]));
        assert(digit_val(s2[0]) == d);
        assert(mid * 10 + d == acc_after(acc, m));
        assert(s2.drop_first() =~= rest);
    }
}

proof fn lemma_rt_nat(n: nat, rest: Seq<char>)
    requires
        n <= usize::MAX,
        rest.len() == 0 || !is_digit_char(rest[0]),
    ensures
        parse_nat(enc_nat(n) + rest) == Some((n, rest)),
{
    let s = enc_nat(n) + rest;
    lemma_enc_nat_digits(n);
    assert(s[0] == enc_nat(n)[0]);
    assert(is_digit_char(s[0]));
    lemma_acc_after_zero(n);
    lemma_rt_nat_rec(n, 0, rest);
}

proof fn lemma_rt_entry(e: (Seq<char>, nat), rest: Seq<char>)
    requires
        e.1 <= usize::MAX,
        rest.len() == 0 || !is_digit_char(rest[0]),
    ensures
        parse_entry(enc_entry(e) + rest) == Some((e, rest)),
{
    let s = enc_entry(e) + rest;
    let after_str = seq![':'] + enc_nat(e.1) + rest;
    assert(s =~= enc_string(e.0) + after_str);
    lemma_rt_string(e.0, after_str);
    assert(after_str[0] == ':');
    assert(after_str.drop_first() =~= enc_nat(e.1) + rest);
    lemma_rt_nat(e.1, rest);
}

/// Every count of the entries fits the machine.
pub open spec fn counts_bounded(es: Seq<(Seq<char>, nat)>) -> bool {
    forall|i: int| 0 <= i < es.len() ==> (#[trigger] es[i]).1 <= usize::MAX
}

proof fn lemma_enc_entries_rest_first(es: Seq<(Seq<char>, nat)>, rest: Seq<char>)
    ensures
        (enc_entries_rest(es) + seq!['}'] + rest).len() > 0,
        !is_digit_char((enc_entries_rest(es) + seq!['}'] + rest)[0]),
{
    let s = enc_entries_rest(es) + seq!['}'] + rest;
    if es.len() == 0 {
        assert(s[0] == '}');
    } else {
        assert(s[0] == ',');
    }
}

proof fn lemma_rt_entries_rest(es: Seq<(Seq<char>, nat)>, rest: Seq<char>)
    requires
        counts_bounded(es),
    ensures
        parse_entries_rest(enc_entries_rest(es) + seq!['}'] + rest) == Some((es, rest)),
    decreases es.len(),
{
    let s = enc_entries_rest(es) + seq!['}'] + rest;
    if es.len() == 0 {
        assert(s =~= seq!['}'] + rest);
        assert(s[0] == '}');
        assert(s.drop_first() =~= rest);
        assert(es =~= Seq::<(Seq<char>, nat)>::empty());
    } else {
        let e = es[0];
        let es2 = es.drop_first();
        assert(counts_bounded(es2)) by {
            assert(forall|i: int| 0 <= i < es2.len() ==> (#[trigger] es2[i]) == es[i + 1]);
        }
        let tail = enc_entries_rest(es2) + seq!['}'] + rest;
        assert(s =~= seq![','] + (enc_entry(e) + tail));
        assert(s[0] == ',');
        assert(s[0] != '}');
        assert(s.drop_first() =~= enc_entry(e) + tail);
        lemma_enc_entries_rest_first(es2, rest);
        lemma_rt_entry(e, tail);
        assert(tail.len() < s.len()) by {
            assert(s.len() == 1 + enc_entry(e).len() + tail.len());
        }
        lemma_rt_entries_rest(es2, rest);
        assert(seq![e] + es2 =~= es);
    }
}

proof fn lemma_rt_tf(es: Seq<(Seq<char>, nat)>, rest: Seq<char>)
    requires
        counts_bounded(es),
    ensures
        parse_tf(enc_tf(es) + rest) == Some((es, rest)),
{
    let s = enc_tf(es) + rest;
    if es.len() == 0 {
        assert(s =~= seq!['{', '}'] + rest);
        assert(s[0] == '{' && s[1] == '}');
        assert(s.skip(2) =~= rest);
        assert(es =~= Seq::<(Seq<char>, nat)>::empty());
    } else {
        let e = es[0];
        let es2 = es.drop_first();
        assert(counts_bounded(es2)) by {
            assert(forall|i: int| 0 <= i < es2.len() ==> (#[trigger] es2[i]) == es[i + 1]);
        }
        let tail = enc_entries_rest(es2) + seq!['}'] + rest;
        assert(s =~= seq!['{'] + (enc_entry(e) + tail));
        assert(s[0] == '{');
        assert(s[1] == enc_string(e.0)[0]);
        assert(s[1] == '"');
        assert(!(s.len() >= 2 && s[0] == '{' && s[1] == '}'));
        assert(s.drop_first() =~= enc_entry(e) + tail);
        lemma_enc_entries_rest_first(es2, rest);
        lemma_rt_entry(e, tail);
        assert(tail.len() < s.len()) by {
            assert(s.len() == 1 + enc_entry(e).len() + tail.len());
        }
        lemma_rt_entries_rest(es2, rest);
        assert(seq![e] + es2 =~= es);
    }
}

proof fn lemma_rt_doc(d: (Seq<char>, Seq<(Seq<char>, nat)>), rest: Seq<char>)
    requires
        counts_bounded(d.1),
    ensures
        parse_doc(enc_doc(d) + rest) == Some((d, rest)),
{
    let s = enc_doc(d) + rest;
    let after_str = seq![':'] + enc_tf(d.1) + rest;
    assert(s =~= enc_string(d.0) + after_str);
    lemma_rt_string(d.0, after_str);
    assert(after_str[0] == ':');
    assert(after_str.drop_first() =~= enc_tf(d.1) + rest);
    lemma_rt_tf(d.1, rest);
}

/// Every count of every document fits the machine.
pub open spec fn docs_counts_bounded(ds: Seq<(Seq<char>, Seq<(Seq<char>, nat)>)>) -> bool {
    forall|i: int| 0 <= i < ds.len() ==> counts_bounded((#[trigger] ds[i]).1)
}

proof fn lemma_rt_docs_rest(ds: Seq<(Seq<char>, Seq<(Seq<char>, nat)>)>, rest: Seq<char>)
    requires
        docs_counts_bounded(ds),
    ensures
        parse_docs_rest(enc_docs_rest(ds) + seq!['}'] + rest) == Some((ds, rest)),
    decreases ds.len(),
{
    let s = enc_docs_rest(ds) + seq!['}'] + rest;
    if ds.len() == 0 {
        assert(s =~= seq!['}'] + rest);
        assert(s[0] == '}');
        assert(s.drop_first() =~= rest);
        assert(ds =~= Seq::<(Seq<char>, Seq<(Seq<char>, nat)>)>::empty());
    } else {
        let d = ds[0];
        let ds2 = ds.drop_first();
        assert(docs_counts_bounded(ds2)) by {
            assert(forall|i: int| 0 <= i < ds2.len() ==> (#[trigger] ds2[i]) == ds[i + 1]);
        }
        let tail = enc_docs_rest(ds2) + seq!['}'] + rest;
        assert(s =~= seq![','] + (enc_doc(d) + tail));
        assert(s[0] == ',');
        assert(s[0] != '}');
        assert(s.drop_first() =~= enc_doc(d) + tail);
        lemma_rt_doc(d, tail);
        assert(tail.len() < s.len()) by {
            assert(s.len() == 1 + enc_doc(d).len() + tail.len());
        }
        lemma_rt_docs_rest(ds2, rest);
        assert(seq![d] + ds2 =~= ds);
    }
}

proof fn lemma_rt_index(ds: Seq<(Seq<char>, Seq<(Seq<char>, nat)>)>, rest: Seq<char>)
    requires
        docs_counts_bounded(ds),
    ensures
        parse_index(enc_index(ds) + rest) == Some((ds, rest)),
{
    let s = enc_index(ds) + rest;
    if ds.len() == 0 {
        assert(s =~= seq!['{', '}'] + rest);
        assert(s[0] == '{' && s[1] == '}');
        assert(s.skip(2) =~= rest);
        assert(ds =~= Seq::<(Seq<char>, Seq<(Seq<char>, nat)>)>::empty());
    } else {
        let d = ds[0];
        let ds2 = ds.drop_first();
        assert(docs_counts_bounded(ds2)) by {
            assert(forall|i: int| 0 <= i < ds2.len() ==> (#[trigger] ds2[i]) == ds[i + 1]);
        }
        let tail = enc_docs_rest(ds2) + seq!['}'] + rest;
        assert(s =~= seq!['{'] + (enc_doc(d) + tail));
        assert(s[0] == '{');
        assert(s[1] == enc_string(d.0)[0]);
        assert(s[1] == '"');
        assert(!(s.len() >= 2 && s[0] == '{' && s[1] == '}'));
        assert(s.drop_first() =~= enc_doc(d) + tail);
        lemma_rt_doc(d, tail);
        assert(tail.len() < s.len()) by {
            assert(s.len() == 1 + enc_doc(d).len() + tail.len());
        }
        lemma_rt_docs_rest(ds2, rest);
        assert(seq![d] + ds2 =~= ds);
    }
}

/// The round trip: loading what was saved gives the same index back —
/// the same documents, in the same order, with the same token counts.
pub proof fn lemma_save_load_round_trip(ds: Seq<(Seq<char>, Seq<(Seq<char>, nat)>)>)
    requires
        index_data_valid(ds),
    ensures
        spec_load(enc_index(ds)) == Some(ds),
{
    assert(docs_counts_bounded(ds)) by {
        assert forall|i: int| 0 <= i < ds.len() implies counts_bounded((#[trigger] ds[i]).1) by {
            let es = ds[i].1;
            assert(tf_entries_valid(es));
            assert forall|j: int| 0 <= j < es.len() implies (#[trigger] es[j]).1 <= usize::MAX by {
                lemma_count_le_sum(es, j);
            }
        }
    }
    lemma_rt_index(ds, Seq::empty());
    assert(enc_index(ds) + Seq::empty() =~= enc_index(ds));
}

// ---------------------------------------------------------------------------
// The executable encoder
// ---------------------------------------------------------------------------
proof fn lemma_enc_str_body_snoc(t: Seq<char>, c: char)
    ensures
        enc_str_body(t.push(c)) == enc_str_body(t) + esc_char(c),
    decreases t.len(),
{
    reveal_with_fuel(enc_str_body, 2);
    let tp = t.push(c);
    if t.len() == 0 {
        assert(tp[0] == c);
        assert(tp.drop_first() =~= Seq::<char>::empty());
        assert(enc_str_body(tp) =~= enc_str_body(t) + esc_char(c));
    } else {
        assert(tp[0] == t[0]);
        assert(tp.drop_first() =~= t.drop_first().push(c));
        lemma_enc_str_body_snoc(t.drop_first(), c);
        assert(enc_str_body(tp) =~= enc_str_body(t) + esc_char(c));
    }
}

proof fn lemma_enc_entries_rest_snoc(t: Seq<(Seq<char>, nat)>, x: (Seq<char>, nat))
    ensures
        enc_entries_rest(t.push(x)) == enc_entries_rest(t) + seq![','] + enc_entry(x),
    decreases t.len(),
{
    reveal_with_fuel(enc_entries_rest, 2);
    let tp = t.push(x);
    if t.len() == 0 {
        assert(tp[0] == x);
        assert(tp.drop_first() =~= Seq::<(Seq<char>, nat)>::empty());
        assert(enc_entries_rest(tp) =~= enc_entries_rest(t) + seq![','] + enc_entry(x));
    } else {
        assert(tp[0] == t[0]);
        assert(tp.drop_first() =~= t.drop_first().push(x));
        lemma_enc_entries_rest_snoc(t.drop_first(), x);
        assert(enc_entries_rest(tp) =~= enc_entries_rest(t) + seq![','] + enc_entry(x));
    }
}

proof fn lemma_enc_docs_rest_snoc(
    t: Seq<(Seq<char>, Seq<(Seq<char>, nat)>)>,
    x: (Seq<char>, Seq<(Seq<char>, nat)>),
)
    ensures
        enc_docs_rest(t.push(x)) == enc_docs_rest(t) + seq![','] + enc_doc(x),
    decreases t.len(),
{
    reveal_with_fuel(enc_docs_rest, 2);
    let tp = t.push(x);
    if t.len() == 0 {
        assert(tp[0] == x);
        assert(tp.drop_first() =~= Seq::<(Seq<char>, Seq<(Seq<char>, nat)>)>::empty());
        assert(enc_docs_rest(tp) =~= enc_docs_rest(t) + seq![','] + enc_doc(x));
    } else {
        assert(tp[0] == t[0]);
        assert(tp.drop_first() =~= t.drop_first().push(x));
        lemma_enc_docs_rest_snoc(t.drop_first(), x);
        assert(enc_docs_rest(tp) =~= enc_docs_rest(t) + seq![','] + enc_doc(x));
    }
}

fn digit_to_char(d: usize) -> (c: char)
    requires
        d < 10,
    ensures
        c == digit_char(d as nat),
{
    if d == 0 {
        '0'
    } else if d == 1 {
        '1'
    } else if d == 2 {
        '2'
    } else if d == 3 {
        '3'
    } else if d == 4 {
        '4'
    } else if d == 5 {
        '5'
    } else if d == 6 {
        '6'
    } else if d == 7 {
        '7'
    } else if d == 8 {
        '8'
    } else {
        '9'
    }
}

fn hex_to_char(d: u32) -> (c: char)
    requires
        d < 16,
    ensures
        c == hex_char(d as nat),
{
    if d < 10 {
        digit_to_char(d as usize)
    } else if d == 10 {
        'a'
    } else if d == 11 {
        'b'
    } else if d == 12 {
        'c'
    } else if d == 13 {
        'd'
    } else if d == 14 {
        'e'
    } else {
        'f'
    }
}

fn push_escaped_string(out: &mut Vec<char>, s: &String)
    ensures
        final(out)@ == old(out)@ + enc_string(s@),
{
    let ghost base = out@;
    out.push('"');
    let n = s.as_str().unicode_len();
    let mut i: usize = 0;
    while i < n
        invariant
            i <= n,
            n == s@.len(),
            out@ == base + seq!['"'] + enc_str_body(s@.take(i as int)),
        decreases n - i,
    {
        let c = s.as_str().get_char(i);
        let u = c as u32;
        if c == '"' || c == '\\' {
            out.push('\\');
            out.push(c);
        } else if c == '\u{8}' {
            out.push('\\');
            out.push('b');
        } else if c == '\t' {
            out.push('\\');
            out.push('t');
        } else if c == '\n' {
            out.push('\\');
            out.push('n');
        } else if c == '\u{c}' {
            out.push('\\');
            out.push('f');
        } else if c == '\r' {
            out.push('\\');
            out.push('r');
        } else if u < 32 {
            out.push('\\');
            out.push('u');
            out.push('0');
            out.push('0');
            assert(u / 16 < 16 && u % 16 < 16) by (nonlinear_arith)
                requires
                    u < 32,
            ;
            out.push(hex_to_char(u / 16));
            out.push(hex_to_char(u % 16));
        } else {
            out.push(c);
        }
        proof {
            assert(out@ =~= base + seq!['"'] + enc_str_body(s@.take(i as int)) + esc_char(
                s@[i as int],
            ));
            lemma_enc_str_body_snoc(s@.take(i as int), s@[i as int]);
            assert(s@.take(i + 1) =~= s@.take(i as int).push(s@[i as int]));
            assert(out@ =~= base + seq!['"'] + enc_str_body(s@.take(i + 1)));
        }
        i = i + 1;
    }
    out.push('"');
    proof {
        assert(s@.take(n as int) =~= s@);
        assert(out@ =~= base + enc_string(s@));
    }
}

fn push_nat(out: &mut Vec<char>, n: usize)
    ensures
        final(out)@ == old(out)@ + enc_nat(n as nat),
    decreases n,
{
    let ghost base = out@;
    if n >= 10 {
        push_nat(out, n / 10);
        out.push(digit_to_char(n % 10));
        proof {
            assert((n / 10) as nat == n as nat / 10);
            assert((n % 10) as nat == n as nat % 10);
            assert(out@ =~= base + enc_nat(n as nat));
        }
    } else {
        out.push(digit_to_char(n));
        proof {
            assert(out@ =~= base + enc_nat(n as nat));
        }
    }
}

fn push_tf(out: &mut Vec<char>, tf: &TermFreq)
    ensures
        final(out)@ == old(out)@ + enc_tf(tf.entries_view()),
{
    let ghost base = out@;
    let ghost es = tf.entries_view();
    out.push('{');
    let n = tf.len();
    let mut i: usize = 0;
    while i < n
        invariant
            i <= n,
            n == es.len(),
            es == tf.entries_view(),
            i == 0 ==> out@ == base + seq!['{'],
            i > 0 ==> out@ == base + seq!['{'] + enc_entry(es[0]) + enc_entries_rest(
                es.take(i as int).drop_first(),
            ),
        decreases n - i,
    {
        let ghost before = out@;
        if i > 0 {
            out.push(',');
        }
        push_escaped_string(out, tf.term_at(i));
        out.push(':');
        push_nat(out, tf.count_at(i));
        proof {
            if i == 0 {
                assert(out@ =~= base + seq!['{'] + enc_entry(es[0]));
                assert(es.take(1).drop_first() =~= Seq::<(Seq<char>, nat)>::empty());
                assert(out@ =~= base + seq!['{'] + enc_entry(es[0]) + enc_entries_rest(
                    es.take(1).drop_first(),
                ));
            } else {
                lemma_enc_entries_rest_snoc(es.take(i as int).drop_first(), es[i as int]);
                assert(es.take(i + 1).drop_first() =~= es.take(i as int).drop_first().push(
                    es[i as int],
                ));
                assert(out@ =~= before + seq![','] + enc_entry(es[i as int]));
                assert(out@ =~= base + seq!['{'] + enc_entry(es[0]) + enc_entries_rest(
                    es.take(i + 1).drop_first(),
                ));
            }
        }
        i = i + 1;
    }
    out.push('}');
    proof {
        if n == 0 {
            assert(out@ =~= base + enc_tf(es));
        } else {
            assert(es.take(n as int) =~= es);
            assert(es.take(n as int).drop_first() =~= es.drop_first());
            assert(out@ =~= base + enc_tf(es));
        }
    }
}

/// Writes the whole index in its persisted form.
pub fn save_index(tfi: &CorpusIndex) -> (out: Vec<char>)
    ensures
        out@ == enc_index(tfi.docs_view()),
{
    let ghost ds = tfi.docs_view();
    let mut out: Vec<char> = Vec::new();
    out.push('{');
    proof {
        assert(out@ =~= seq!['{']);
    }
    let n = tfi.len();
    let mut i: usize = 0;
    while i < n
        invariant
            i <= n,
            n == ds.len(),
            ds == tfi.docs_view(),
            i == 0 ==> out@ == seq!['{'],
            i > 0 ==> out@ == seq!['{'] + enc_doc(ds[0]) + enc_docs_rest(
                ds.take(i as int).drop_first(),
            ),
        decreases n - i,
    {
        let ghost before = out@;
        if i > 0 {
            out.push(',');
        }
        push_escaped_string(&mut out, tfi.path_at(i));
        out.push(':');
        push_tf(&mut out, tfi.freqs_at(i));
        proof {
            if i == 0 {
                assert(out@ =~= seq!['{'] + enc_doc(ds[0]));
                assert(ds.take(1).drop_first() =~= Seq::<(Seq<char>, Seq<(Seq<char>, nat)>)>::empty());
                assert(out@ =~= seq!['{'] + enc_doc(ds[0]) + enc_docs_rest(ds.take(1).drop_first()));
            } else {
                lemma_enc_docs_rest_snoc(ds.take(i as int).drop_first(), ds[i as int]);
                assert(ds.take(i + 1).drop_first() =~= ds.take(i as int).drop_first().push(
                    ds[i as int],
                ));
                assert(out@ =~= before + seq![','] + enc_doc(ds[i as int]));
                assert(out@ =~= seq!['{'] + enc_doc(ds[0]) + enc_docs_rest(
                    ds.take(i + 1).drop_first(),
                ));
            }
        }
        i = i + 1;
    }
    out.push('}');
    proof {
        if n == 0 {
            assert(out@ =~= enc_index(ds));
        } else {
            assert(ds.take(n as int) =~= ds);
            assert(ds.take(n as int).drop_first() =~= ds.drop_first());
            assert(out@ =~= enc_index(ds));
        }
    }
    out
}

// ---------------------------------------------------------------------------
// The executable decoder
// ---------------------------------------------------------------------------
fn unescape_short_exec(e: char) -> (r: Option<char>)
    ensures
        r == unescape_short(e),
{
    if e == '"' {
        Some('"')
    } else if e == '\\' {
        Some('\\')
    } else if e == '/' {
        Some('/')
    } else if e == 'b' {
        Some('\u{8}')
    } else if e == 'f' {
        Some('\u{c}')
    } else if e == 'n' {
        Some('\n')
    } else if e == 'r' {
        Some('\r')
    } else if e == 't' {
        Some('\t')
    } else {
        None
    }
}

fn is_hex_digit(c: char) -> (r: bool)
    ensures
        r == is_hex_char(c),
{
    let u = c as u32;
    (48 <= u && u <= 57) || (97 <= u && u <= 102) || (65 <= u && u <= 70)
}

fn hex_val_of(c: char) -> (r: u32)
    requires
        is_hex_char(c),
    ensures
        r as nat == hex_val(c),
        r <= 15,
{
    let u = c as u32;
    if 48 <= u && u <= 57 {
        u - 48
    } else if 97 <= u && u <= 102 {
        u - 87
    } else {
        u - 55
    }
}

fn p_string(v: &[char], i: usize) -> (r: Option<(String, usize)>)
    requires
        i <= v@.len(),
    ensures
        match parse_string(v@.skip(i as int)) {
            Option::None => r is None,
            Option::Some(q) => r matches Some(p) && p.0@ == q.0 && i < p.1 <= v@.len() && v@.skip(
                p.1 as int,
            ) == q.1,
        },
{
    let n = v.len();
    let ghost s0 = v@.skip(i as int);
    if i >= n {
        return None;
    }
    assert(s0[0] == v@[i as int]);
    if v[i] != '"' {
        return None;
    }
    proof {
        assert(s0.drop_first() =~= v@.skip(i + 1));
    }
    let mut acc = String::new();
    let mut j: usize = i + 1;
    while j < n
        invariant
            i + 1 <= j <= n,
            n == v@.len(),
            parse_string(v@.skip(i as int)) == parse_str_body(v@.skip(i + 1)),
            match parse_str_body(v@.skip(j as int)) {
                Option::Some(q) => parse_str_body(v@.skip(i + 1)) == Some::<
                    (Seq<char>, Seq<char>),
                >((acc@ + q.0, q.1)),
                Option::None => parse_str_body(v@.skip(i + 1)) is None,
            },
        decreases n - j,
    {
        let ghost sj = v@.skip(j as int);
        assert(sj[0] == v@[j as int]);
        let c = v[j];
        if c == '"' {
            proof {
                assert(sj.drop_first() =~= v@.skip(j + 1));
                assert(acc@ + Seq::<char>::empty() =~= acc@);
            }
            return Some((acc, j + 1));
        } else if c == '\\' {
            if j + 1 >= n {
                assert(sj.len() == 1);
                return None;
            }
            assert(sj[1] == v@[j + 1]);
            let c2 = v[j + 1];
            match unescape_short_exec(c2) {
                Some(un) => {
                    let ghost acc0 = acc@;
                    push_char(&mut acc, un);
                    proof {
                        assert(sj.skip(2) =~= v@.skip(j + 2));
                        assert(forall|t: Seq<char>| acc0.push(un) + t =~= acc0 + (seq![un] + t));
                    }
                    j = j + 2;
                },
                None => {
                    if c2 != 'u' {
                        assert(!valid_u_escape(sj));
                        return None;
                    }
                    if n - j < 6 {
                        assert(sj.len() < 6);
                        assert(!valid_u_escape(sj));
                        return None;
                    }
                    assert(sj[2] == v@[j + 2] && sj[3] == v@[j + 3] && sj[4] == v@[j + 4] && sj[5]
                        == v@[j + 5]);
                    let h2 = v[j + 2];
                    let h3 = v[j + 3];
                    let h4 = v[j + 4];
                    let h5 = v[j + 5];
                    if !(is_hex_digit(h2) && is_hex_digit(h3) && is_hex_digit(h4) && is_hex_digit(
                        h5,
                    )) {
                        assert(!valid_u_escape(sj));
                        return None;
                    }
                    let val: u32 = ((hex_val_of(h2) * 16 + hex_val_of(h3)) * 16 + hex_val_of(h4))
                        * 16 + hex_val_of(h5);
                    assert(val as nat == hex4_val(sj));
                    if 0xD800 <= val && val <= 0xDFFF {
                        assert(!valid_u_escape(sj));
                        return None;
                    }
                    assert(valid_u_escape(sj));
                    let ch = match char::from_u32(val) {
                        Some(ch) => ch,
                        None => {
                            proof {
                                assert(false);
                            }
                            return None;
                        },
                    };
                    proof {
                        vstd::utf8::char_u32_cast(ch, val);
                        assert(hex4_val(sj) as u32 == val);
                        assert(ch == ((hex4_val(sj) as u32) as char));
                    }
                    let ghost acc0 = acc@;
                    push_char(&mut acc, ch);
                    proof {
                        assert(sj.skip(6) =~= v@.skip(j + 6));
                        assert(forall|t: Seq<char>| acc0.push(ch) + t =~= acc0 + (seq![ch] + t));
                    }
                    j = j + 6;
                },
            }
        } else {
            let ghost acc0 = acc@;
            push_char(&mut acc, c);
            proof {
                assert(sj.drop_first() =~= v@.skip(j + 1));
                assert(forall|t: Seq<char>| acc0.push(c) + t =~= acc0 + (seq![c] + t));
            }
            j = j + 1;
        }
    }
    assert(v@.skip(j as int).len() == 0);
    None
}

fn p_nat(v: &[char], i: usize) -> (r: Option<(usize, usize)>)
    requires
        i <= v@.len(),
    ensures
        match parse_nat(v@.skip(i as int)) {
            Option::None => r is None,
            Option::Some(q) => r matches Some(p) && p.0 as nat == q.0 && i < p.1 <= v@.len()
                && v@.skip(p.1 as int) == q.1,
        },
{
    let n = v.len();
    let ghost s0 = v@.skip(i as int);
    if i >= n {
        return None;
    }
    assert(s0[0] == v@[i as int]);
    if !is_dec_digit(v[i]) {
        return None;
    }
    let mut acc: usize = 0;
    let mut j: usize = i;
    while j < n && is_dec_digit(v[j])
        invariant
            i <= j <= n,
            n == v@.len(),
            parse_nat_rec(v@.skip(i as int), 0) == parse_nat_rec(v@.skip(j as int), acc as nat),
            j == i ==> acc == 0,
            is_digit_char(v@[i as int]),
        decreases n - j,
    {
        let ghost sj = v@.skip(j as int);
        assert(sj[0] == v@[j as int]);
        let u = v[j] as u32;
        let d = (u - 48) as usize;
        assert(d as nat == digit_val(v@[j as int]));
        let step = match acc.checked_mul(10) {
            Some(x) => x.checked_add(d),
            None => None,
        };
        match step {
            Some(y) => {
                proof {
                    assert(sj.drop_first() =~= v@.skip(j + 1));
                }
                acc = y;
                j = j + 1;
            },
            None => {
                assert(acc as nat * 10 + digit_val(sj[0]) > usize::MAX);
                assert(parse_nat_rec(sj, acc as nat) is None);
                return None;
            },
        }
    }
    assert(parse_nat_rec(v@.skip(j as int), acc as nat) == Some::<(nat, Seq<char>)>(
        (acc as nat, v@.skip(j as int)),
    )) by {
        if j < n {
            assert(v@.skip(j as int)[0] == v@[j as int]);
        }
    }
    assert(j > i) by {
        if j == i {
            assert(is_digit_char(v@[j as int]));
        }
    }
    Some((acc, j))
}

fn p_entry(v: &[char], i: usize) -> (r: Option<(String, usize, usize)>)
    requires
        i <= v@.len(),
    ensures
        match parse_entry(v@.skip(i as int)) {
            Option::None => r is None,
            Option::Some(q) => r matches Some(p) && p.0@ == q.0.0 && p.1 as nat == q.0.1 && i < p.2
                <= v@.len() && v@.skip(p.2 as int) == q.1,
        },
{
    let n = v.len();
    match p_string(v, i) {
        None => None,
        Some((k, j1)) => {
            let ghost rem = v@.skip(j1 as int);
            if j1 >= n {
                assert(rem.len() == 0);
                return None;
            }
            assert(rem[0] == v@[j1 as int]);
            if v[j1] != ':' {
                return None;
            }
            proof {
                assert(rem.drop_first() =~= v@.skip(j1 + 1));
            }
            match p_nat(v, j1 + 1) {
                None => None,
                Some((c, j2)) => Some((k, c, j2)),
            }
        },
    }
}

fn p_entries_rest(v: &[char], i: usize, acc: Vec<(String, usize)>) -> (r: Option<
    (Vec<(String, usize)>, usize),
>)
    requires
        i <= v@.len(),
    ensures
        match parse_entries_rest(v@.skip(i as int)) {
            Option::None => r is None,
            Option::Some(q) => r matches Some(p) && entry_seq_view(p.0@) == entry_seq_view(acc@)
                + q.0 && i < p.1 <= v@.len() && v@.skip(p.1 as int) == q.1,
        },
{
    let n = v.len();
    let mut out = acc;
    let ghost base = entry_seq_view(acc@);
    let ghost mut done: Seq<(Seq<char>, nat)> = Seq::empty();
    let mut j: usize = i;
    proof {
        assert(base + done =~= base);
    }
    loop
        invariant
            i <= j <= n,
            n == v@.len(),
            base == entry_seq_view(acc@),
            entry_seq_view(out@) == base + done,
            match parse_entries_rest(v@.skip(j as int)) {
                Option::Some(q) => parse_entries_rest(v@.skip(i as int)) == Some::<
                    (Seq<(Seq<char>, nat)>, Seq<char>),
                >((done + q.0, q.1)),
                Option::None => parse_entries_rest(v@.skip(i as int)) is None,
            },
        decreases n - j,
    {
        if j >= n {
            assert(v@.skip(j as int).len() == 0);
            return None;
        }
        let ghost sj = v@.skip(j as int);
        assert(sj[0] == v@[j as int]);
        let c = v[j];
        if c == '}' {
            proof {
                assert(sj.drop_first() =~= v@.skip(j + 1));
                assert(done + Seq::<(Seq<char>, nat)>::empty() =~= done);
            }
            return Some((out, j + 1));
        }
        if c != ',' {
            return None;
        }
        proof {
            assert(sj.drop_first() =~= v@.skip(j + 1));
        }
        match p_entry(v, j + 1) {
            None => {
                return None;
            },
            Some((k, cnt, j2)) => {
                proof {
                    assert(v@.skip(j2 as int).len() < sj.len());
                }
                let ghost e = (k@, cnt as nat);
                let ghost out0 = entry_seq_view(out@);
                out.push((k, cnt));
                proof {
                    assert(entry_seq_view(out@) =~= out0.push(e));
                    assert(out0.push(e) =~= base + done.push(e));
                    assert(forall|es: Seq<(Seq<char>, nat)>|
                        done.push(e) + es =~= done + (seq![e] + es));
                    done = done.push(e);
                }
                j = j2;
            },
        }
    }
}

fn p_tf(v: &[char], i: usize) -> (r: Option<(Vec<(String, usize)>, usize)>)
    requires
        i <= v@.len(),
    ensures
        match parse_tf(v@.skip(i as int)) {
            Option::None => r is None,
            Option::Some(q) => r matches Some(p) && entry_seq_view(p.0@) == q.0 && i < p.1
                <= v@.len() && v@.skip(p.1 as int) == q.1,
        },
{
    let n = v.len();
    let ghost s0 = v@.skip(i as int);
    if i >= n {
        return None;
    }
    assert(s0[0] == v@[i as int]);
    if v[i] != '{' {
        return None;
    }
    if i + 1 < n {
        assert(s0[1] == v@[i + 1]);
    }
    if i + 1 < n && v[i + 1] == '}' {
        let out: Vec<(String, usize)> = Vec::new();
        proof {
            assert(s0.skip(2) =~= v@.skip(i + 2));
            assert(entry_seq_view(out@) =~= Seq::<(Seq<char>, nat)>::empty());
        }
        return Some((out, i + 2));
    }
    proof {
        assert(s0.drop_first() =~= v@.skip(i + 1));
    }
    match p_entry(v, i + 1) {
        None => None,
        Some((k, cnt, j2)) => {
            proof {
                assert(v@.skip(j2 as int).len() < s0.len());
            }
            let mut first: Vec<(String, usize)> = Vec::new();
            let ghost e = (k@, cnt as nat);
            first.push((k, cnt));
            proof {
                assert(entry_seq_view(first@) =~= seq![e]);
            }
            match p_entries_rest(v, j2, first) {
                None => None,
                Some((out, j3)) => {
                    proof {
                        if parse_entries_rest(v@.skip(j2 as int)) is Some {
                            let q = parse_entries_rest(v@.skip(j2 as int))->Some_0;
                            assert(entry_seq_view(out@) =~= seq![e] + q.0);
                        }
                    }
                    Some((out, j3))
                },
            }
        },
    }
}

fn p_doc(v: &[char], i: usize) -> (r: Option<(String, Vec<(String, usize)>, usize)>)
    requires
        i <= v@.len(),
    ensures
        match parse_doc(v@.skip(i as int)) {
            Option::None => r is None,
            Option::Some(q) => r matches Some(p) && p.0@ == q.0.0 && entry_seq_view(p.1@) == q.0.1
                && i < p.2 <= v@.len() && v@.skip(p.2 as int) == q.1,
        },
{
    let n = v.len();
    match p_string(v, i) {
        None => None,
        Some((path, j1)) => {
            let ghost rem = v@.skip(j1 as int);
            if j1 >= n {
                assert(rem.len() == 0);
                return None;
            }
            assert(rem[0] == v@[j1 as int]);
            if v[j1] != ':' {
                return None;
            }
            proof {
                assert(rem.drop_first() =~= v@.skip(j1 + 1));
            }
            match p_tf(v, j1 + 1) {
                None => None,
                Some((entries, j2)) => Some((path, entries, j2)),
            }
        },
    }
}

/// The view of a parsed raw document list.
pub open spec fn raw_doc_view(ds: Seq<(String, Vec<(String, usize)>)>) -> Seq<
    (Seq<char>, Seq<(Seq<char>, nat)>),
> {
    ds.map_values(|d: (String, Vec<(String, usize)>)| (d.0@, entry_seq_view(d.1@)))
}

fn p_docs_rest(v: &[char], i: usize, acc: Vec<(String, Vec<(String, usize)>)>) -> (r: Option<
    (Vec<(String, Vec<(String, usize)>)>, usize),
>)
    requires
        i <= v@.len(),
    ensures
        match parse_docs_rest(v@.skip(i as int)) {
            Option::None => r is None,
            Option::Some(q) => r matches Some(p) && raw_doc_view(p.0@) == raw_doc_view(acc@) + q.0
                && i < p.1 <= v@.len() && v@.skip(p.1 as int) == q.1,
        },
{
    let n = v.len();
    let mut out = acc;
    let ghost base = raw_doc_view(out@);
    let ghost mut done: Seq<(Seq<char>, Seq<(Seq<char>, nat)>)> = Seq::empty();
    let mut j: usize = i;
    proof {
        assert(base + done =~= base);
    }
    loop
        invariant
            i <= j <= n,
            n == v@.len(),
            base == raw_doc_view(acc@),
            raw_doc_view(out@) == base + done,
            match parse_docs_rest(v@.skip(j as int)) {
                Option::Some(q) => parse_docs_rest(v@.skip(i as int)) == Some::<
                    (Seq<(Seq<char>, Seq<(Seq<char>, nat)>)>, Seq<char>),
                >((done + q.0, q.1)),
                Option::None => parse_docs_rest(v@.skip(i as int)) is None,
            },
        decreases n - j,
    {
        if j >= n {
            assert(v@.skip(j as int).len() == 0);
            return None;
        }
        let ghost sj = v@.skip(j as int);
        assert(sj[0] == v@[j as int]);
        let c = v[j];
        if c == '}' {
            proof {
                assert(sj.drop_first() =~= v@.skip(j + 1));
                assert(done + Seq::<(Seq<char>, Seq<(Seq<char>, nat)>)>::empty() =~= done);
            }
            return Some((out, j + 1));
        }
        if c != ',' {
            return None;
        }
        proof {
            assert(sj.drop_first() =~= v@.skip(j + 1));
        }
        match p_doc(v, j + 1) {
            None => {
                return None;
            },
            Some((path, entries, j2)) => {
                proof {
                    assert(v@.skip(j2 as int).len() < sj.len());
                }
                let ghost d = (path@, entry_seq_view(entries@));
                let ghost out0 = raw_doc_view(out@);
                out.push((path, entries));
                proof {
                    assert(raw_doc_view(out@) =~= out0.push(d));
                    assert(out0.push(d) =~= base + done.push(d));
                    assert(forall|ds: Seq<(Seq<char>, Seq<(Seq<char>, nat)>)>|
                        done.push(d) + ds =~= done + (seq![d] + ds));
                    done = done.push(d);
                }
                j = j2;
            },
        }
    }
}

fn p_index(v: &[char], i: usize) -> (r: Option<(Vec<(String, Vec<(String, usize)>)>, usize)>)
    requires
        i <= v@.len(),
    ensures
        match parse_index(v@.skip(i as int)) {
            Option::None => r is None,
            Option::Some(q) => r matches Some(p) && raw_doc_view(p.0@) == q.0 && i < p.1
                <= v@.len() && v@.skip(p.1 as int) == q.1,
        },
{
    let n = v.len();
    let ghost s0 = v@.skip(i as int);
    if i >= n {
        return None;
    }
    assert(s0[0] == v@[i as int]);
    if v[i] != '{' {
        return None;
    }
    if i + 1 < n {
        assert(s0[1] == v@[i + 1]);
    }
    if i + 1 < n && v[i + 1] == '}' {
        let out: Vec<(String, Vec<(String, usize)>)> = Vec::new();
        proof {
            assert(s0.skip(2) =~= v@.skip(i + 2));
            assert(raw_doc_view(out@) =~= Seq::<(Seq<char>, Seq<(Seq<char>, nat)>)>::empty());
        }
        return Some((out, i + 2));
    }
    proof {
        assert(s0.drop_first() =~= v@.skip(i + 1));
    }
    match p_doc(v, i + 1) {
        None => None,
        Some((path, entries, j2)) => {
            proof {
                assert(v@.skip(j2 as int).len() < s0.len());
            }
            let mut first: Vec<(String, Vec<(String, usize)>)> = Vec::new();
            let ghost d = (path@, entry_seq_view(entries@));
            first.push((path, entries));
            proof {
                assert(raw_doc_view(first@) =~= seq![d]);
            }
            match p_docs_rest(v, j2, first) {
                None => None,
                Some((out, j3)) => {
                    proof {
                        if parse_docs_rest(v@.skip(j2 as int)) is Some {
                            let q = parse_docs_rest(v@.skip(j2 as int))->Some_0;
                            assert(raw_doc_view(out@) =~= seq![d] + q.0);
                        }
                    }
                    Some((out, j3))
                },
            }
        },
    }
}

/// Why loading an index failed: the input is not a structurally valid
/// persisted index.
#[derive(Debug, PartialEq)]
pub enum LoadError {
    Invalid,
}

/// Reads an index back from its persisted form. Succeeds exactly on input
/// that parses completely as the persisted format and carries valid data:
/// unique paths, unique tokens per document, positive counts, totals that
/// fit the machine. Anything else is a fatal load error.
pub fn load_index(input: &[char]) -> (r: Result<CorpusIndex, LoadError>)
    ensures
        r is Ok <==> spec_load(input@) is Some,
        r matches Ok(idx) ==> idx.wf() && Some(idx.docs_view()) == spec_load(input@),
{
    proof {
        assert(input@.skip(0) =~= input@);
    }
    let n_in = input.len();
    let mut raw = match p_index(input, 0) {
        None => {
            return Err(LoadError::Invalid);
        },
        Some((raw, j)) => {
            if j != n_in {
                assert(input@.skip(j as int).len() > 0);
                return Err(LoadError::Invalid);
            }
            assert(input@.skip(j as int).len() == 0);
            raw
        },
    };
    let ghost rv = raw_doc_view(raw@);
    let ghost orig = raw@;
    let mut docs: Vec<(String, TermFreq)> = Vec::new();
    let n = raw.len();
    let mut d: usize = 0;
    while d < n
        invariant
            d <= n,
            n == orig.len(),
            rv == raw_doc_view(orig),
            parse_index(input@) matches Some(pq) && pq.0 == rv && pq.1.len() == 0,
            raw@ == orig.skip(d as int),
            docs@.len() == d,
            forall|e: int|
                0 <= e < d ==> (#[trigger] docs@[e]).1.wf() && docs@[e].0@ == rv[e].0
                    && docs@[e].1.entries_view() == rv[e].1,
            forall|e: int| 0 <= e < d ==> tf_entries_valid((#[trigger] rv[e]).1),
        decreases n - d,
    {
        let (path, entries) = raw.remove(0);
        proof {
            assert(orig.skip(d as int)[0] == orig[d as int]);
            assert(orig.skip(d as int).remove(0) =~= orig.skip(d + 1));
            assert(rv[d as int] == (orig[d as int].0@, entry_seq_view(orig[d as int].1@)));
        }
        match TermFreq::from_entries(entries) {
            None => {
                assert(!tf_entries_valid(rv[d as int].1));
                return Err(LoadError::Invalid);
            },
            Some(tf) => {
                docs.push((path, tf));
            },
        }
        d = d + 1;
    }
    let ghost dsv = doc_seq_view(docs@);
    proof {
        assert(dsv =~= rv);
    }
    match CorpusIndex::from_docs(docs) {
        None => {
            assert(!keys_unique(rv));
            Err(LoadError::Invalid)
        },
        Some(idx) => {
            assert(index_data_valid(rv));
            Ok(idx)
        },
    }
}

/// The round trip for a well-formed index value: loading the saved form
/// of `idx` succeeds and gives back exactly its documents — the same
/// paths, the same per-document token counts, in the same order.
pub proof fn lemma_index_round_trip(idx: &CorpusIndex)
    requires
        idx.wf(),
    ensures
        spec_load(enc_index(idx.docs_view())) == Some(idx.docs_view()),
{
    crate::index::lemma_wf_valid(idx);
    lemma_save_load_round_trip(idx.docs_view());
}

} // verus!
