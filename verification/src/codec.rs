//! The persisted text format of the comment store: a pretty-printed JSON
//! array of comment objects, two-space indented, with optional fields left
//! out entirely and the write-only author email never emitted.
//!
//! Both directions are defined as spec functions over character sequences
//! ([`ser_store`] and [`p_store`]); the executable encoder and decoder are
//! proved to compute exactly those functions, and [`lemma_round_trip`] proves
//! that decoding an encoded store gives the same comments back, with only
//! the email field forgotten.
//!
//! The decoder is deliberately strict: it accepts exactly the canonical
//! layout this encoder writes (fixed indentation and field order), so that
//! loading stays fail-fast on anything it would not itself have produced.

use vstd::prelude::*;
use vstd::string::StrSliceExecFns;

use crate::models::{AuthorInfo, AuthorView, Comment, CommentView};

verus! {

// ---------------------------------------------------------------------------
// Decimal digits
// ---------------------------------------------------------------------------

pub open spec fn digit_char(d: nat) -> char {
    if d == 0 {
        '0'
    } else if d == 1 {
        '1'
    } else if d == 2 {
        '2'
    } else if d == 3 {
        '3'
    } else if d == 4 {
        '4'
    } else if d == 5 {
        '5'
    } else if d == 6 {
        '6'
    } else if d == 7 {
        '7'
    } else if d == 8 {
        '8'
    } else {
        '9'
    }
}

pub open spec fn is_digit(c: char) -> bool {
    c == '0' || c == '1' || c == '2' || c == '3' || c == '4' || c == '5' || c == '6' || c == '7'
        || c == '8' || c == '9'
}

pub open spec fn digit_val(c: char) -> nat {
    if c == '0' {
        0
    } else if c == '1' {
        1
    } else if c == '2' {
        2
    } else if c == '3' {
        3
    } else if c == '4' {
        4
    } else if c == '5' {
        5
    } else if c == '6' {
        6
    } else if c == '7' {
        7
    } else if c == '8' {
        8
    } else {
        9
    }
}

/// The canonical decimal form of `n`: no sign, no leading zero except for 0.
pub open spec fn dec_nat(n: nat) -> Seq<char>
    decreases n,
{
    if n < 10 {
        seq![digit_char(n)]
    } else {
        dec_nat(n / 10).push(digit_char(n % 10))
    }
}

/// The canonical decimal form of a signed number.
pub open spec fn dec_int(n: int) -> Seq<char> {
    if n < 0 {
        seq!['-'] + dec_nat((-n) as nat)
    } else {
        dec_nat(n as nat)
    }
}

/// The numeric value of a run of decimal digits.
pub open spec fn digits_val(s: Seq<char>) -> nat
    decreases s.len(),
{
    if s.len() == 0 {
        0
    } else {
        digits_val(s.drop_last()) * 10 + digit_val(s.last())
    }
}

// ---------------------------------------------------------------------------
// String escaping
// ---------------------------------------------------------------------------

/// How one character appears inside a quoted string: quote, backslash and the
/// common control characters are escaped, everything else stands as itself.
pub open spec fn esc_char(c: char) -> Seq<char> {
    if c == '"' {
        seq!['\\', '"']
    } else if c == '\\' {
        seq!['\\', '\\']
    } else if c == '\u{8}' {
        seq!['\\', 'b']
    } else if c == '\t' {
        seq!['\\', 't']
    } else if c == '\n' {
        seq!['\\', 'n']
    } else if c == '\u{c}' {
        seq!['\\', 'f']
    } else if c == '\r' {
        seq!['\\', 'r']
    } else {
        seq![c]
    }
}

/// The character an escape letter stands for, if it is one of the accepted ones.
pub open spec fn unesc_char(e: char) -> Option<char> {
    if e == '"' {
        Some('"')
    } else if e == '\\' {
        Some('\\')
    } else if e == 'b' {
        Some('\u{8}')
    } else if e == 't' {
        Some('\t')
    } else if e == 'n' {
        Some('\n')
    } else if e == 'f' {
        Some('\u{c}')
    } else if e == 'r' {
        Some('\r')
    } else {
        None
    }
}

pub open spec fn ser_chars(s: Seq<char>) -> Seq<char>
    decreases s.len(),
{
    if s.len() == 0 {
        Seq::empty()
    } else {
        esc_char(s[0]) + ser_chars(s.skip(1))
    }
}

/// A quoted, escaped string.
pub open spec fn ser_string(s: Seq<char>) -> Seq<char> {
    seq!['"'] + ser_chars(s) + seq!['"']
}

// ---------------------------------------------------------------------------
// Fixed pieces of the pretty-printed layout
// ---------------------------------------------------------------------------

pub open spec fn comma_nl() -> Seq<char> {
    seq![',', '\n']
}

pub open spec fn obj_open() -> Seq<char> {
    seq!['{', '\n']
}

/// Closes a comment object, back at the array item's indent.
pub open spec fn obj_close() -> Seq<char> {
    seq!['\n', ' ', ' ', '}']
}

pub open spec fn key_uid() -> Seq<char> {
    seq![' ', ' ', ' ', ' ', '"', 'u', 'i', 'd', '"', ':', ' ']
}

pub open spec fn key_on() -> Seq<char> {
    seq![' ', ' ', ' ', ' ', '"', 'o', 'n', '"', ':', ' ']
}

pub open spec fn key_comment() -> Seq<char> {
    seq![' ', ' ', ' ', ' ', '"', 'c', 'o', 'm', 'm', 'e', 'n', 't', '"', ':', ' ']
}

pub open spec fn key_created() -> Seq<char> {
    seq![' ', ' ', ' ', ' ', '"', 'c', 'r', 'e', 'a', 't', 'e', 'd', '"', ':', ' ']
}

pub open spec fn key_updated() -> Seq<char> {
    seq![' ', ' ', ' ', ' ', '"', 'u', 'p', 'd', 'a', 't', 'e', 'd', '"', ':', ' ']
}

pub open spec fn key_author() -> Seq<char> {
    seq![' ', ' ', ' ', ' ', '"', 'a', 'u', 't', 'h', 'o', 'r', '"', ':', ' ']
}

pub open spec fn key_name() -> Seq<char> {
    seq![' ', ' ', ' ', ' ', ' ', ' ', '"', 'n', 'a', 'm', 'e', '"', ':', ' ']
}

pub open spec fn key_website() -> Seq<char> {
    seq![' ', ' ', ' ', ' ', ' ', ' ', '"', 'w', 'e', 'b', 's', 'i', 't', 'e', '"', ':', ' ']
}

/// Closes the nested author object, back at the field indent.
pub open spec fn author_close() -> Seq<char> {
    seq!['\n', ' ', ' ', ' ', ' ', '}']
}

pub open spec fn arr_open() -> Seq<char> {
    seq!['[', '\n']
}

pub open spec fn arr_close() -> Seq<char> {
    seq!['\n', ']']
}

pub open spec fn item_indent() -> Seq<char> {
    seq![' ', ' ']
}

// ---------------------------------------------------------------------------
// Serialized form of authors, comments and the whole store
// ---------------------------------------------------------------------------

/// The author object; the email field is write-only and never appears.
#[verifier::opaque]
pub open spec fn ser_author(a: AuthorView) -> Seq<char> {
    if a.name is None && a.website is None {
        seq!['{', '}']
    } else {
        obj_open() + (match a.name {
            Some(n) => key_name() + ser_string(n),
            None => Seq::empty(),
        }) + (match a.website {
            Some(w) => (if a.name is Some {
                comma_nl()
            } else {
                Seq::empty()
            }) + key_website() + ser_string(w),
            None => Seq::empty(),
        }) + author_close()
    }
}

/// The id field with its trailing separator, or nothing when unassigned.
pub open spec fn uid_part(uid: Option<u16>) -> Seq<char> {
    match uid {
        Some(u) => key_uid() + dec_nat(u as nat) + comma_nl(),
        None => Seq::empty(),
    }
}

/// The creation time with its leading separator, or nothing when absent.
pub open spec fn created_part(t: Option<i64>) -> Seq<char> {
    match t {
        Some(ms) => comma_nl() + key_created() + dec_int(ms as int),
        None => Seq::empty(),
    }
}

/// The update time with its leading separator, or nothing when absent.
pub open spec fn updated_part(t: Option<i64>) -> Seq<char> {
    match t {
        Some(ms) => comma_nl() + key_updated() + dec_int(ms as int),
        None => Seq::empty(),
    }
}

/// One comment object: optional fields are left out entirely when absent.
#[verifier::opaque]
pub open spec fn ser_comment(c: CommentView) -> Seq<char> {
    obj_open() + uid_part(c.uid) + key_on() + ser_string(c.on) + comma_nl() + key_comment()
        + ser_string(c.comment) + created_part(c.created) + updated_part(c.updated) + comma_nl()
        + key_author() + ser_author(c.author) + obj_close()
}

pub open spec fn ser_items(cs: Seq<CommentView>) -> Seq<char>
    decreases cs.len(),
{
    if cs.len() == 0 {
        Seq::empty()
    } else if cs.len() == 1 {
        item_indent() + ser_comment(cs[0])
    } else {
        item_indent() + ser_comment(cs[0]) + comma_nl() + ser_items(cs.skip(1))
    }
}

/// The whole persisted file: a pretty-printed array of comment objects.
pub open spec fn ser_store(cs: Seq<CommentView>) -> Seq<char> {
    if cs.len() == 0 {
        seq!['[', ']']
    } else {
        arr_open() + ser_items(cs) + arr_close()
    }
}

// ---------------------------------------------------------------------------
// Executable encoder
// ---------------------------------------------------------------------------

fn push_lit(out: &mut Vec<char>, lit: Vec<char>)
    ensures
        final(out)@ == old(out)@ + lit@,
{
    let mut l = lit;
    out.append(&mut l);
}

fn digit_to_char(d: u8) -> (c: char)
    requires
        d < 10,
    ensures
        c == digit_char(d as nat),
{
    if d == 0 {
        '0'
    } else if d == 1 {
        '1'
    } else if d == 2 {
        '2'
    } else if d == 3 {
        '3'
    } else if d == 4 {
        '4'
    } else if d == 5 {
        '5'
    } else if d == 6 {
        '6'
    } else if d == 7 {
        '7'
    } else if d == 8 {
        '8'
    } else {
        '9'
    }
}

fn push_dec_u64(out: &mut Vec<char>, n: u64)
    ensures
        final(out)@ == old(out)@ + dec_nat(n as nat),
    decreases n,
{
    let ghost pre = out@;
    if n < 10 {
        out.push(digit_to_char(n as u8));
        assert(out@ =~= pre + dec_nat(n as nat));
    } else {
        assert(n / 10 < n && n / 10 >= 1);
        push_dec_u64(out, n / 10);
        out.push(digit_to_char((n % 10) as u8));
        assert(out@ =~= pre + dec_nat(n as nat));
    }
}

fn push_dec_i64(out: &mut Vec<char>, n: i64)
    ensures
        final(out)@ == old(out)@ + dec_int(n as int),
{
    let ghost pre = out@;
    if n >= 0 {
        push_dec_u64(out, n as u64);
    } else {
        out.push('-');
        let mag: u64 = if n == i64::MIN {
            9223372036854775808u64
        } else {
            (-n) as u64
        };
        assert(mag as nat == (-(n as int)) as nat);
        push_dec_u64(out, mag);
        assert(out@ =~= pre + dec_int(n as int));
    }
}

proof fn lemma_ser_chars_push(a: Seq<char>, c: char)
    ensures
        ser_chars(a.push(c)) == ser_chars(a) + esc_char(c),
    decreases a.len(),
{
    let ap = a.push(c);
    if a.len() == 0 {
        assert(ap =~= seq![c]);
        assert(ap.skip(1) =~= Seq::<char>::empty());
        assert(ser_chars(ap) == esc_char(c) + ser_chars(ap.skip(1)));
        assert(ser_chars(ap) =~= ser_chars(a) + esc_char(c));
    } else {
        assert(ap[0] == a[0]);
        assert(ap.skip(1) =~= a.skip(1).push(c));
        lemma_ser_chars_push(a.skip(1), c);
        assert(ser_chars(ap) == esc_char(ap[0]) + ser_chars(ap.skip(1)));
        assert(ser_chars(ap.skip(1)) == ser_chars(a.skip(1)) + esc_char(c));
        assert(ser_chars(a) == esc_char(a[0]) + ser_chars(a.skip(1)));
        assert(ser_chars(ap) =~= ser_chars(a) + esc_char(c));
    }
}

fn push_escaped_char(out: &mut Vec<char>, c: char)
    ensures
        final(out)@ == old(out)@ + esc_char(c),
{
    let ghost pre = out@;
    if c == '"' {
        out.push('\\');
        out.push('"');
    } else if c == '\\' {
        out.push('\\');
        out.push('\\');
    } else if c == '\u{8}' {
        out.push('\\');
        out.push('b');
    } else if c == '\t' {
        out.push('\\');
        out.push('t');
    } else if c == '\n' {
        out.push('\\');
        out.push('n');
    } else if c == '\u{c}' {
        out.push('\\');
        out.push('f');
    } else if c == '\r' {
        out.push('\\');
        out.push('r');
    } else {
        out.push(c);
    }
    assert(out@ =~= pre + esc_char(c));
}

fn push_string(out: &mut Vec<char>, s: &str)
    ensures
        final(out)@ == old(out)@ + ser_string(s@),
{
    let ghost pre = out@;
    out.push('"');
    let n = s.unicode_len();
    let ghost mid = out@;
    let mut i: usize = 0;
    while i < n
        invariant
            n == s@.len(),
            i <= n,
            out@ == mid + ser_chars(s@.take(i as int)),
        decreases n - i,
    {
        let c = s.get_char(i);
        push_escaped_char(out, c);
        proof {
            assert(s@.take(i + 1) =~= s@.take(i as int).push(s@[i as int]));
            lemma_ser_chars_push(s@.take(i as int), s@[i as int]);
        }
        i = i + 1;
    }
    proof {
        assert(s@.take(n as int) =~= s@);
    }
    out.push('"');
    assert(out@ =~= pre + ser_string(s@));
}

fn push_author(out: &mut Vec<char>, a: &AuthorInfo)
    ensures
        final(out)@ == old(out)@ + ser_author(a@),
{
    proof {
        reveal(ser_author);
    }
    let ghost pre = out@;
    match (&a.name, &a.website) {
        (None, None) => {
            out.push('{');
            out.push('}');
            assert(out@ =~= pre + ser_author(a@));
        },
        _ => {
            push_lit(out, vec!['{', '\n']);
            if let Some(n) = &a.name {
                push_lit(out, vec![' ', ' ', ' ', ' ', ' ', ' ', '"', 'n', 'a', 'm', 'e', '"', ':', ' ']);
                push_string(out, n.as_str());
            }
            if let Some(w) = &a.website {
                if a.name.is_some() {
                    push_lit(out, vec![',', '\n']);
                }
                push_lit(
                    out,
                    vec![' ', ' ', ' ', ' ', ' ', ' ', '"', 'w', 'e', 'b', 's', 'i', 't', 'e', '"', ':', ' '],
                );
                push_string(out, w.as_str());
            }
            push_lit(out, vec!['\n', ' ', ' ', ' ', ' ', '}']);
            assert(out@ =~= pre + ser_author(a@));
        },
    }
}

#[verifier::rlimit(100)]
fn push_comment(out: &mut Vec<char>, c: &Comment)
    ensures
        final(out)@ == old(out)@ + ser_comment(c@),
{
    proof {
        reveal(ser_comment);
    }
    let ghost pre = out@;
    push_lit(out, vec!['{', '\n']);
    if let Some(u) = c.uid {
        push_lit(out, vec![' ', ' ', ' ', ' ', '"', 'u', 'i', 'd', '"', ':', ' ']);
        push_dec_u64(out, u as u64);
        push_lit(out, vec![',', '\n']);
    }
    assert(out@ =~= pre + obj_open() + uid_part(c@.uid));
    push_lit(out, vec![' ', ' ', ' ', ' ', '"', 'o', 'n', '"', ':', ' ']);
    push_string(out, c.on.as_str());
    push_lit(out, vec![',', '\n']);
    push_lit(out, vec![' ', ' ', ' ', ' ', '"', 'c', 'o', 'm', 'm', 'e', 'n', 't', '"', ':', ' ']);
    push_string(out, c.comment.as_str());
    assert(out@ =~= pre + obj_open() + uid_part(c@.uid) + key_on() + ser_string(c@.on)
        + comma_nl() + key_comment() + ser_string(c@.comment));
    if let Some(t) = c.created {
        push_lit(out, vec![',', '\n']);
        push_lit(out, vec![' ', ' ', ' ', ' ', '"', 'c', 'r', 'e', 'a', 't', 'e', 'd', '"', ':', ' ']);
        push_dec_i64(out, t);
    }
    if let Some(t) = c.updated {
        push_lit(out, vec![',', '\n']);
        push_lit(out, vec![' ', ' ', ' ', ' ', '"', 'u', 'p', 'd', 'a', 't', 'e', 'd', '"', ':', ' ']);
        push_dec_i64(out, t);
    }
    assert(out@ =~= pre + obj_open() + uid_part(c@.uid) + key_on() + ser_string(c@.on)
        + comma_nl() + key_comment() + ser_string(c@.comment) + created_part(c@.created)
        + updated_part(c@.updated));
    push_lit(out, vec![',', '\n']);
    push_lit(out, vec![' ', ' ', ' ', ' ', '"', 'a', 'u', 't', 'h', 'o', 'r', '"', ':', ' ']);
    push_author(out, &c.author);
    push_lit(out, vec!['\n', ' ', ' ', '}']);
    assert(out@ =~= pre + ser_comment(c@));
}

proof fn lemma_ser_items_push(a: Seq<CommentView>, c: CommentView)
    requires
        a.len() >= 1,
    ensures
        ser_items(a.push(c)) == ser_items(a) + comma_nl() + item_indent() + ser_comment(c),
    decreases a.len(),
{
    let ap = a.push(c);
    assert(ap[0] == a[0]);
    if a.len() == 1 {
        assert(ap.skip(1) =~= seq![c]);
        assert(ser_items(ap) == item_indent() + ser_comment(ap[0]) + comma_nl() + ser_items(ap.skip(1)));
        assert(ser_items(ap.skip(1)) == item_indent() + ser_comment(c));
        assert(ser_items(a) == item_indent() + ser_comment(a[0]));
        assert(ser_items(ap) =~= ser_items(a) + comma_nl() + item_indent() + ser_comment(c));
    } else {
        assert(ap.skip(1) =~= a.skip(1).push(c));
        lemma_ser_items_push(a.skip(1), c);
        assert(ser_items(ap) == item_indent() + ser_comment(ap[0]) + comma_nl() + ser_items(ap.skip(1)));
        assert(ser_items(ap.skip(1)) == ser_items(a.skip(1)) + comma_nl() + item_indent() + ser_comment(c));
        assert(ser_items(a) == item_indent() + ser_comment(a[0]) + comma_nl() + ser_items(a.skip(1)));
        assert(ser_items(ap) =~= ser_items(a) + comma_nl() + item_indent() + ser_comment(c));
    }
}

/// Encode the comments as the persisted pretty-printed array.
pub fn serialize_store(comments: &Vec<Comment>) -> (out: Vec<char>)
    ensures
        out@ == ser_store(comments@.map_values(|c: Comment| c@)),
{
    let ghost views = comments@.map_values(|c: Comment| c@);
    let n = comments.len();
    if n == 0 {
        let out: Vec<char> = vec!['[', ']'];
        assert(out@ =~= ser_store(views));
        return out;
    }
    let mut out: Vec<char> = Vec::new();
    push_lit(&mut out, vec!['[', '\n']);
    push_lit(&mut out, vec![' ', ' ']);
    push_comment(&mut out, &comments[0]);
    proof {
        assert(views.take(1) =~= seq![views[0]]);
        assert(out@ =~= arr_open() + ser_items(views.take(1)));
    }
    let mut k: usize = 1;
    while k < n
        invariant
            n == comments.len(),
            1 <= k <= n,
            views == comments@.map_values(|c: Comment| c@),
            out@ == arr_open() + ser_items(views.take(k as int)),
        decreases n - k,
    {
        push_lit(&mut out, vec![',', '\n']);
        push_lit(&mut out, vec![' ', ' ']);
        push_comment(&mut out, &comments[k]);
        proof {
            assert(views.take(k + 1) =~= views.take(k as int).push(views[k as int]));
            lemma_ser_items_push(views.take(k as int), views[k as int]);
            assert(out@ =~= arr_open() + ser_items(views.take(k + 1)));
        }
        k = k + 1;
    }
    proof {
        assert(views.take(n as int) =~= views);
    }
    push_lit(&mut out, vec!['\n', ']']);
    assert(out@ =~= ser_store(views));
    out
}

// ---------------------------------------------------------------------------
// The accepted language: a recursive-descent definition of the decoder
// ---------------------------------------------------------------------------

/// Consume the literal `lit` from the front of `s`.
pub open spec fn expect(s: Seq<char>, lit: Seq<char>) -> Option<Seq<char>> {
    if lit.len() <= s.len() && s.take(lit.len() as int) == lit {
        Some(s.skip(lit.len() as int))
    } else {
        None
    }
}

pub open spec fn peek(s: Seq<char>, lit: Seq<char>) -> bool {
    expect(s, lit) is Some
}

/// Consume string contents up to and including the closing quote.
pub open spec fn p_chars(s: Seq<char>) -> Option<(Seq<char>, Seq<char>)>
    decreases s.len(),
{
    if s.len() == 0 {
        None
    } else if s[0] == '"' {
        Some((Seq::empty(), s.skip(1)))
    } else if s[0] == '\\' {
        if s.len() >= 2 {
            match unesc_char(s[1]) {
                Some(c) => match p_chars(s.skip(2)) {
                    Some(tr) => Some((seq![c] + tr.0, tr.1)),
                    None => None,
                },
                None => None,
            }
        } else {
            None
        }
    } else {
        match p_chars(s.skip(1)) {
            Some(tr) => Some((seq![s[0]] + tr.0, tr.1)),
            None => None,
        }
    }
}

/// Consume a quoted string.
pub open spec fn p_string(s: Seq<char>) -> Option<(Seq<char>, Seq<char>)> {
    if s.len() >= 1 && s[0] == '"' {
        p_chars(s.skip(1))
    } else {
        None
    }
}

/// Split the longest leading run of decimal digits off `s`.
pub open spec fn split_digits(s: Seq<char>) -> (Seq<char>, Seq<char>)
    decreases s.len(),
{
    if s.len() > 0 && is_digit(s[0]) {
        let dr = split_digits(s.skip(1));
        (seq![s[0]] + dr.0, dr.1)
    } else {
        (Seq::empty(), s)
    }
}

/// Consume an unsigned 16-bit decimal number.
pub open spec fn p_u16(s: Seq<char>) -> Option<(u16, Seq<char>)> {
    let dr = split_digits(s);
    if dr.0.len() == 0 {
        None
    } else if digits_val(dr.0) > 65535 {
        None
    } else {
        Some((digits_val(dr.0) as u16, dr.1))
    }
}

/// Consume a signed 64-bit decimal number.
pub open spec fn p_i64(s: Seq<char>) -> Option<(i64, Seq<char>)> {
    if s.len() > 0 && s[0] == '-' {
        let dr = split_digits(s.skip(1));
        if dr.0.len() == 0 {
            None
        } else if digits_val(dr.0) > 0x8000000000000000 {
            None
        } else {
            Some(((-(digits_val(dr.0) as int)) as i64, dr.1))
        }
    } else {
        let dr = split_digits(s);
        if dr.0.len() == 0 {
            None
        } else if digits_val(dr.0) > 0x7fffffffffffffff {
            None
        } else {
            Some((digits_val(dr.0) as i64, dr.1))
        }
    }
}

/// The optional id field with its trailing separator.
pub open spec fn p_uid_part(s: Seq<char>) -> Option<(Option<u16>, Seq<char>)> {
    match expect(s, key_uid()) {
        Some(r1) => match p_u16(r1) {
            Some((u, r2)) => match expect(r2, comma_nl()) {
                Some(r3) => Some((Some(u), r3)),
                None => None,
            },
            None => None,
        },
        None => Some((None, s)),
    }
}

/// The optional creation time with its leading separator.
pub open spec fn p_created_part(s: Seq<char>) -> Option<(Option<i64>, Seq<char>)> {
    match expect(s, comma_nl() + key_created()) {
        Some(r1) => match p_i64(r1) {
            Some((t, r2)) => Some((Some(t), r2)),
            None => None,
        },
        None => Some((None, s)),
    }
}

/// The optional update time with its leading separator.
pub open spec fn p_updated_part(s: Seq<char>) -> Option<(Option<i64>, Seq<char>)> {
    match expect(s, comma_nl() + key_updated()) {
        Some(r1) => match p_i64(r1) {
            Some((t, r2)) => Some((Some(t), r2)),
            None => None,
        },
        None => Some((None, s)),
    }
}

/// Consume the nested author object; a decoded author never carries an email.
#[verifier::opaque]
pub open spec fn p_author(s: Seq<char>) -> Option<(AuthorView, Seq<char>)> {
    if peek(s, seq!['{', '}']) {
        Some((AuthorView { name: None, website: None, email: None }, s.skip(2)))
    } else {
        match expect(s, obj_open()) {
            Some(r0) => match expect(r0, key_name()) {
                Some(r1) => match p_string(r1) {
                    Some((nm, r2)) => match expect(r2, comma_nl() + key_website()) {
                        Some(r3) => match p_string(r3) {
                            Some((ws, r4)) => match expect(r4, author_close()) {
                                Some(r5) => Some(
                                    (
                                        AuthorView {
                                            name: Some(nm),
                                            website: Some(ws),
                                            email: None,
                                        },
                                        r5,
                                    ),
                                ),
                                None => None,
                            },
                            None => None,
                        },
                        None => match expect(r2, author_close()) {
                            Some(r5) => Some(
                                (AuthorView { name: Some(nm), website: None, email: None }, r5),
                            ),
                            None => None,
                        },
                    },
                    None => None,
                },
                None => match expect(r0, key_website()) {
                    Some(r1) => match p_string(r1) {
                        Some((ws, r2)) => match expect(r2, author_close()) {
                            Some(r5) => Some(
                                (AuthorView { name: None, website: Some(ws), email: None }, r5),
                            ),
                            None => None,
                        },
                        None => None,
                    },
                    None => None,
                },
            },
            None => None,
        }
    }
}

/// Consume one comment object.
#[verifier::opaque]
pub open spec fn p_comment(s: Seq<char>) -> Option<(CommentView, Seq<char>)> {
    match expect(s, obj_open()) {
        Some(r0) => match p_uid_part(r0) {
            Some((uid, r1)) => match expect(r1, key_on()) {
                Some(r2) => match p_string(r2) {
                    Some((on, r3)) => match expect(r3, comma_nl() + key_comment()) {
                        Some(r4) => match p_string(r4) {
                            Some((body, r5)) => match p_created_part(r5) {
                                Some((created, r6)) => match p_updated_part(r6) {
                                    Some((updated, r7)) => match expect(
                                        r7,
                                        comma_nl() + key_author(),
                                    ) {
                                        Some(r8) => match p_author(r8) {
                                            Some((author, r9)) => match expect(r9, obj_close()) {
                                                Some(r10) => Some(
                                                    (
                                                        CommentView {
                                                            uid: uid,
                                                            on: on,
                                                            comment: body,
                                                            created: created,
                                                            updated: updated,
                                                            author: author,
                                                        },
                                                        r10,
                                                    ),
                                                ),
                                                None => None,
                                            },
                                            None => None,
                                        },
                                        None => None,
                                    },
                                    None => None,
                                },
                                None => None,
                            },
                            None => None,
                        },
                        None => None,
                    },
                    None => None,
                },
                None => None,
            },
            None => None,
        },
        None => None,
    }
}

/// Consume one or more array items, separated by commas.
pub open spec fn p_items(s: Seq<char>) -> Option<(Seq<CommentView>, Seq<char>)>
    decreases s.len(),
{
    match expect(s, item_indent()) {
        Some(r0) => match p_comment(r0) {
            Some((c, r1)) => match expect(r1, comma_nl()) {
                Some(r2) => if r2.len() < s.len() {
                    match p_items(r2) {
                        Some((cs, r3)) => Some((seq![c] + cs, r3)),
                        None => None,
                    }
                } else {
                    None
                },
                None => Some((seq![c], r1)),
            },
            None => None,
        },
        None => None,
    }
}

/// The whole persisted file; `Some` exactly on texts in the persisted format.
pub open spec fn p_store(s: Seq<char>) -> Option<Seq<CommentView>> {
    if s.len() == 2 && s[0] == '[' && s[1] == ']' {
        Some(Seq::empty())
    } else {
        match expect(s, arr_open()) {
            Some(r0) => match p_items(r0) {
                Some((cs, r1)) => if r1 == arr_close() {
                    Some(cs)
                } else {
                    None
                },
                None => None,
            },
            None => None,
        }
    }
}

// ---------------------------------------------------------------------------
// Round trip: decoding an encoded store gives the comments back
// ---------------------------------------------------------------------------

proof fn lemma_expect_prefix(lit: Seq<char>, rest: Seq<char>)
    ensures
        expect(lit + rest, lit) == Some(rest),
{
    let s = lit + rest;
    assert(s.take(lit.len() as int) =~= lit);
    assert(s.skip(lit.len() as int) =~= rest);
}

proof fn lemma_expect_ne(s: Seq<char>, lit: Seq<char>, k: int)
    requires
        0 <= k < lit.len(),
        k < s.len(),
        s[k] != lit[k],
    ensures
        expect(s, lit) is None,
{
    if lit.len() <= s.len() {
        assert(s.take(lit.len() as int)[k] == s[k]);
    }
}

proof fn lemma_rt_chars(t: Seq<char>, rest: Seq<char>)
    ensures
        p_chars(ser_chars(t) + seq!['"'] + rest) == Some((t, rest)),
    decreases t.len(),
{
    let full = ser_chars(t) + seq!['"'] + rest;
    if t.len() == 0 {
        assert(ser_chars(t) =~= Seq::<char>::empty());
        assert(full[0] == '"');
        assert(full.skip(1) =~= rest);
        assert(t =~= Seq::<char>::empty());
    } else {
        let c = t[0];
        let tl = t.skip(1);
        assert(ser_chars(t) == esc_char(c) + ser_chars(tl));
        lemma_rt_chars(tl, rest);
        if c == '"' || c == '\\' || c == '\u{8}' || c == '\t' || c == '\n' || c == '\u{c}'
            || c == '\r' {
            let e = esc_char(c)[1];
            assert(esc_char(c).len() == 2 && esc_char(c)[0] == '\\');
            assert(unesc_char(e) == Some(c));
            assert(full.len() >= 2);
            assert(full[0] == '\\' && full[1] == e);
            assert(full.skip(2) =~= ser_chars(tl) + seq!['"'] + rest);
            assert(seq![c] + tl =~= t);
        } else {
            assert(esc_char(c) =~= seq![c]);
            assert(full[0] == c);
            assert(c != '"' && c != '\\');
            assert(full.skip(1) =~= ser_chars(tl) + seq!['"'] + rest);
            assert(seq![c] + tl =~= t);
        }
    }
}

proof fn lemma_rt_string(t: Seq<char>, rest: Seq<char>)
    ensures
        p_string(ser_string(t) + rest) == Some((t, rest)),
{
    let full = ser_string(t) + rest;
    assert(full.len() >= 1 && full[0] == '"');
    assert(full.skip(1) =~= ser_chars(t) + seq!['"'] + rest);
    lemma_rt_chars(t, rest);
}

proof fn lemma_dec_nat_digits(n: nat)
    ensures
        dec_nat(n).len() >= 1,
        forall|i: int| 0 <= i < dec_nat(n).len() ==> is_digit(#[trigger] dec_nat(n)[i]),
    decreases n,
{
    if n < 10 {
    } else {
        lemma_dec_nat_digits(n / 10);
        let d = dec_nat(n);
        assert forall|i: int| 0 <= i < d.len() implies is_digit(#[trigger] d[i]) by {
            if i < d.len() - 1 {
                assert(d[i] == dec_nat(n / 10)[i]);
            } else {
                assert(d[i] == digit_char(n % 10));
            }
        }
    }
}

proof fn lemma_digits_val_dec_nat(n: nat)
    ensures
        digits_val(dec_nat(n)) == n,
    decreases n,
{
    if n < 10 {
        let d = dec_nat(n);
        assert(d == seq![digit_char(n)]);
        assert(d.drop_last() =~= Seq::<char>::empty());
        assert(digits_val(d.drop_last()) == 0);
        assert(d.last() == digit_char(n));
        assert(digit_val(digit_char(n)) == n);
    } else {
        lemma_digits_val_dec_nat(n / 10);
        let d = dec_nat(n);
        assert(d.drop_last() =~= dec_nat(n / 10));
        assert(d.last() == digit_char(n % 10));
        assert(digit_val(digit_char(n % 10)) == n % 10);
        assert(digits_val(d) == (n / 10) * 10 + n % 10);
        vstd::arithmetic::div_mod::lemma_fundamental_div_mod(n as int, 10);
    }
}

proof fn lemma_split_digits_exact(d: Seq<char>, rest: Seq<char>)
    requires
        forall|i: int| 0 <= i < d.len() ==> is_digit(#[trigger] d[i]),
        rest.len() == 0 || !is_digit(rest[0]),
    ensures
        split_digits(d + rest) == (d, rest),
    decreases d.len(),
{
    let full = d + rest;
    if d.len() == 0 {
        assert(full =~= rest);
        assert(d =~= Seq::<char>::empty());
    } else {
        assert(full[0] == d[0] && is_digit(full[0]));
        assert(full.skip(1) =~= d.skip(1) + rest);
        assert(forall|i: int| 0 <= i < d.skip(1).len() ==> is_digit(#[trigger] d.skip(1)[i]));
        lemma_split_digits_exact(d.skip(1), rest);
        assert(seq![full[0]] + d.skip(1) =~= d);
    }
}

proof fn lemma_rt_u16(u: u16, rest: Seq<char>)
    requires
        rest.len() == 0 || !is_digit(rest[0]),
    ensures
        p_u16(dec_nat(u as nat) + rest) == Some((u, rest)),
{
    lemma_dec_nat_digits(u as nat);
    lemma_split_digits_exact(dec_nat(u as nat), rest);
    lemma_digits_val_dec_nat(u as nat);
}

proof fn lemma_rt_i64(t: i64, rest: Seq<char>)
    requires
        rest.len() == 0 || !is_digit(rest[0]),
    ensures
        p_i64(dec_int(t as int) + rest) == Some((t, rest)),
{
    if t >= 0 {
        lemma_dec_nat_digits(t as nat);
        lemma_split_digits_exact(dec_nat(t as nat), rest);
        lemma_digits_val_dec_nat(t as nat);
        let full = dec_int(t as int) + rest;
        assert(full[0] == dec_nat(t as nat)[0]);
        assert(is_digit(full[0]));
        assert(full[0] != '-');
        assert(full =~= dec_nat(t as nat) + rest);
    } else {
        let m = (-(t as int)) as nat;
        lemma_dec_nat_digits(m);
        lemma_split_digits_exact(dec_nat(m), rest);
        lemma_digits_val_dec_nat(m);
        let full = dec_int(t as int) + rest;
        assert(dec_int(t as int) == seq!['-'] + dec_nat(m));
        assert(full[0] == '-');
        assert(full.skip(1) =~= dec_nat(m) + rest);
        assert(m <= 0x8000000000000000);
        assert((-(m as int)) as i64 == t);
    }
}

proof fn lemma_rt_uid_part(uid: Option<u16>, rest: Seq<char>)
    requires
        uid is None ==> expect(rest, key_uid()) is None,
    ensures
        p_uid_part(uid_part(uid) + rest) == Some((uid, rest)),
{
    match uid {
        None => {
            assert(uid_part(uid) + rest =~= rest);
        },
        Some(u) => {
            let full = uid_part(uid) + rest;
            let x = dec_nat(u as nat) + (comma_nl() + rest);
            assert(full =~= key_uid() + x);
            lemma_expect_prefix(key_uid(), x);
            assert(!is_digit((comma_nl() + rest)[0]));
            lemma_rt_u16(u, comma_nl() + rest);
            lemma_expect_prefix(comma_nl(), rest);
        },
    }
}

proof fn lemma_rt_created_part(t: Option<i64>, rest: Seq<char>)
    requires
        rest.len() == 0 || !is_digit(rest[0]),
        t is None ==> expect(rest, comma_nl() + key_created()) is None,
    ensures
        p_created_part(created_part(t) + rest) == Some((t, rest)),
{
    match t {
        None => {
            assert(created_part(t) + rest =~= rest);
        },
        Some(ms) => {
            let full = created_part(t) + rest;
            let lit = comma_nl() + key_created();
            let x = dec_int(ms as int) + rest;
            assert(full =~= lit + x);
            lemma_expect_prefix(lit, x);
            lemma_rt_i64(ms, rest);
        },
    }
}

proof fn lemma_rt_updated_part(t: Option<i64>, rest: Seq<char>)
    requires
        rest.len() == 0 || !is_digit(rest[0]),
        t is None ==> expect(rest, comma_nl() + key_updated()) is None,
    ensures
        p_updated_part(updated_part(t) + rest) == Some((t, rest)),
{
    match t {
        None => {
            assert(updated_part(t) + rest =~= rest);
        },
        Some(ms) => {
            let full = updated_part(t) + rest;
            let lit = comma_nl() + key_updated();
            let x = dec_int(ms as int) + rest;
            assert(full =~= lit + x);
            lemma_expect_prefix(lit, x);
            lemma_rt_i64(ms, rest);
        },
    }
}

#[verifier::rlimit(100)]
proof fn lemma_rt_author(a: AuthorView, rest: Seq<char>)
    ensures
        p_author(ser_author(a) + rest) == Some(
            (AuthorView { name: a.name, website: a.website, email: None }, rest),
        ),
{
    reveal(ser_author);
    reveal(p_author);
    let full = ser_author(a) + rest;
    if a.name is None && a.website is None {
        assert(full.take(2) =~= seq!['{', '}']);
        assert(full.skip(2) =~= rest);
    } else {
        assert(full[1] == '\n');
        lemma_expect_ne(full, seq!['{', '}'], 1);
        match (a.name, a.website) {
            (Some(nm), Some(ws)) => {
                let x3 = ser_string(ws) + (author_close() + rest);
                let x2 = (comma_nl() + key_website()) + x3;
                let x1 = key_name() + (ser_string(nm) + x2);
                assert(full =~= obj_open() + x1);
                lemma_expect_prefix(obj_open(), x1);
                lemma_expect_prefix(key_name(), ser_string(nm) + x2);
                lemma_rt_string(nm, x2);
                lemma_expect_prefix(comma_nl() + key_website(), x3);
                lemma_rt_string(ws, author_close() + rest);
                lemma_expect_prefix(author_close(), rest);
            },
            (Some(nm), None) => {
                let x2 = author_close() + rest;
                let x1 = key_name() + (ser_string(nm) + x2);
                assert(full =~= obj_open() + x1);
                lemma_expect_prefix(obj_open(), x1);
                lemma_expect_prefix(key_name(), ser_string(nm) + x2);
                lemma_rt_string(nm, x2);
                assert(x2[0] == '\n');
                lemma_expect_ne(x2, comma_nl() + key_website(), 0);
                lemma_expect_prefix(author_close(), rest);
            },
            (None, Some(ws)) => {
                let x2 = author_close() + rest;
                let x1 = key_website() + (ser_string(ws) + x2);
                assert(full =~= obj_open() + x1);
                lemma_expect_prefix(obj_open(), x1);
                assert(x1[7] == 'w');
                lemma_expect_ne(x1, key_name(), 7);
                lemma_expect_prefix(key_website(), ser_string(ws) + x2);
                lemma_rt_string(ws, x2);
                lemma_expect_prefix(author_close(), rest);
            },
            (None, None) => {
                assert(false);
            },
        }
    }
}

#[verifier::rlimit(100)]
#[verifier::spinoff_prover]
proof fn lemma_rt_comment(c: CommentView, rest: Seq<char>)
    ensures
        p_comment(ser_comment(c) + rest) == Some((c.without_email(), rest)),
{
    reveal(ser_comment);
    reveal(p_comment);
    let x7 = obj_close() + rest;
    let x6 = ser_author(c.author) + x7;
    let x5 = (comma_nl() + key_author()) + x6;
    let x4 = updated_part(c.updated) + x5;
    let x3 = created_part(c.created) + x4;
    let x2 = (comma_nl() + key_comment()) + (ser_string(c.comment) + x3);
    let x1 = key_on() + (ser_string(c.on) + x2);
    let x0 = uid_part(c.uid) + x1;
    let full = ser_comment(c) + rest;
    assert(full =~= obj_open() + x0);
    lemma_expect_prefix(obj_open(), x0);
    if c.uid is None {
        assert(x1[5] == 'o');
        lemma_expect_ne(x1, key_uid(), 5);
        assert(x0 == x1);
    }
    lemma_rt_uid_part(c.uid, x1);
    lemma_expect_prefix(key_on(), ser_string(c.on) + x2);
    lemma_rt_string(c.on, x2);
    lemma_expect_prefix(comma_nl() + key_comment(), ser_string(c.comment) + x3);
    lemma_rt_string(c.comment, x3);
    assert(x4[0] == ',');
    if c.created is None {
        if c.updated is Some {
            assert(x4[7] == 'u');
        } else {
            assert(x4 == x5);
            assert(x4[7] == 'a');
        }
        lemma_expect_ne(x4, comma_nl() + key_created(), 7);
        assert(x3 == x4);
    }
    lemma_rt_created_part(c.created, x4);
    assert(x5[0] == ',');
    if c.updated is None {
        assert(x5[7] == 'a');
        lemma_expect_ne(x5, comma_nl() + key_updated(), 7);
        assert(x4 == x5);
    }
    lemma_rt_updated_part(c.updated, x5);
    lemma_expect_prefix(comma_nl() + key_author(), x6);
    lemma_rt_author(c.author, x7);
    lemma_expect_prefix(obj_close(), rest);
    assert(p_comment(full) == Some((c.without_email(), rest)));
}

#[verifier::rlimit(100)]
proof fn lemma_rt_items(cs: Seq<CommentView>, rest: Seq<char>)
    requires
        cs.len() >= 1,
        rest.len() == 0 || rest[0] != ',',
    ensures
        p_items(ser_items(cs) + rest) == Some(
            (cs.map_values(|c: CommentView| c.without_email()), rest),
        ),
    decreases cs.len(),
{
    let full = ser_items(cs) + rest;
    if cs.len() == 1 {
        assert(full =~= item_indent() + (ser_comment(cs[0]) + rest));
        lemma_expect_prefix(item_indent(), ser_comment(cs[0]) + rest);
        lemma_rt_comment(cs[0], rest);
        if rest.len() >= 2 {
            lemma_expect_ne(rest, comma_nl(), 0);
        }
        assert(expect(rest, comma_nl()) is None);
        assert(seq![cs[0].without_email()] =~= cs.map_values(|c: CommentView| c.without_email()));
    } else {
        let tail_full = ser_items(cs.skip(1)) + rest;
        assert(full =~= item_indent() + (ser_comment(cs[0]) + (comma_nl() + tail_full)));
        lemma_expect_prefix(item_indent(), ser_comment(cs[0]) + (comma_nl() + tail_full));
        lemma_rt_comment(cs[0], comma_nl() + tail_full);
        lemma_expect_prefix(comma_nl(), tail_full);
        assert(tail_full.len() < full.len());
        lemma_rt_items(cs.skip(1), rest);
        assert(seq![cs[0].without_email()] + cs.skip(1).map_values(
            |c: CommentView| c.without_email(),
        ) =~= cs.map_values(|c: CommentView| c.without_email()));
    }
}

/// Decoding an encoded store yields the same ordered comments with equal
/// fields, except that the write-only author email is absent afterwards.
#[verifier::rlimit(100)]
pub proof fn lemma_round_trip(cs: Seq<CommentView>)
    ensures
        p_store(ser_store(cs)) == Some(cs.map_values(|c: CommentView| c.without_email())),
{
    if cs.len() == 0 {
        assert(cs.map_values(|c: CommentView| c.without_email()) =~= Seq::<CommentView>::empty());
        assert(ser_store(cs) == seq!['[', ']']);
        assert(seq!['[', ']'][0] == '[' && seq!['[', ']'][1] == ']');
    } else {
        let s = ser_store(cs);
        assert(s =~= arr_open() + (ser_items(cs) + arr_close()));
        assert(s[1] == '\n');
        lemma_expect_prefix(arr_open(), ser_items(cs) + arr_close());
        assert(arr_close()[0] == '\n');
        lemma_rt_items(cs, arr_close());
    }
}

// ---------------------------------------------------------------------------
// Executable decoder
// ---------------------------------------------------------------------------

/// Relies on String's FromIterator over chars: collecting yields exactly
/// those characters in order.
#[verifier::external_body]
fn string_from_chars(v: &Vec<char>) -> (r: String)
    ensures
        r@ == v@,
{
    v.iter().collect()
}

fn expect_at(s: &Vec<char>, i: usize, lit: &Vec<char>) -> (r: Option<usize>)
    requires
        i <= s@.len(),
    ensures
        match r {
            Some(j) => i <= j <= s@.len() && expect(s@.skip(i as int), lit@) == Some(
                s@.skip(j as int),
            ),
            None => expect(s@.skip(i as int), lit@) is None,
        },
{
    let m = lit.len();
    let n = s.len();
    if n - i < m {
        assert(s@.skip(i as int).len() < lit@.len());
        return None;
    }
    let mut k: usize = 0;
    while k < m
        invariant
            m == lit@.len(),
            n == s@.len(),
            i + m <= n,
            k <= m,
            forall|q: int| 0 <= q < k ==> s@[i + q] == lit@[q],
        decreases m - k,
    {
        if s[i + k] != lit[k] {
            proof {
                let sub = s@.skip(i as int);
                assert(sub[k as int] == s@[i + k]);
                if lit@.len() <= sub.len() && sub.take(lit@.len() as int) == lit@ {
                    assert(sub.take(lit@.len() as int)[k as int] == sub[k as int]);
                }
            }
            return None;
        }
        k = k + 1;
    }
    proof {
        let sub = s@.skip(i as int);
        assert(sub.take(m as int) =~= lit@);
        assert(sub.skip(m as int) =~= s@.skip(i + m));
    }
    Some(i + m)
}

fn unescape_char(e: char) -> (r: Option<char>)
    ensures
        r == unesc_char(e),
{
    if e == '"' {
        Some('"')
    } else if e == '\\' {
        Some('\\')
    } else if e == 'b' {
        Some('\u{8}')
    } else if e == 't' {
        Some('\t')
    } else if e == 'n' {
        Some('\n')
    } else if e == 'f' {
        Some('\u{c}')
    } else if e == 'r' {
        Some('\r')
    } else {
        None
    }
}

fn parse_chars(s: &Vec<char>, i: usize) -> (r: Option<(Vec<char>, usize)>)
    requires
        i <= s@.len(),
    ensures
        match r {
            Some(tj) => i <= tj.1 <= s@.len() && p_chars(s@.skip(i as int)) == Some(
                (tj.0@, s@.skip(tj.1 as int)),
            ),
            None => p_chars(s@.skip(i as int)) is None,
        },
{
    let n = s.len();
    let mut acc: Vec<char> = Vec::new();
    let mut k: usize = i;
    loop
        invariant
            i <= k <= n,
            n == s@.len(),
            p_chars(s@.skip(i as int)) == (match p_chars(s@.skip(k as int)) {
                Some(tr) => Some((acc@ + tr.0, tr.1)),
                None => None,
            }),
        decreases n - k,
    {
        if k >= n {
            assert(s@.skip(k as int).len() == 0);
            return None;
        }
        let c = s[k];
        assert(s@.skip(k as int)[0] == c);
        if c == '"' {
            proof {
                assert(s@.skip(k as int).skip(1) =~= s@.skip(k + 1));
                assert(p_chars(s@.skip(k as int)) == Some(
                    (Seq::<char>::empty(), s@.skip(k + 1)),
                ));
                assert(acc@ + Seq::<char>::empty() =~= acc@);
            }
            return Some((acc, k + 1));
        } else if c == '\\' {
            if k + 1 >= n {
                assert(s@.skip(k as int).len() == 1);
                return None;
            }
            let e = s[k + 1];
            assert(s@.skip(k as int)[1] == e);
            match unescape_char(e) {
                Some(u) => {
                    let ghost acc0 = acc@;
                    acc.push(u);
                    proof {
                        assert(s@.skip(k as int).skip(2) =~= s@.skip(k + 2));
                        match p_chars(s@.skip(k + 2)) {
                            Some(tr) => {
                                assert(acc0 + (seq![u] + tr.0) =~= (acc0.push(u)) + tr.0);
                            },
                            None => {},
                        }
                    }
                    k = k + 2;
                },
                None => {
                    return None;
                },
            }
        } else {
            let ghost acc0 = acc@;
            acc.push(c);
            proof {
                assert(s@.skip(k as int).skip(1) =~= s@.skip(k + 1));
                match p_chars(s@.skip(k + 1)) {
                    Some(tr) => {
                        assert(acc0 + (seq![c] + tr.0) =~= (acc0.push(c)) + tr.0);
                    },
                    None => {},
                }
            }
            k = k + 1;
        }
    }
}

fn parse_string(s: &Vec<char>, i: usize) -> (r: Option<(String, usize)>)
    requires
        i <= s@.len(),
    ensures
        match r {
            Some(tj) => i <= tj.1 <= s@.len() && p_string(s@.skip(i as int)) == Some(
                (tj.0@, s@.skip(tj.1 as int)),
            ),
            None => p_string(s@.skip(i as int)) is None,
        },
{
    if i >= s.len() {
        return None;
    }
    if s[i] != '"' {
        assert(s@.skip(i as int)[0] != '"');
        return None;
    }
    assert(s@.skip(i as int)[0] == '"');
    assert(s@.skip(i as int).skip(1) =~= s@.skip(i + 1));
    match parse_chars(s, i + 1) {
        Some((t, j)) => Some((string_from_chars(&t), j)),
        None => None,
    }
}

fn is_digit_x(c: char) -> (b: bool)
    ensures
        b == is_digit(c),
{
    c == '0' || c == '1' || c == '2' || c == '3' || c == '4' || c == '5' || c == '6' || c == '7'
        || c == '8' || c == '9'
}

fn digit_val_x(c: char) -> (d: u8)
    requires
        is_digit(c),
    ensures
        d as nat == digit_val(c),
        d < 10,
{
    if c == '0' {
        0
    } else if c == '1' {
        1
    } else if c == '2' {
        2
    } else if c == '3' {
        3
    } else if c == '4' {
        4
    } else if c == '5' {
        5
    } else if c == '6' {
        6
    } else if c == '7' {
        7
    } else if c == '8' {
        8
    } else {
        9
    }
}

proof fn lemma_split_digits_at(s: Seq<char>, i: int, e: int)
    requires
        0 <= i <= e <= s.len(),
        forall|m: int| i <= m < e ==> is_digit(#[trigger] s[m]),
        e == s.len() || !is_digit(s[e]),
    ensures
        split_digits(s.skip(i)) == (s.subrange(i, e), s.skip(e)),
    decreases e - i,
{
    if i == e {
        assert(s.subrange(i, e) =~= Seq::<char>::empty());
        if i < s.len() {
            assert(s.skip(i)[0] == s[i]);
        }
    } else {
        assert(s.skip(i)[0] == s[i] && is_digit(s[i]));
        assert(s.skip(i).skip(1) =~= s.skip(i + 1));
        lemma_split_digits_at(s, i + 1, e);
        assert(seq![s[i]] + s.subrange(i + 1, e) =~= s.subrange(i, e));
    }
}

proof fn lemma_digits_val_step(s: Seq<char>, i: int, m: int)
    requires
        0 <= i <= m < s.len(),
    ensures
        digits_val(s.subrange(i, m + 1)) == digits_val(s.subrange(i, m)) * 10 + digit_val(s[m]),
{
    assert(s.subrange(i, m + 1).drop_last() =~= s.subrange(i, m));
    assert(s.subrange(i, m + 1).last() == s[m]);
}

proof fn lemma_digits_val_mono(s: Seq<char>, i: int, m: int, e: int)
    requires
        0 <= i <= m <= e <= s.len(),
    ensures
        digits_val(s.subrange(i, m)) <= digits_val(s.subrange(i, e)),
    decreases e - m,
{
    if m < e {
        lemma_digits_val_mono(s, i, m + 1, e);
        lemma_digits_val_step(s, i, m);
        let v = digits_val(s.subrange(i, m));
        assert(v * 10 >= v) by (nonlinear_arith);
    }
}

/// Read a digit run, refusing values over `bound`.
fn parse_digits_u64(s: &Vec<char>, i: usize, bound: u64) -> (r: Option<(u64, usize)>)
    requires
        i <= s@.len(),
        bound >= 9,
    ensures
        match r {
            Some(vj) => i < vj.1 <= s@.len() && split_digits(s@.skip(i as int)) == (
                s@.subrange(i as int, vj.1 as int),
                s@.skip(vj.1 as int),
            ) && vj.0 as nat == digits_val(s@.subrange(i as int, vj.1 as int)) && vj.0 <= bound,
            None => {
                let dr = split_digits(s@.skip(i as int));
                dr.0.len() == 0 || digits_val(dr.0) > bound
            },
        },
{
    let n = s.len();
    let mut e: usize = i;
    while e < n && is_digit_x(s[e])
        invariant
            i <= e <= n,
            n == s@.len(),
            forall|m: int| i <= m < e ==> is_digit(#[trigger] s@[m]),
        decreases n - e,
    {
        e = e + 1;
    }
    proof {
        lemma_split_digits_at(s@, i as int, e as int);
    }
    if e == i {
        assert(s@.subrange(i as int, e as int).len() == 0);
        return None;
    }
    let mut acc: u64 = 0;
    let mut m: usize = i;
    while m < e
        invariant
            i <= m <= e <= n,
            n == s@.len(),
            forall|q: int| i <= q < e ==> is_digit(#[trigger] s@[q]),
            split_digits(s@.skip(i as int)) == (
                s@.subrange(i as int, e as int),
                s@.skip(e as int),
            ),
            acc as nat == digits_val(s@.subrange(i as int, m as int)),
            acc <= bound,
            bound >= 9,
        decreases e - m,
    {
        let d = digit_val_x(s[m]);
        proof {
            lemma_digits_val_step(s@, i as int, m as int);
        }
        if acc > (bound - d as u64) / 10 {
            proof {
                let v = digits_val(s@.subrange(i as int, m + 1));
                assert(v == acc * 10 + d);
                assert(acc * 10 + d > bound) by (nonlinear_arith)
                    requires
                        acc > (bound - d as u64) / 10,
                        d as u64 <= bound,
                ;
                lemma_digits_val_mono(s@, i as int, m + 1, e as int);
            }
            return None;
        }
        proof {
            assert(acc * 10 + d <= bound) by (nonlinear_arith)
                requires
                    acc <= (bound - d as u64) / 10,
                    d as u64 <= bound,
            ;
        }
        acc = acc * 10 + d as u64;
        m = m + 1;
    }
    Some((acc, e))
}

fn parse_u16(s: &Vec<char>, i: usize) -> (r: Option<(u16, usize)>)
    requires
        i <= s@.len(),
    ensures
        match r {
            Some(vj) => i <= vj.1 <= s@.len() && p_u16(s@.skip(i as int)) == Some(
                (vj.0, s@.skip(vj.1 as int)),
            ),
            None => p_u16(s@.skip(i as int)) is None,
        },
{
    match parse_digits_u64(s, i, 65535) {
        Some((v, j)) => Some((v as u16, j)),
        None => None,
    }
}

fn parse_i64(s: &Vec<char>, i: usize) -> (r: Option<(i64, usize)>)
    requires
        i <= s@.len(),
    ensures
        match r {
            Some(vj) => i <= vj.1 <= s@.len() && p_i64(s@.skip(i as int)) == Some(
                (vj.0, s@.skip(vj.1 as int)),
            ),
            None => p_i64(s@.skip(i as int)) is None,
        },
{
    let n = s.len();
    if i < n && s[i] == '-' {
        assert(s@.skip(i as int)[0] == '-');
        assert(s@.skip(i as int).skip(1) =~= s@.skip(i + 1));
        match parse_digits_u64(s, i + 1, 9223372036854775808u64) {
            Some((v, j)) => {
                let t: i64 = if v == 9223372036854775808u64 {
                    i64::MIN
                } else {
                    -(v as i64)
                };
                assert(t as int == -(v as int));
                Some((t, j))
            },
            None => None,
        }
    } else {
        if i < n {
            assert(s@.skip(i as int)[0] != '-');
        } else {
            assert(s@.skip(i as int).len() == 0);
        }
        match parse_digits_u64(s, i, 9223372036854775807u64) {
            Some((v, j)) => Some((v as i64, j)),
            None => None,
        }
    }
}

fn parse_uid_part(s: &Vec<char>, i: usize) -> (r: Option<(Option<u16>, usize)>)
    requires
        i <= s@.len(),
    ensures
        match r {
            Some(vj) => i <= vj.1 <= s@.len() && p_uid_part(s@.skip(i as int)) == Some(
                (vj.0, s@.skip(vj.1 as int)),
            ),
            None => p_uid_part(s@.skip(i as int)) is None,
        },
{
    let lit: Vec<char> = vec![' ', ' ', ' ', ' ', '"', 'u', 'i', 'd', '"', ':', ' '];
    assert(lit@ =~= key_uid());
    match expect_at(s, i, &lit) {
        Some(j1) => {
            match parse_u16(s, j1) {
                Some((u, j2)) => {
                    let comma: Vec<char> = vec![',', '\n'];
                    assert(comma@ =~= comma_nl());
                    match expect_at(s, j2, &comma) {
                        Some(j3) => Some((Some(u), j3)),
                        None => None,
                    }
                },
                None => None,
            }
        },
        None => Some((None, i)),
    }
}

fn parse_created_part(s: &Vec<char>, i: usize) -> (r: Option<(Option<i64>, usize)>)
    requires
        i <= s@.len(),
    ensures
        match r {
            Some(vj) => i <= vj.1 <= s@.len() && p_created_part(s@.skip(i as int)) == Some(
                (vj.0, s@.skip(vj.1 as int)),
            ),
            None => p_created_part(s@.skip(i as int)) is None,
        },
{
    let lit: Vec<char> = vec![
        ',', '\n', ' ', ' ', ' ', ' ', '"', 'c', 'r', 'e', 'a', 't', 'e', 'd', '"', ':', ' ',
    ];
    assert(lit@ =~= comma_nl() + key_created());
    match expect_at(s, i, &lit) {
        Some(j1) => {
            match parse_i64(s, j1) {
                Some((t, j2)) => Some((Some(t), j2)),
                None => None,
            }
        },
        None => Some((None, i)),
    }
}

fn parse_updated_part(s: &Vec<char>, i: usize) -> (r: Option<(Option<i64>, usize)>)
    requires
        i <= s@.len(),
    ensures
        match r {
            Some(vj) => i <= vj.1 <= s@.len() && p_updated_part(s@.skip(i as int)) == Some(
                (vj.0, s@.skip(vj.1 as int)),
            ),
            None => p_updated_part(s@.skip(i as int)) is None,
        },
{
    let lit: Vec<char> = vec![
        ',', '\n', ' ', ' ', ' ', ' ', '"', 'u', 'p', 'd', 'a', 't', 'e', 'd', '"', ':', ' ',
    ];
    assert(lit@ =~= comma_nl() + key_updated());
    match expect_at(s, i, &lit) {
        Some(j1) => {
            match parse_i64(s, j1) {
                Some((t, j2)) => Some((Some(t), j2)),
                None => None,
            }
        },
        None => Some((None, i)),
    }
}

#[verifier::rlimit(100)]
fn parse_author(s: &Vec<char>, i: usize) -> (r: Option<(AuthorInfo, usize)>)
    requires
        i <= s@.len(),
    ensures
        match r {
            Some(vj) => i <= vj.1 <= s@.len() && p_author(s@.skip(i as int)) == Some(
                (vj.0@, s@.skip(vj.1 as int)),
            ),
            None => p_author(s@.skip(i as int)) is None,
        },
{
    proof {
        reveal(p_author);
    }
    let empty_obj: Vec<char> = vec!['{', '}'];
    assert(empty_obj@ =~= seq!['{', '}']);
    match expect_at(s, i, &empty_obj) {
        Some(j) => {
            let a = AuthorInfo { name: None, website: None, email: None };
            assert(s@.skip(i as int).skip(2) =~= s@.skip(i + 2));
            assert(j == i + 2);
            return Some((a, j));
        },
        None => {},
    }
    let open: Vec<char> = vec!['{', '\n'];
    assert(open@ =~= obj_open());
    let close: Vec<char> = vec!['\n', ' ', ' ', ' ', ' ', '}'];
    assert(close@ =~= author_close());
    match expect_at(s, i, &open) {
        Some(r0) => {
            let name_key: Vec<char> = vec![
                ' ', ' ', ' ', ' ', ' ', ' ', '"', 'n', 'a', 'm', 'e', '"', ':', ' ',
            ];
            assert(name_key@ =~= key_name());
            match expect_at(s, r0, &name_key) {
                Some(r1) => {
                    match parse_string(s, r1) {
                        Some((nm, r2)) => {
                            let ws_key: Vec<char> = vec![
                                ',', '\n', ' ', ' ', ' ', ' ', ' ', ' ', '"', 'w', 'e', 'b', 's',
                                'i', 't', 'e', '"', ':', ' ',
                            ];
                            assert(ws_key@ =~= comma_nl() + key_website());
                            match expect_at(s, r2, &ws_key) {
                                Some(r3) => {
                                    match parse_string(s, r3) {
                                        Some((ws, r4)) => {
                                            match expect_at(s, r4, &close) {
                                                Some(r5) => Some(
                                                    (
                                                        AuthorInfo {
                                                            name: Some(nm),
                                                            website: Some(ws),
                                                            email: None,
                                                        },
                                                        r5,
                                                    ),
                                                ),
                                                None => None,
                                            }
                                        },
                                        None => None,
                                    }
                                },
                                None => {
                                    match expect_at(s, r2, &close) {
                                        Some(r5) => Some(
                                            (
                                                AuthorInfo {
                                                    name: Some(nm),
                                                    website: None,
                                                    email: None,
                                                },
                                                r5,
                                            ),
                                        ),
                                        None => None,
                                    }
                                },
                            }
                        },
                        None => None,
                    }
                },
                None => {
                    let ws_key2: Vec<char> = vec![
                        ' ', ' ', ' ', ' ', ' ', ' ', '"', 'w', 'e', 'b', 's', 'i', 't', 'e', '"',
                        ':', ' ',
                    ];
                    assert(ws_key2@ =~= key_website());
                    match expect_at(s, r0, &ws_key2) {
                        Some(r1) => {
                            match parse_string(s, r1) {
                                Some((ws, r2)) => {
                                    match expect_at(s, r2, &close) {
                                        Some(r5) => Some(
                                            (
                                                AuthorInfo {
                                                    name: None,
                                                    website: Some(ws),
                                                    email: None,
                                                },
                                                r5,
                                            ),
                                        ),
                                        None => None,
                                    }
                                },
                                None => None,
                            }
                        },
                        None => None,
                    }
                },
            }
        },
        None => None,
    }
}

#[verifier::rlimit(100)]
fn parse_comment(s: &Vec<char>, i: usize) -> (r: Option<(Comment, usize)>)
    requires
        i <= s@.len(),
    ensures
        match r {
            Some(vj) => i <= vj.1 <= s@.len() && p_comment(s@.skip(i as int)) == Some(
                (vj.0@, s@.skip(vj.1 as int)),
            ),
            None => p_comment(s@.skip(i as int)) is None,
        },
{
    proof {
        reveal(p_comment);
    }
    let open: Vec<char> = vec!['{', '\n'];
    assert(open@ =~= obj_open());
    let r0 = match expect_at(s, i, &open) {
        Some(j) => j,
        None => {
            return None;
        },
    };
    let (uid, r1) = match parse_uid_part(s, r0) {
        Some(v) => v,
        None => {
            return None;
        },
    };
    let on_key: Vec<char> = vec![' ', ' ', ' ', ' ', '"', 'o', 'n', '"', ':', ' '];
    assert(on_key@ =~= key_on());
    let r2 = match expect_at(s, r1, &on_key) {
        Some(j) => j,
        None => {
            return None;
        },
    };
    let (on, r3) = match parse_string(s, r2) {
        Some(v) => v,
        None => {
            return None;
        },
    };
    let comment_key: Vec<char> = vec![
        ',', '\n', ' ', ' ', ' ', ' ', '"', 'c', 'o', 'm', 'm', 'e', 'n', 't', '"', ':', ' ',
    ];
    assert(comment_key@ =~= comma_nl() + key_comment());
    let r4 = match expect_at(s, r3, &comment_key) {
        Some(j) => j,
        None => {
            return None;
        },
    };
    let (body, r5) = match parse_string(s, r4) {
        Some(v) => v,
        None => {
            return None;
        },
    };
    let (created, r6) = match parse_created_part(s, r5) {
        Some(v) => v,
        None => {
            return None;
        },
    };
    let (updated, r7) = match parse_updated_part(s, r6) {
        Some(v) => v,
        None => {
            return None;
        },
    };
    let author_key: Vec<char> = vec![
        ',', '\n', ' ', ' ', ' ', ' ', '"', 'a', 'u', 't', 'h', 'o', 'r', '"', ':', ' ',
    ];
    assert(author_key@ =~= comma_nl() + key_author());
    let r8 = match expect_at(s, r7, &author_key) {
        Some(j) => j,
        None => {
            return None;
        },
    };
    let (author, r9) = match parse_author(s, r8) {
        Some(v) => v,
        None => {
            return None;
        },
    };
    let close: Vec<char> = vec!['\n', ' ', ' ', '}'];
    assert(close@ =~= obj_close());
    let r10 = match expect_at(s, r9, &close) {
        Some(j) => j,
        None => {
            return None;
        },
    };
    let c = Comment { uid, on, comment: body, created, updated, author };
    Some((c, r10))
}

fn parse_items(s: &Vec<char>, i: usize) -> (r: Option<(Vec<Comment>, usize)>)
    requires
        i <= s@.len(),
    ensures
        match r {
            Some(vj) => i <= vj.1 <= s@.len() && p_items(s@.skip(i as int)) == Some(
                (vj.0@.map_values(|c: Comment| c@), s@.skip(vj.1 as int)),
            ),
            None => p_items(s@.skip(i as int)) is None,
        },
{
    let n = s.len();
    let mut acc: Vec<Comment> = Vec::new();
    let mut k: usize = i;
    let indent: Vec<char> = vec![' ', ' '];
    assert(indent@ =~= item_indent());
    let comma: Vec<char> = vec![',', '\n'];
    assert(comma@ =~= comma_nl());
    proof {
        assert(acc@.map_values(|c: Comment| c@) =~= Seq::<CommentView>::empty());
    }
    loop
        invariant
            i <= k <= n,
            n == s@.len(),
            indent@ == item_indent(),
            comma@ == comma_nl(),
            p_items(s@.skip(i as int)) == (match p_items(s@.skip(k as int)) {
                Some(tr) => Some((acc@.map_values(|c: Comment| c@) + tr.0, tr.1)),
                None => None,
            }),
        decreases n - k,
    {
        let r0 = match expect_at(s, k, &indent) {
            Some(j) => j,
            None => {
                return None;
            },
        };
        let (c, r1) = match parse_comment(s, r0) {
            Some(v) => v,
            None => {
                return None;
            },
        };
        let ghost acc0 = acc@;
        let ghost cv = c@;
        acc.push(c);
        match expect_at(s, r1, &comma) {
            Some(r2) => {
                proof {
                    assert(r2 > k);
                    match p_items(s@.skip(r2 as int)) {
                        Some(tr) => {
                            assert(acc0.map_values(|cc: Comment| cc@) + (seq![cv] + tr.0) =~= acc@
                                .map_values(|cc: Comment| cc@) + tr.0);
                        },
                        None => {},
                    }
                }
                k = r2;
            },
            None => {
                proof {
                    assert(p_items(s@.skip(k as int)) == Some((seq![cv], s@.skip(r1 as int))));
                    assert(acc0.map_values(|cc: Comment| cc@) + seq![cv] =~= acc@.map_values(
                        |cc: Comment| cc@,
                    ));
                }
                return Some((acc, r1));
            },
        }
    }
}

/// Decode the persisted text; `None` exactly when it is not in the format.
pub fn parse_store(text: &Vec<char>) -> (r: Option<Vec<Comment>>)
    ensures
        match r {
            Some(cs) => p_store(text@) == Some(cs@.map_values(|c: Comment| c@)),
            None => p_store(text@) is None,
        },
{
    let n = text.len();
    if n == 2 && text[0] == '[' && text[1] == ']' {
        let empty: Vec<Comment> = Vec::new();
        proof {
            assert(empty@.map_values(|c: Comment| c@) =~= Seq::<CommentView>::empty());
        }
        return Some(empty);
    }
    let open: Vec<char> = vec!['[', '\n'];
    assert(open@ =~= arr_open());
    assert(text@.skip(0) =~= text@);
    let r0 = match expect_at(text, 0, &open) {
        Some(j) => j,
        None => {
            return None;
        },
    };
    let (cs, r1) = match parse_items(text, r0) {
        Some(v) => v,
        None => {
            return None;
        },
    };
    let close: Vec<char> = vec!['\n', ']'];
    assert(close@ =~= arr_close());
    let ghost rem = text@.skip(r1 as int);
    if n - r1 == 2 {
        match expect_at(text, r1, &close) {
            Some(j) => {
                proof {
                    assert(rem.len() == 2);
                    assert(rem.take(2) =~= rem);
                    assert(rem =~= arr_close());
                }
                Some(cs)
            },
            None => {
                proof {
                    assert(rem.len() == 2);
                    if rem == arr_close() {
                        assert(rem.take(2) =~= arr_close());
                    }
                }
                None
            },
        }
    } else {
        proof {
            assert(rem.len() != 2);
            assert(rem != arr_close());
        }
        None
    }
}

} // verus!