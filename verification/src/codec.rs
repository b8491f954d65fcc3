//! JSON codec for the persisted history.
//!
//! The backing file holds one JSON document of the shape
//! `{"timings":[{"command":...,"args":[...],"start_epoch_ms":...,"duration_ns":...},...]}`
//! with no extra whitespace. Strings escape `"` and `\` with a backslash and
//! control characters as `\u00` plus two lowercase hex digits; numbers are
//! canonical decimal. The parser accepts exactly this grammar and fails loudly
//! on anything else: a malformed backing file is reported, never silently
//! treated as empty.
use vstd::prelude::*;
use crate::history::{History, RecordView, TimingRecord, strs_view};

verus! {

// ---------------------------------------------------------------------------
// Spec-level encoder
// ---------------------------------------------------------------------------
/// The decimal digit character for `d` in 0..10.
pub open spec fn digit_char(d: int) -> char {
    if d == 0 { '0' } else if d == 1 { '1' } else if d == 2 { '2' } else if d == 3 { '3' }
    else if d == 4 { '4' } else if d == 5 { '5' } else if d == 6 { '6' } else if d == 7 { '7' }
    else if d == 8 { '8' } else if d == 9 { '9' } else { 'x' }
}

/// The lowercase hex digit character for `d` in 0..16.
pub open spec fn hex_char(d: int) -> char {
    if d < 10 { digit_char(d) }
    else if d == 10 { 'a' } else if d == 11 { 'b' } else if d == 12 { 'c' }
    else if d == 13 { 'd' } else if d == 14 { 'e' } else if d == 15 { 'f' } else { 'x' }
}

/// Canonical decimal digits of `n`, most significant first, no leading zeros.
pub open spec fn dec_digits(n: nat) -> Seq<char>
    decreases n,
{
    if n < 10 {
        seq![digit_char(n as int)]
    } else {
        dec_digits(n / 10).push(digit_char((n % 10) as int))
    }
}

/// The escaped form of one character inside a JSON string.
pub open spec fn esc_char(c: char) -> Seq<char> {
    if c == '"' {
        seq!['\\', '"']
    } else if c == '\\' {
        seq!['\\', '\\']
    } else if (c as int) < 32 {
        seq!['\\', 'u', '0', '0', hex_char((c as int) / 16), hex_char((c as int) % 16)]
    } else {
        seq![c]
    }
}

/// The escaped body of a JSON string.
pub open spec fn enc_str_body(s: Seq<char>) -> Seq<char>
    decreases s.len(),
{
    if s.len() == 0 {
        Seq::<char>::empty()
    } else {
        esc_char(s[0]) + enc_str_body(s.skip(1))
    }
}

/// A JSON string: quoted escaped body.
pub open spec fn enc_str(s: Seq<char>) -> Seq<char> {
    seq!['"'] + enc_str_body(s) + seq!['"']
}

/// The `,`-separated tail of a JSON array of strings.
pub open spec fn enc_args_rest(ss: Seq<Seq<char>>) -> Seq<char>
    decreases ss.len(),
{
    if ss.len() == 0 {
        Seq::<char>::empty()
    } else {
        seq![','] + enc_str(ss[0]) + enc_args_rest(ss.skip(1))
    }
}

/// A JSON array of strings, brackets included.
pub open spec fn enc_args(ss: Seq<Seq<char>>) -> Seq<char> {
    if ss.len() == 0 {
        seq!['[', ']']
    } else {
        seq!['['] + enc_str(ss[0]) + enc_args_rest(ss.skip(1)) + seq![']']
    }
}

/// The object key scaffolding literals of one record and of the document.
pub open spec fn lit_cmd() -> Seq<char> {
    seq!['{', '"', 'c', 'o', 'm', 'm', 'a', 'n', 'd', '"', ':']
}

pub open spec fn lit_args() -> Seq<char> {
    seq![',', '"', 'a', 'r', 'g', 's', '"', ':']
}

pub open spec fn lit_start() -> Seq<char> {
    seq![',', '"', 's', 't', 'a', 'r', 't', '_', 'e', 'p', 'o', 'c', 'h', '_', 'm', 's', '"', ':']
}

pub open spec fn lit_dur() -> Seq<char> {
    seq![',', '"', 'd', 'u', 'r', 'a', 't', 'i', 'o', 'n', '_', 'n', 's', '"', ':']
}

pub open spec fn lit_doc() -> Seq<char> {
    seq!['{', '"', 't', 'i', 'm', 'i', 'n', 'g', 's', '"', ':']
}

/// One record as a JSON object.
pub open spec fn enc_rec(r: RecordView) -> Seq<char> {
    lit_cmd() + enc_str(r.command) + lit_args() + enc_args(r.args) + lit_start()
        + dec_digits(r.start_epoch_ms as nat) + lit_dur() + dec_digits(r.duration_ns as nat)
        + seq!['}']
}

/// The `,`-separated tail of the record array.
pub open spec fn enc_list_rest(rs: Seq<RecordView>) -> Seq<char>
    decreases rs.len(),
{
    if rs.len() == 0 {
        Seq::<char>::empty()
    } else {
        seq![','] + enc_rec(rs[0]) + enc_list_rest(rs.skip(1))
    }
}

/// The record array, brackets included.
pub open spec fn enc_list(rs: Seq<RecordView>) -> Seq<char> {
    if rs.len() == 0 {
        seq!['[', ']']
    } else {
        seq!['['] + enc_rec(rs[0]) + enc_list_rest(rs.skip(1)) + seq![']']
    }
}

/// The whole history document.
pub open spec fn enc_history(rs: Seq<RecordView>) -> Seq<char> {
    lit_doc() + enc_list(rs) + seq!['}']
}

// ---------------------------------------------------------------------------
// Executable encoder
// ---------------------------------------------------------------------------
/// The decimal digit character for `d` in 0..10.
fn digit_char_x(d: u64) -> (c: char)
    requires
        d < 10,
    ensures
        c == digit_char(d as int),
{
    if d == 0 { '0' } else if d == 1 { '1' } else if d == 2 { '2' } else if d == 3 { '3' }
    else if d == 4 { '4' } else if d == 5 { '5' } else if d == 6 { '6' } else if d == 7 { '7' }
    else if d == 8 { '8' } else { '9' }
}

/// The lowercase hex digit character for `d` in 0..16.
fn hex_char_x(d: u32) -> (c: char)
    requires
        d < 16,
    ensures
        c == hex_char(d as int),
{
    if d < 10 {
        digit_char_x(d as u64)
    } else if d == 10 { 'a' } else if d == 11 { 'b' } else if d == 12 { 'c' }
    else if d == 13 { 'd' } else if d == 14 { 'e' } else { 'f' }
}

/// Appends the canonical decimal digits of `n`.
fn push_u64(out: &mut Vec<char>, n: u64)
    ensures
        final(out)@ == old(out)@ + dec_digits(n as nat),
    decreases n,
{
    if n < 10 {
        out.push(digit_char_x(n));
        proof {
            assert(out@ =~= old(out)@ + dec_digits(n as nat));
        }
    } else {
        push_u64(out, n / 10);
        out.push(digit_char_x(n % 10));
        proof {
            assert(out@ =~= old(out)@ + dec_digits(n as nat));
        }
    }
}

/// Appends the escaped form of one string character.
fn push_esc(out: &mut Vec<char>, c: char)
    ensures
        final(out)@ == old(out)@ + esc_char(c),
{
    if c == '"' {
        out.push('\\');
        out.push('"');
    } else if c == '\\' {
        out.push('\\');
        out.push('\\');
    } else if (c as u32) < 32 {
        let v = c as u32;
        out.push('\\');
        out.push('u');
        out.push('0');
        out.push('0');
        out.push(hex_char_x(v / 16));
        out.push(hex_char_x(v % 16));
    } else {
        out.push(c);
    }
    proof {
        assert(out@ =~= old(out)@ + esc_char(c));
    }
}

/// Appends a whole JSON string, quotes and escapes included.
fn push_str(out: &mut Vec<char>, s: &Vec<char>)
    ensures
        final(out)@ == old(out)@ + enc_str(s@),
{
    out.push('"');
    let mut i: usize = 0;
    while i < s.len()
        invariant
            i <= s@.len(),
            out@ == old(out)@ + seq!['"'] + enc_str_body(s@.subrange(0, i as int)),
        decreases s@.len() - i,
    {
        proof {
            lemma_enc_str_body_push(s@.subrange(0, i as int + 1));
            assert(s@.subrange(0, i as int + 1).drop_last() =~= s@.subrange(0, i as int));
        }
        push_esc(out, s[i]);
        i += 1;
    }
    out.push('"');
    proof {
        assert(s@.subrange(0, s@.len() as int) =~= s@);
        assert(out@ =~= old(out)@ + enc_str(s@));
    }
}

/// The escaped body of a grown string is the body of the front plus the
/// escape of the last character.
proof fn lemma_enc_str_body_push(s: Seq<char>)
    requires
        s.len() > 0,
    ensures
        enc_str_body(s) == enc_str_body(s.drop_last()) + esc_char(s.last()),
    decreases s.len(),
{
    if s.len() == 1 {
        assert(s.skip(1) =~= Seq::<char>::empty());
        assert(s.drop_last() =~= Seq::<char>::empty());
        assert(enc_str_body(s) =~= enc_str_body(s.drop_last()) + esc_char(s.last()));
    } else {
        lemma_enc_str_body_push(s.skip(1));
        assert(s.skip(1).drop_last() =~= s.drop_last().skip(1));
        assert(s.skip(1).last() == s.last());
        assert(s.drop_last()[0] == s[0]);
        assert(enc_str_body(s) =~= enc_str_body(s.drop_last()) + esc_char(s.last()));
    }
}

/// Appends the JSON array of the argument strings.
fn push_args(out: &mut Vec<char>, args: &Vec<String>)
    ensures
        final(out)@ == old(out)@ + enc_args(strs_view(args@)),
{
    let ghost ss = strs_view(args@);
    out.push('[');
    if args.len() == 0 {
        out.push(']');
        proof {
            assert(out@ =~= old(out)@ + enc_args(ss));
        }
        return ;
    }
    let first = chars_of(&args[0]);
    push_str(out, &first);
    let mut i: usize = 1;
    while i < args.len()
        invariant
            1 <= i <= args@.len(),
            strs_view(args@) == ss,
            ss.len() == args@.len(),
            out@ == old(out)@ + seq!['['] + enc_str(ss[0]) + enc_args_rest(ss.subrange(1, i as int)),
        decreases args@.len() - i,
    {
        proof {
            lemma_enc_args_rest_push(ss.subrange(1, i as int + 1));
            assert(ss.subrange(1, i as int + 1).drop_last() =~= ss.subrange(1, i as int));
            assert(ss.subrange(1, i as int + 1).last() == ss[i as int]);
            assert(ss[i as int] == args@[i as int]@);
        }
        out.push(',');
        let next = chars_of(&args[i]);
        push_str(out, &next);
        i += 1;
    }
    out.push(']');
    proof {
        assert(ss.subrange(1, ss.len() as int) =~= ss.skip(1));
        assert(out@ =~= old(out)@ + enc_args(ss));
    }
}

/// The encoded tail of a grown string list is the tail of the front plus a
/// comma and the encoding of the last string.
proof fn lemma_enc_args_rest_push(ss: Seq<Seq<char>>)
    requires
        ss.len() > 0,
    ensures
        enc_args_rest(ss) == enc_args_rest(ss.drop_last()) + seq![','] + enc_str(ss.last()),
    decreases ss.len(),
{
    if ss.len() == 1 {
        assert(ss.skip(1) =~= Seq::<Seq<char>>::empty());
        assert(ss.drop_last() =~= Seq::<Seq<char>>::empty());
        assert(enc_args_rest(ss) =~= enc_args_rest(ss.drop_last()) + seq![','] + enc_str(ss.last()));
    } else {
        lemma_enc_args_rest_push(ss.skip(1));
        assert(ss.skip(1).drop_last() =~= ss.drop_last().skip(1));
        assert(ss.skip(1).last() == ss.last());
        assert(ss.drop_last()[0] == ss[0]);
        assert(enc_args_rest(ss) =~= enc_args_rest(ss.drop_last()) + seq![','] + enc_str(ss.last()));
    }
}

/// The characters of a string, in order.
fn chars_of(s: &String) -> (out: Vec<char>)
    ensures
        out@ == s@,
{
    let st: &str = s.as_str();
    let n = st.unicode_len();
    let mut out: Vec<char> = Vec::new();
    let mut i: usize = 0;
    while i < n
        invariant
            n == st@.len(),
            st@ == s@,
            i <= n,
            out@ == s@.subrange(0, i as int),
        decreases n - i,
    {
        out.push(st.get_char(i));
        proof {
            assert(out@ =~= s@.subrange(0, i as int + 1));
        }
        i += 1;
    }
    proof {
        assert(s@.subrange(0, s@.len() as int) =~= s@);
    }
    out
}

/// Appends one record object.
fn push_record(out: &mut Vec<char>, r: &TimingRecord)
    ensures
        final(out)@ == old(out)@ + enc_rec(r@),
{
    push_lit_cmd(out);
    let cmd = chars_of(&r.command);
    push_str(out, &cmd);
    push_lit_args(out);
    push_args(out, &r.args);
    push_lit_start(out);
    push_u64(out, r.start_epoch_ms);
    push_lit_dur(out);
    push_u64(out, r.duration_ns);
    out.push('}');
    proof {
        assert(out@ =~= old(out)@ + enc_rec(r@));
    }
}

fn push_lit_cmd(out: &mut Vec<char>)
    ensures
        final(out)@ == old(out)@ + lit_cmd(),
{
    out.push('{');
    out.push('"');
    out.push('c');
    out.push('o');
    out.push('m');
    out.push('m');
    out.push('a');
    out.push('n');
    out.push('d');
    out.push('"');
    out.push(':');
    proof {
        assert(out@ =~= old(out)@ + lit_cmd());
    }
}

fn push_lit_args(out: &mut Vec<char>)
    ensures
        final(out)@ == old(out)@ + lit_args(),
{
    out.push(',');
    out.push('"');
    out.push('a');
    out.push('r');
    out.push('g');
    out.push('s');
    out.push('"');
    out.push(':');
    proof {
        assert(out@ =~= old(out)@ + lit_args());
    }
}

fn push_lit_start(out: &mut Vec<char>)
    ensures
        final(out)@ == old(out)@ + lit_start(),
{
    out.push(',');
    out.push('"');
    out.push('s');
    out.push('t');
    out.push('a');
    out.push('r');
    out.push('t');
    out.push('_');
    out.push('e');
    out.push('p');
    out.push('o');
    out.push('c');
    out.push('h');
    out.push('_');
    out.push('m');
    out.push('s');
    out.push('"');
    out.push(':');
    proof {
        assert(out@ =~= old(out)@ + lit_start());
    }
}

fn push_lit_dur(out: &mut Vec<char>)
    ensures
        final(out)@ == old(out)@ + lit_dur(),
{
    out.push(',');
    out.push('"');
    out.push('d');
    out.push('u');
    out.push('r');
    out.push('a');
    out.push('t');
    out.push('i');
    out.push('o');
    out.push('n');
    out.push('_');
    out.push('n');
    out.push('s');
    out.push('"');
    out.push(':');
    proof {
        assert(out@ =~= old(out)@ + lit_dur());
    }
}

/// The encoded tail of a grown record list is the tail of the front plus a
/// comma and the encoding of the last record.
proof fn lemma_enc_list_rest_push(rs: Seq<RecordView>)
    requires
        rs.len() > 0,
    ensures
        enc_list_rest(rs) == enc_list_rest(rs.drop_last()) + seq![','] + enc_rec(rs.last()),
    decreases rs.len(),
{
    if rs.len() == 1 {
        assert(rs.skip(1) =~= Seq::<RecordView>::empty());
        assert(rs.drop_last() =~= Seq::<RecordView>::empty());
        assert(enc_list_rest(rs) =~= enc_list_rest(rs.drop_last()) + seq![','] + enc_rec(rs.last()));
    } else {
        lemma_enc_list_rest_push(rs.skip(1));
        assert(rs.skip(1).drop_last() =~= rs.drop_last().skip(1));
        assert(rs.skip(1).last() == rs.last());
        assert(rs.drop_last()[0] == rs[0]);
        assert(enc_list_rest(rs) =~= enc_list_rest(rs.drop_last()) + seq![','] + enc_rec(rs.last()));
    }
}

/// Encodes a whole history as the JSON document described at the top of this
/// module.
#[verifier::rlimit(50)]
pub fn encode_history(h: &History) -> (out: Vec<char>)
    ensures
        out@ == enc_history(h@),
{
    let ghost rs = h@;
    let mut out: Vec<char> = Vec::new();
    push_lit_doc(&mut out);
    out.push('[');
    if h.timings.len() == 0 {
        out.push(']');
        out.push('}');
        proof {
            assert(out@ =~= enc_history(rs));
        }
        return out;
    }
    push_record(&mut out, &h.timings[0]);
    proof {
        assert(rs[0] == h.timings@[0]@);
    }
    let mut i: usize = 1;
    while i < h.timings.len()
        invariant
            1 <= i <= h.timings@.len(),
            h@ == rs,
            rs.len() == h.timings@.len(),
            forall|j: int| 0 <= j < rs.len() ==> rs[j] == h.timings@[j]@,
            out@ == lit_doc() + seq!['['] + enc_rec(rs[0]) + enc_list_rest(rs.subrange(1, i as int)),
        decreases h.timings@.len() - i,
    {
        proof {
            lemma_enc_list_rest_push(rs.subrange(1, i as int + 1));
            assert(rs.subrange(1, i as int + 1).drop_last() =~= rs.subrange(1, i as int));
            assert(rs.subrange(1, i as int + 1).last() == rs[i as int]);
        }
        out.push(',');
        push_record(&mut out, &h.timings[i]);
        i += 1;
    }
    out.push(']');
    out.push('}');
    proof {
        assert(rs.subrange(1, rs.len() as int) =~= rs.skip(1));
        assert(out@ =~= enc_history(rs));
    }
    out
}

fn push_lit_doc(out: &mut Vec<char>)
    ensures
        final(out)@ == old(out)@ + lit_doc(),
{
    out.push('{');
    out.push('"');
    out.push('t');
    out.push('i');
    out.push('m');
    out.push('i');
    out.push('n');
    out.push('g');
    out.push('s');
    out.push('"');
    out.push(':');
    proof {
        assert(out@ =~= old(out)@ + lit_doc());
    }
}

// ---------------------------------------------------------------------------
// Spec-level parser
// ---------------------------------------------------------------------------
/// The value of a decimal digit character, -1 for any other character.
pub open spec fn digit_val(c: char) -> int {
    if c == '0' { 0 } else if c == '1' { 1 } else if c == '2' { 2 } else if c == '3' { 3 }
    else if c == '4' { 4 } else if c == '5' { 5 } else if c == '6' { 6 } else if c == '7' { 7 }
    else if c == '8' { 8 } else if c == '9' { 9 } else { -1 }
}

/// The value of a lowercase hex digit character, -1 for any other character.
pub open spec fn hex_val(c: char) -> int {
    if digit_val(c) >= 0 { digit_val(c) }
    else if c == 'a' { 10 } else if c == 'b' { 11 } else if c == 'c' { 12 }
    else if c == 'd' { 13 } else if c == 'e' { 14 } else if c == 'f' { 15 } else { -1 }
}

/// Greedy decimal accumulation from position `i` with accumulator `acc`:
/// consumes digits while there are digits, then yields the value and the
/// first position past them.
pub open spec fn parse_num_rec(s: Seq<char>, i: int, acc: nat) -> (nat, int)
    decreases s.len() - i,
{
    if 0 <= i < s.len() && digit_val(s[i]) >= 0 {
        parse_num_rec(s, i + 1, (acc * 10 + digit_val(s[i])) as nat)
    } else {
        (acc, i)
    }
}

/// A `u64` decimal number at position `i`: at least one digit, value within
/// `u64` range.
pub open spec fn parse_u64_at(s: Seq<char>, i: int) -> Option<(u64, int)> {
    if 0 <= i < s.len() && digit_val(s[i]) >= 0 {
        let (v, j) = parse_num_rec(s, i, 0);
        if v <= u64::MAX {
            Some(((v as u64), j))
        } else {
            None
        }
    } else {
        None
    }
}

/// Prepends a character to the value of a string-body parse.
pub open spec fn cons_char(c: char, r: Option<(Seq<char>, int)>) -> Option<(Seq<char>, int)> {
    match r {
        Some((t, j)) => Some((seq![c] + t, j)),
        None => None,
    }
}

/// The body of a JSON string from position `i` up to and including the
/// closing quote; yields the unescaped characters and the position past the
/// quote.
pub open spec fn parse_str_body(s: Seq<char>, i: int) -> Option<(Seq<char>, int)>
    decreases s.len() - i,
{
    if !(0 <= i < s.len()) {
        None
    } else if s[i] == '"' {
        Some((Seq::<char>::empty(), i + 1))
    } else if s[i] == '\\' {
        if i + 1 < s.len() && (s[i + 1] == '"' || s[i + 1] == '\\') {
            cons_char(s[i + 1], parse_str_body(s, i + 2))
        } else if i + 5 < s.len() && s[i + 1] == 'u' && s[i + 2] == '0' && s[i + 3] == '0'
            && hex_val(s[i + 4]) >= 0 && hex_val(s[i + 5]) >= 0 {
            cons_char((hex_val(s[i + 4]) * 16 + hex_val(s[i + 5])) as char, parse_str_body(s, i + 6))
        } else {
            None
        }
    } else {
        cons_char(s[i], parse_str_body(s, i + 1))
    }
}

/// A whole JSON string at position `i`, opening quote included.
pub open spec fn parse_string_at(s: Seq<char>, i: int) -> Option<(Seq<char>, int)> {
    if 0 <= i < s.len() && s[i] == '"' {
        parse_str_body(s, i + 1)
    } else {
        None
    }
}

/// Checks the fixed characters `w` at position `i`; yields the position past
/// them.
pub open spec fn expect_at(s: Seq<char>, i: int, w: Seq<char>) -> Option<int> {
    if 0 <= i && i + w.len() <= s.len() && s.subrange(i, i + w.len()) == w {
        Some(i + w.len())
    } else {
        None
    }
}

/// The tail of a string array after its first element: either the closing
/// bracket or a comma and one more string, repeated.
pub open spec fn parse_args_rest(s: Seq<char>, i: int) -> Option<(Seq<Seq<char>>, int)>
    decreases s.len() - i,
{
    if !(0 <= i < s.len()) {
        None
    } else if s[i] == ']' {
        Some((Seq::<Seq<char>>::empty(), i + 1))
    } else if s[i] == ',' {
        match parse_string_at(s, i + 1) {
            Some((t, j)) => if i < j <= s.len() {
                match parse_args_rest(s, j) {
                    Some((ts, k)) => Some((seq![t] + ts, k)),
                    None => None,
                }
            } else {
                None
            },
            None => None,
        }
    } else {
        None
    }
}

/// A whole JSON array of strings at position `i`, brackets included.
pub open spec fn parse_args_at(s: Seq<char>, i: int) -> Option<(Seq<Seq<char>>, int)> {
    if 0 <= i < s.len() && s[i] == '[' {
        if i + 1 < s.len() && s[i + 1] == ']' {
            Some((Seq::<Seq<char>>::empty(), i + 2))
        } else {
            match parse_string_at(s, i + 1) {
                Some((t, j)) => match parse_args_rest(s, j) {
                    Some((ts, k)) => Some((seq![t] + ts, k)),
                    None => None,
                },
                None => None,
            }
        }
    } else {
        None
    }
}

/// One record object at position `i`: the four fields in their fixed order,
/// closing brace included.
pub open spec fn parse_record_at(s: Seq<char>, i: int) -> Option<(RecordView, int)> {
    match expect_at(s, i, lit_cmd()) {
        Some(j1) => match parse_string_at(s, j1) {
            Some((cmd, j2)) => match expect_at(s, j2, lit_args()) {
                Some(j3) => match parse_args_at(s, j3) {
                    Some((args, j4)) => match expect_at(s, j4, lit_start()) {
                        Some(j5) => match parse_u64_at(s, j5) {
                            Some((start, j6)) => match expect_at(s, j6, lit_dur()) {
                                Some(j7) => match parse_u64_at(s, j7) {
                                    Some((dur, j8)) => match expect_at(s, j8, seq!['}']) {
                                        Some(j9) => Some((
                                            RecordView {
                                                command: cmd,
                                                args: args,
                                                start_epoch_ms: start,
                                                duration_ns: dur,
                                            },
                                            j9,
                                        )),
                                        None => None,
                                    },
                                    None => None,
                                },
                                None => None,
                            },
                            None => None,
                        },
                        None => None,
                    },
                    None => None,
                },
                None => None,
            },
            None => None,
        },
        None => None,
    }
}

/// The tail of the record array after its first element.
pub open spec fn parse_list_rest(s: Seq<char>, i: int) -> Option<(Seq<RecordView>, int)>
    decreases s.len() - i,
{
    if !(0 <= i < s.len()) {
        None
    } else if s[i] == ']' {
        Some((Seq::<RecordView>::empty(), i + 1))
    } else if s[i] == ',' {
        match parse_record_at(s, i + 1) {
            Some((r, j)) => if i < j <= s.len() {
                match parse_list_rest(s, j) {
                    Some((rs, k)) => Some((seq![r] + rs, k)),
                    None => None,
                }
            } else {
                None
            },
            None => None,
        }
    } else {
        None
    }
}

/// The whole record array at position `i`, brackets included.
pub open spec fn parse_list_at(s: Seq<char>, i: int) -> Option<(Seq<RecordView>, int)> {
    if 0 <= i < s.len() && s[i] == '[' {
        if i + 1 < s.len() && s[i + 1] == ']' {
            Some((Seq::<RecordView>::empty(), i + 2))
        } else {
            match parse_record_at(s, i + 1) {
                Some((r, j)) => if i < j <= s.len() {
                    match parse_list_rest(s, j) {
                        Some((rs, k)) => Some((seq![r] + rs, k)),
                        None => None,
                    }
                } else {
                    None
                },
                None => None,
            }
        }
    } else {
        None
    }
}

/// The whole history document: the scaffolding, the record array, the closing
/// brace, and nothing after it.
pub open spec fn parse_history_text(s: Seq<char>) -> Option<Seq<RecordView>> {
    match expect_at(s, 0, lit_doc()) {
        Some(j1) => match parse_list_at(s, j1) {
            Some((rs, j2)) => match expect_at(s, j2, seq!['}']) {
                Some(j3) => if j3 == s.len() {
                    Some(rs)
                } else {
                    None
                },
                None => None,
            },
            None => None,
        },
        None => None,
    }
}

// ---------------------------------------------------------------------------
// Executable parser
// ---------------------------------------------------------------------------
/// A collected prefix in front of a pending string-body parse.
pub open spec fn cons_seq(pre: Seq<char>, r: Option<(Seq<char>, int)>) -> Option<(Seq<char>, int)> {
    match r {
        Some((t, j)) => Some((pre + t, j)),
        None => None,
    }
}

/// A collected prefix in front of a pending string-array parse.
pub open spec fn cons_strs(pre: Seq<Seq<char>>, r: Option<(Seq<Seq<char>>, int)>) -> Option<(
    Seq<Seq<char>>,
    int,
)> {
    match r {
        Some((ts, j)) => Some((pre + ts, j)),
        None => None,
    }
}

/// A collected prefix in front of a pending record-array parse.
pub open spec fn cons_recs(pre: Seq<RecordView>, r: Option<(Seq<RecordView>, int)>) -> Option<(
    Seq<RecordView>,
    int,
)> {
    match r {
        Some((rs, j)) => Some((pre + rs, j)),
        None => None,
    }
}

/// Shifting one parsed character from the pending parse to the prefix.
proof fn lemma_cons_shift(pre: Seq<char>, c: char, r: Option<(Seq<char>, int)>)
    ensures
        cons_seq(pre, cons_char(c, r)) == cons_seq(pre.push(c), r),
{
    match r {
        Some((t, j)) => {
            assert(pre + (seq![c] + t) =~= pre.push(c) + t);
        },
        None => {},
    }
}

/// The value of a decimal digit character, -1 for any other character.
fn digit_val_x(c: char) -> (v: i32)
    ensures
        v == digit_val(c),
{
    if c == '0' { 0 } else if c == '1' { 1 } else if c == '2' { 2 } else if c == '3' { 3 }
    else if c == '4' { 4 } else if c == '5' { 5 } else if c == '6' { 6 } else if c == '7' { 7 }
    else if c == '8' { 8 } else if c == '9' { 9 } else { -1 }
}

/// The value of a lowercase hex digit character, -1 for any other character.
fn hex_val_x(c: char) -> (v: i32)
    ensures
        v == hex_val(c),
{
    let d = digit_val_x(c);
    if d >= 0 { d }
    else if c == 'a' { 10 } else if c == 'b' { 11 } else if c == 'c' { 12 }
    else if c == 'd' { 13 } else if c == 'e' { 14 } else if c == 'f' { 15 } else { -1 }
}

/// Parses a `u64` decimal number at position `i`.
fn p_u64(s: &Vec<char>, i: usize) -> (r: Option<(u64, usize)>)
    requires
        i <= s@.len(),
    ensures
        match r {
            Some((v, j)) => parse_u64_at(s@, i as int) == Some((v, j as int)),
            None => parse_u64_at(s@, i as int) is None,
        },
{
    if !(i < s.len() && digit_val_x(s[i]) >= 0) {
        return None;
    }
    let mut j: usize = i;
    let mut acc: u64 = 0;
    let ghost mut acc_spec: nat = 0nat;
    let mut too_big: bool = false;
    while j < s.len() && digit_val_x(s[j]) >= 0
        invariant
            i <= j <= s@.len(),
            parse_num_rec(s@, i as int, 0nat) == parse_num_rec(s@, j as int, acc_spec),
            !too_big ==> acc == acc_spec,
            too_big ==> acc_spec > u64::MAX,
        decreases s@.len() - j,
    {
        let d = digit_val_x(s[j]);
        let ghost prev_spec = acc_spec;
        proof {
            acc_spec = (acc_spec * 10 + digit_val(s@[j as int])) as nat;
        }
        if !too_big {
            let wide: u128 = (acc as u128) * 10 + (d as u128);
            if wide > u64::MAX as u128 {
                too_big = true;
                proof {
                    assert(acc_spec == acc * 10 + digit_val(s@[j as int]));
                }
            } else {
                acc = wide as u64;
            }
        } else {
            proof {
                assert(prev_spec * 10 >= prev_spec) by (nonlinear_arith)
                    requires
                        prev_spec >= 0,
                ;
            }
        }
        j += 1;
    }
    proof {
        assert(parse_num_rec(s@, j as int, acc_spec) == (acc_spec, j as int));
    }
    if too_big {
        None
    } else {
        Some((acc, j))
    }
}

/// Parses the body of a JSON string at position `i` (just past the opening
/// quote), up to and including the closing quote.
fn p_str_body(s: &Vec<char>, i: usize) -> (r: Option<(Vec<char>, usize)>)
    requires
        i <= s@.len(),
    ensures
        match r {
            Some((t, j)) => parse_str_body(s@, i as int) == Some((t@, j as int)),
            None => parse_str_body(s@, i as int) is None,
        },
{
    let mut out: Vec<char> = Vec::new();
    let mut j: usize = i;
    loop
        invariant
            i <= j <= s@.len(),
            cons_seq(out@, parse_str_body(s@, j as int)) == parse_str_body(s@, i as int),
        decreases s@.len() - j,
    {
        if j >= s.len() {
            return None;
        }
        let c = s[j];
        if c == '"' {
            proof {
                assert(out@ + Seq::<char>::empty() =~= out@);
            }
            return Some((out, j + 1));
        } else if c == '\\' {
            if s.len() - j > 1 && (s[j + 1] == '"' || s[j + 1] == '\\') {
                proof {
                    lemma_cons_shift(out@, s@[j as int + 1], parse_str_body(s@, j as int + 2));
                }
                out.push(s[j + 1]);
                j += 2;
            } else if s.len() - j > 5 && s[j + 1] == 'u' && s[j + 2] == '0' && s[j + 3] == '0'
                && hex_val_x(s[j + 4]) >= 0 && hex_val_x(s[j + 5]) >= 0 {
                let hi = hex_val_x(s[j + 4]);
                let lo = hex_val_x(s[j + 5]);
                let code: u8 = (hi * 16 + lo) as u8;
                let decoded: char = code as char;
                proof {
                    assert(decoded == (hex_val(s@[j as int + 4]) * 16 + hex_val(
                        s@[j as int + 5],
                    )) as char);
                    lemma_cons_shift(out@, decoded, parse_str_body(s@, j as int + 6));
                }
                out.push(decoded);
                j += 6;
            } else {
                return None;
            }
        } else {
            proof {
                lemma_cons_shift(out@, s@[j as int], parse_str_body(s@, j as int + 1));
            }
            out.push(c);
            j += 1;
        }
    }
}

/// Parses a whole JSON string at position `i`, opening quote included.
fn p_string(s: &Vec<char>, i: usize) -> (r: Option<(Vec<char>, usize)>)
    requires
        i <= s@.len(),
    ensures
        match r {
            Some((t, j)) => parse_string_at(s@, i as int) == Some((t@, j as int)) && i < j
                <= s@.len(),
            None => parse_string_at(s@, i as int) is None,
        },
{
    if i < s.len() && s[i] == '"' {
        match p_str_body(s, i + 1) {
            Some((t, j)) => {
                proof {
                    lemma_parse_str_body_bounds(s@, i as int + 1);
                }
                Some((t, j))
            },
            None => None,
        }
    } else {
        None
    }
}

/// A successful string-body parse always lands inside the input, past where
/// it started.
proof fn lemma_parse_str_body_bounds(s: Seq<char>, i: int)
    requires
        0 <= i,
    ensures
        match parse_str_body(s, i) {
            Some((t, j)) => i < j <= s.len(),
            None => true,
        },
    decreases s.len() - i,
{
    if 0 <= i < s.len() {
        if s[i] == '"' {
        } else if s[i] == '\\' {
            if i + 1 < s.len() && (s[i + 1] == '"' || s[i + 1] == '\\') {
                lemma_parse_str_body_bounds(s, i + 2);
            } else if i + 5 < s.len() && s[i + 1] == 'u' && s[i + 2] == '0' && s[i + 3] == '0'
                && hex_val(s[i + 4]) >= 0 && hex_val(s[i + 5]) >= 0 {
                lemma_parse_str_body_bounds(s, i + 6);
            }
        } else {
            lemma_parse_str_body_bounds(s, i + 1);
        }
    }
}

/// Checks the fixed characters `w` at position `i`.
fn expect_x(s: &Vec<char>, i: usize, w: &Vec<char>) -> (r: Option<usize>)
    requires
        i <= s@.len(),
    ensures
        match r {
            Some(j) => expect_at(s@, i as int, w@) == Some(j as int) && i <= j <= s@.len(),
            None => expect_at(s@, i as int, w@) is None,
        },
{
    if s.len() - i < w.len() {
        return None;
    }
    let mut k: usize = 0;
    while k < w.len()
        invariant
            k <= w@.len(),
            i + w@.len() <= s@.len(),
            forall|m: int| 0 <= m < k ==> s@[i + m] == w@[m],
        decreases w@.len() - k,
    {
        proof {
            assert(i + k < s.len());
        }
        if s[i + k] != w[k] {
            proof {
                assert(s@.subrange(i as int, i as int + w@.len() as int)[k as int] != w@[k as int]);
            }
            return None;
        }
        k += 1;
    }
    proof {
        assert(s@.subrange(i as int, i as int + w@.len() as int) =~= w@);
    }
    Some(i + w.len())
}

/// Relies on `String::from_iter` over `char`: the collected string holds
/// exactly the characters handed in, in order.
#[verifier::external_body]
fn string_from_chars(v: &Vec<char>) -> (r: String)
    ensures
        r@ == v@,
{
    v.iter().collect()
}

/// Parses a whole JSON array of strings at position `i`.
fn p_args(s: &Vec<char>, i: usize) -> (r: Option<(Vec<String>, usize)>)
    requires
        i <= s@.len(),
    ensures
        match r {
            Some((ts, j)) => parse_args_at(s@, i as int) == Some((strs_view(ts@), j as int)) && i
                < j <= s@.len(),
            None => parse_args_at(s@, i as int) is None,
        },
{
    if !(i < s.len() && s[i] == '[') {
        return None;
    }
    if i + 1 < s.len() && s[i + 1] == ']' {
        let out: Vec<String> = Vec::new();
        proof {
            assert(strs_view(out@) =~= Seq::<Seq<char>>::empty());
        }
        return Some((out, i + 2));
    }
    let (first, mut j) = match p_string(s, i + 1) {
        Some(p) => p,
        None => {
            return None;
        },
    };
    let mut out: Vec<String> = Vec::new();
    out.push(string_from_chars(&first));
    proof {
        assert(strs_view(out@) =~= seq![first@]);
    }
    loop
        invariant
            i + 1 < j <= s@.len(),
            cons_strs(strs_view(out@), parse_args_rest(s@, j as int)) == parse_args_at(
                s@,
                i as int,
            ),
        decreases s@.len() - j,
    {
        if j >= s.len() {
            return None;
        }
        if s[j] == ']' {
            proof {
                assert(strs_view(out@) + Seq::<Seq<char>>::empty() =~= strs_view(out@));
            }
            return Some((out, j + 1));
        }
        if s[j] != ',' {
            return None;
        }
        let (next, j2) = match p_string(s, j + 1) {
            Some(p) => p,
            None => {
                return None;
            },
        };
        proof {
            let pre = strs_view(out@);
            match parse_args_rest(s@, j2 as int) {
                Some((ts, k)) => {
                    assert(pre + (seq![next@] + ts) =~= pre.push(next@) + ts);
                },
                None => {},
            }
        }
        let ghost pre_view = strs_view(out@);
        out.push(string_from_chars(&next));
        proof {
            assert(strs_view(out@) =~= pre_view.push(next@));
        }
        j = j2;
    }
}

/// Parses one record object at position `i`.
fn p_record(s: &Vec<char>, i: usize) -> (r: Option<(TimingRecord, usize)>)
    requires
        i <= s@.len(),
    ensures
        match r {
            Some((rec, j)) => parse_record_at(s@, i as int) == Some((rec@, j as int)) && i < j
                <= s@.len(),
            None => parse_record_at(s@, i as int) is None,
        },
{
    let w_cmd = lit_cmd_x();
    let w_args = lit_args_x();
    let w_start = lit_start_x();
    let w_dur = lit_dur_x();
    let mut w_close: Vec<char> = Vec::new();
    w_close.push('}');
    proof {
        assert(w_close@ =~= seq!['}']);
    }
    let j1 = match expect_x(s, i, &w_cmd) {
        Some(j) => j,
        None => {
            return None;
        },
    };
    let (cmd, j2) = match p_string(s, j1) {
        Some(p) => p,
        None => {
            return None;
        },
    };
    let j3 = match expect_x(s, j2, &w_args) {
        Some(j) => j,
        None => {
            return None;
        },
    };
    let (args, j4) = match p_args(s, j3) {
        Some(p) => p,
        None => {
            return None;
        },
    };
    let j5 = match expect_x(s, j4, &w_start) {
        Some(j) => j,
        None => {
            return None;
        },
    };
    let (start, j6) = match p_u64(s, j5) {
        Some(p) => p,
        None => {
            return None;
        },
    };
    proof {
        lemma_parse_u64_bounds(s@, j5 as int);
    }
    let j7 = match expect_x(s, j6, &w_dur) {
        Some(j) => j,
        None => {
            return None;
        },
    };
    let (dur, j8) = match p_u64(s, j7) {
        Some(p) => p,
        None => {
            return None;
        },
    };
    proof {
        lemma_parse_u64_bounds(s@, j7 as int);
    }
    let j9 = match expect_x(s, j8, &w_close) {
        Some(j) => j,
        None => {
            return None;
        },
    };
    let rec = TimingRecord {
        command: string_from_chars(&cmd),
        args,
        start_epoch_ms: start,
        duration_ns: dur,
    };
    Some((rec, j9))
}

/// A successful number parse always lands inside the input, past where it
/// started.
proof fn lemma_parse_u64_bounds(s: Seq<char>, i: int)
    ensures
        match parse_u64_at(s, i) {
            Some((v, j)) => i < j <= s.len(),
            None => true,
        },
{
    if 0 <= i < s.len() && digit_val(s[i]) >= 0 {
        lemma_parse_num_rec_bounds(s, i, 0nat);
    }
}

/// Greedy digit accumulation never runs past the input and always consumes at
/// least the digit it started on.
proof fn lemma_parse_num_rec_bounds(s: Seq<char>, i: int, acc: nat)
    requires
        0 <= i < s.len(),
        digit_val(s[i]) >= 0,
    ensures
        i < parse_num_rec(s, i, acc).1 <= s.len(),
    decreases s.len() - i,
{
    let next = (acc * 10 + digit_val(s[i])) as nat;
    if i + 1 < s.len() && digit_val(s[i + 1]) >= 0 {
        lemma_parse_num_rec_bounds(s, i + 1, next);
    } else {
        assert(parse_num_rec(s, i + 1, next).1 == i + 1);
    }
}

fn lit_cmd_x() -> (w: Vec<char>)
    ensures
        w@ == lit_cmd(),
{
    let mut w: Vec<char> = Vec::new();
    push_lit_cmd(&mut w);
    proof {
        assert(w@ =~= lit_cmd());
    }
    w
}

fn lit_args_x() -> (w: Vec<char>)
    ensures
        w@ == lit_args(),
{
    let mut w: Vec<char> = Vec::new();
    push_lit_args(&mut w);
    proof {
        assert(w@ =~= lit_args());
    }
    w
}

fn lit_start_x() -> (w: Vec<char>)
    ensures
        w@ == lit_start(),
{
    let mut w: Vec<char> = Vec::new();
    push_lit_start(&mut w);
    proof {
        assert(w@ =~= lit_start());
    }
    w
}

fn lit_dur_x() -> (w: Vec<char>)
    ensures
        w@ == lit_dur(),
{
    let mut w: Vec<char> = Vec::new();
    push_lit_dur(&mut w);
    proof {
        assert(w@ =~= lit_dur());
    }
    w
}

/// The record views of a vector of records.
pub open spec fn recs_view(v: Seq<TimingRecord>) -> Seq<RecordView> {
    v.map_values(|r: TimingRecord| r@)
}

/// Parses the whole record array at position `i`, brackets included.
fn p_list(s: &Vec<char>, i: usize) -> (r: Option<(Vec<TimingRecord>, usize)>)
    requires
        i <= s@.len(),
    ensures
        match r {
            Some((ts, j)) => parse_list_at(s@, i as int) == Some((recs_view(ts@), j as int)) && i
                < j <= s@.len(),
            None => parse_list_at(s@, i as int) is None,
        },
{
    if !(i < s.len() && s[i] == '[') {
        return None;
    }
    if i + 1 < s.len() && s[i + 1] == ']' {
        let out: Vec<TimingRecord> = Vec::new();
        proof {
            assert(recs_view(out@) =~= Seq::<RecordView>::empty());
        }
        return Some((out, i + 2));
    }
    let (first, mut j) = match p_record(s, i + 1) {
        Some(p) => p,
        None => {
            return None;
        },
    };
    let mut out: Vec<TimingRecord> = Vec::new();
    let ghost first_v = first@;
    out.push(first);
    proof {
        assert(recs_view(out@) =~= seq![first_v]);
    }
    loop
        invariant
            i + 1 < j <= s@.len(),
            cons_recs(recs_view(out@), parse_list_rest(s@, j as int)) == parse_list_at(
                s@,
                i as int,
            ),
        decreases s@.len() - j,
    {
        if j >= s.len() {
            return None;
        }
        if s[j] == ']' {
            proof {
                assert(recs_view(out@) + Seq::<RecordView>::empty() =~= recs_view(out@));
            }
            return Some((out, j + 1));
        }
        if s[j] != ',' {
            return None;
        }
        let (next, j2) = match p_record(s, j + 1) {
            Some(p) => p,
            None => {
                return None;
            },
        };
        proof {
            let pre = recs_view(out@);
            match parse_list_rest(s@, j2 as int) {
                Some((ts, k)) => {
                    assert(pre + (seq![next@] + ts) =~= pre.push(next@) + ts);
                },
                None => {},
            }
        }
        let ghost pre_view = recs_view(out@);
        let ghost next_v = next@;
        out.push(next);
        proof {
            assert(recs_view(out@) =~= pre_view.push(next_v));
        }
        j = j2;
    }
}

/// Parses a whole history document. Yields the history exactly when the text
/// is a well-formed document with nothing before or after it; any other text
/// is malformed.
pub fn parse_history(text: &Vec<char>) -> (r: Option<History>)
    ensures
        match r {
            Some(h) => parse_history_text(text@) == Some(h@),
            None => parse_history_text(text@) is None,
        },
{
    let w_doc = lit_doc_x();
    let mut w_close: Vec<char> = Vec::new();
    w_close.push('}');
    proof {
        assert(w_close@ =~= seq!['}']);
    }
    let j1 = match expect_x(text, 0, &w_doc) {
        Some(j) => j,
        None => {
            return None;
        },
    };
    let (recs, j2) = match p_list(text, j1) {
        Some(p) => p,
        None => {
            return None;
        },
    };
    let j3 = match expect_x(text, j2, &w_close) {
        Some(j) => j,
        None => {
            return None;
        },
    };
    if j3 != text.len() {
        return None;
    }
    let h = History { timings: recs };
    Some(h)
}

fn lit_doc_x() -> (w: Vec<char>)
    ensures
        w@ == lit_doc(),
{
    let mut w: Vec<char> = Vec::new();
    push_lit_doc(&mut w);
    proof {
        assert(w@ =~= lit_doc());
    }
    w
}

} // verus!
