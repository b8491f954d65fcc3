//! Round-trip proof for the history codec: parsing an encoded history yields
//! exactly the history that was encoded, record for record and field for
//! field.
use vstd::prelude::*;
use crate::history::RecordView;
use crate::codec::{
    digit_char, hex_char, dec_digits, esc_char, enc_str_body, enc_str, enc_args_rest, enc_args,
    lit_cmd, lit_args, lit_start, lit_dur, lit_doc, enc_rec, enc_list_rest, enc_list, enc_history,
    digit_val, hex_val, parse_num_rec, parse_u64_at, cons_char, parse_str_body, parse_string_at,
    expect_at, parse_args_rest, parse_args_at, parse_record_at, parse_list_rest, parse_list_at,
    parse_history_text,
};

verus! {

/// The fixed characters `w` stand in `s` at position `i`.
pub open spec fn contains_at(s: Seq<char>, i: int, w: Seq<char>) -> bool {
    0 <= i && i + w.len() <= s.len() && s.subrange(i, i + w.len()) == w
}

/// A contained concatenation splits into its two contained parts.
proof fn lemma_contains_split(s: Seq<char>, i: int, a: Seq<char>, b: Seq<char>)
    requires
        contains_at(s, i, a + b),
    ensures
        contains_at(s, i, a),
        contains_at(s, i + a.len(), b),
{
    let w = a + b;
    assert forall|k: int| 0 <= k < a.len() implies s.subrange(i, i + a.len())[k] == a[k] by {
        assert(s.subrange(i, i + w.len())[k] == s[i + k]);
        assert(s.subrange(i, i + a.len())[k] == s[i + k]);
        assert(w[k] == a[k]);
    }
    assert(s.subrange(i, i + a.len()) =~= a);
    assert forall|m: int| 0 <= m < b.len() implies s.subrange(
        i + a.len(),
        i + a.len() + b.len(),
    )[m] == b[m] by {
        assert(s.subrange(i, i + w.len())[a.len() + m] == s[i + a.len() + m]);
        assert(s.subrange(i + a.len(), i + a.len() + b.len())[m] == s[i + a.len() + m]);
        assert(w[a.len() + m] == b[m]);
    }
    assert(s.subrange(i + a.len(), i + a.len() + b.len()) =~= b);
}

/// Two adjacent contained parts join into a contained concatenation.
proof fn lemma_contains_join(s: Seq<char>, i: int, a: Seq<char>, b: Seq<char>)
    requires
        contains_at(s, i, a),
        contains_at(s, i + a.len(), b),
    ensures
        contains_at(s, i, a + b),
{
    let w = a + b;
    assert forall|k: int| 0 <= k < w.len() implies s.subrange(i, i + w.len())[k] == w[k] by {
        assert(s.subrange(i, i + w.len())[k] == s[i + k]);
        if k < a.len() {
            assert(s.subrange(i, i + a.len())[k] == s[i + k]);
            assert(w[k] == a[k]);
        } else {
            assert(s.subrange(i + a.len(), i + a.len() + b.len())[k - a.len()] == s[i + k]);
            assert(w[k] == b[k - a.len()]);
        }
    }
    assert(s.subrange(i, i + w.len()) =~= w);
}

/// The character at offset `k` of a contained part.
proof fn lemma_contains_index(s: Seq<char>, i: int, w: Seq<char>, k: int)
    requires
        contains_at(s, i, w),
        0 <= k < w.len(),
    ensures
        s[i + k] == w[k],
{
    assert(s.subrange(i, i + w.len())[k] == s[i + k]);
}

/// Contained fixed characters are found by `expect_at`.
proof fn lemma_expect(s: Seq<char>, i: int, w: Seq<char>)
    requires
        contains_at(s, i, w),
    ensures
        expect_at(s, i, w) == Some(i + w.len()),
{
}

/// Powers of ten.
pub open spec fn pow10(k: nat) -> nat
    decreases k,
{
    if k == 0 {
        1
    } else {
        10 * pow10((k - 1) as nat)
    }
}

/// A decimal digit character decodes back to its value.
proof fn lemma_digit_roundtrip(d: int)
    requires
        0 <= d < 10,
    ensures
        digit_val(digit_char(d)) == d,
{
}

/// A lowercase hex digit character decodes back to its value.
proof fn lemma_hex_roundtrip(v: int)
    requires
        0 <= v < 16,
    ensures
        hex_val(hex_char(v)) == v,
{
}

/// Canonical decimal digits are non-empty and start with a digit.
proof fn lemma_dec_digits_first(n: nat)
    ensures
        dec_digits(n).len() >= 1,
        digit_val(dec_digits(n)[0]) >= 0,
    decreases n,
{
    if n < 10 {
        lemma_digit_roundtrip(n as int);
    } else {
        lemma_dec_digits_first(n / 10);
    }
}

/// Running the greedy accumulator across the contained digits of `n` shifts
/// the accumulator up by one power of ten per digit and adds `n`.
proof fn lemma_parse_num_continues(s: Seq<char>, i: int, acc: nat, n: nat)
    requires
        contains_at(s, i, dec_digits(n)),
    ensures
        parse_num_rec(s, i, acc) == parse_num_rec(
            s,
            i + dec_digits(n).len(),
            (acc * pow10(dec_digits(n).len()) + n) as nat,
        ),
    decreases n,
{
    if n < 10 {
        lemma_contains_index(s, i, dec_digits(n), 0);
        lemma_digit_roundtrip(n as int);
        assert(pow10(0) == 1);
        assert(pow10(1) == 10);
        assert(parse_num_rec(s, i, acc) == parse_num_rec(s, i + 1, (acc * 10 + n) as nat));
    } else {
        let a = dec_digits(n / 10);
        let la = a.len();
        let d = digit_char((n % 10) as int);
        assert(dec_digits(n) =~= a + seq![d]);
        lemma_contains_split(s, i, a, seq![d]);
        lemma_parse_num_continues(s, i, acc, n / 10);
        let acc2 = (acc * pow10(la) + n / 10) as nat;
        lemma_contains_index(s, i + la, seq![d], 0);
        lemma_digit_roundtrip((n % 10) as int);
        assert(i + la < s.len());
        assert(parse_num_rec(s, i + la, acc2) == parse_num_rec(
            s,
            i + la + 1,
            (acc2 * 10 + (n % 10)) as nat,
        ));
        assert(pow10(la + 1) == 10 * pow10(la));
        assert(n == 10 * (n / 10) + n % 10);
        assert(acc2 * 10 + (n % 10) == acc * pow10(la + 1) + n) by (nonlinear_arith)
            requires
                acc2 == acc * pow10(la) + n / 10,
                pow10(la + 1) == 10 * pow10(la),
                n == 10 * (n / 10) + n % 10,
        ;
        assert(dec_digits(n).len() == la + 1);
    }
}

/// The contained canonical digits of a `u64`, followed by a non-digit or by
/// the end of the input, parse back to exactly that value.
proof fn lemma_parse_u64_rt(s: Seq<char>, i: int, n: u64)
    requires
        contains_at(s, i, dec_digits(n as nat)),
        i + dec_digits(n as nat).len() == s.len() || digit_val(
            s[i + dec_digits(n as nat).len()],
        ) < 0,
    ensures
        parse_u64_at(s, i) == Some((n, i + dec_digits(n as nat).len())),
{
    let w = dec_digits(n as nat);
    lemma_dec_digits_first(n as nat);
    lemma_contains_index(s, i, w, 0);
    lemma_parse_num_continues(s, i, 0nat, n as nat);
    assert(0nat * pow10(w.len()) + (n as nat) == n as nat) by (nonlinear_arith);
    assert(parse_num_rec(s, i + w.len(), n as nat) == (n as nat, i + w.len()));
}

/// Escape sequences are non-empty.
proof fn lemma_esc_len(c: char)
    ensures
        1 <= esc_char(c).len() <= 6,
{
}

/// The contained escaped body of `t`, followed by the closing quote, parses
/// back to exactly `t`, landing just past the quote.
proof fn lemma_parse_str_body_rt(s: Seq<char>, i: int, t: Seq<char>)
    requires
        contains_at(s, i, enc_str_body(t) + seq!['"']),
    ensures
        parse_str_body(s, i) == Some((t, i + enc_str_body(t).len() + 1)),
    decreases t.len(),
{
    if t.len() == 0 {
        lemma_contains_index(s, i, enc_str_body(t) + seq!['"'], 0);
        assert(t =~= Seq::<char>::empty());
    } else {
        let c = t[0];
        let t2 = t.skip(1);
        let e = esc_char(c);
        let body2 = enc_str_body(t2);
        assert(enc_str_body(t) == e + body2);
        assert((e + body2) + seq!['"'] =~= e + (body2 + seq!['"']));
        lemma_contains_split(s, i, e, body2 + seq!['"']);
        lemma_esc_len(c);
        lemma_parse_str_body_rt(s, i + e.len(), t2);
        let tail = Some((t2, i + e.len() + body2.len() + 1));
        assert(parse_str_body(s, i + e.len()) == tail);
        assert(seq![c] + t2 =~= t);
        if c == '"' {
            lemma_contains_index(s, i, e, 0);
            lemma_contains_index(s, i, e, 1);
            assert(parse_str_body(s, i) == cons_char(c, parse_str_body(s, i + 2)));
        } else if c == '\\' {
            lemma_contains_index(s, i, e, 0);
            lemma_contains_index(s, i, e, 1);
            assert(parse_str_body(s, i) == cons_char(c, parse_str_body(s, i + 2)));
        } else if (c as int) < 32 {
            let v = c as int;
            lemma_contains_index(s, i, e, 0);
            lemma_contains_index(s, i, e, 1);
            lemma_contains_index(s, i, e, 2);
            lemma_contains_index(s, i, e, 3);
            lemma_contains_index(s, i, e, 4);
            lemma_contains_index(s, i, e, 5);
            vstd::utf8::char_is_scalar(c);
            vstd::utf8::char_u32_cast(c, c as u32);
            assert(0 <= v < 32);
            lemma_hex_roundtrip(v / 16);
            lemma_hex_roundtrip(v % 16);
            assert((v / 16) * 16 + v % 16 == v);
            assert(((v / 16) * 16 + v % 16) as char == c);
            assert(parse_str_body(s, i) == cons_char(c, parse_str_body(s, i + 6)));
        } else {
            lemma_contains_index(s, i, e, 0);
            assert(parse_str_body(s, i) == cons_char(c, parse_str_body(s, i + 1)));
        }
    }
}

/// A contained encoded string parses back to exactly its contents.
proof fn lemma_parse_string_rt(s: Seq<char>, i: int, t: Seq<char>)
    requires
        contains_at(s, i, enc_str(t)),
    ensures
        parse_string_at(s, i) == Some((t, i + enc_str(t).len())),
{
    let body = enc_str_body(t);
    assert(enc_str(t) =~= seq!['"'] + (body + seq!['"']));
    lemma_contains_split(s, i, seq!['"'], body + seq!['"']);
    lemma_contains_index(s, i, seq!['"'], 0);
    lemma_parse_str_body_rt(s, i + 1, t);
}

/// The contained encoded tail of a string array, followed by the closing
/// bracket, parses back to exactly those strings.
proof fn lemma_parse_args_rest_rt(s: Seq<char>, i: int, ss: Seq<Seq<char>>)
    requires
        contains_at(s, i, enc_args_rest(ss) + seq![']']),
    ensures
        parse_args_rest(s, i) == Some((ss, i + enc_args_rest(ss).len() + 1)),
    decreases ss.len(),
{
    if ss.len() == 0 {
        lemma_contains_index(s, i, enc_args_rest(ss) + seq![']'], 0);
        assert(ss =~= Seq::<Seq<char>>::empty());
    } else {
        let head = enc_str(ss[0]);
        let rest = enc_args_rest(ss.skip(1));
        assert(enc_args_rest(ss) == seq![','] + head + rest);
        assert((seq![','] + head + rest) + seq![']'] =~= seq![','] + (head + (rest + seq![']'])));
        lemma_contains_split(s, i, seq![','], head + (rest + seq![']']));
        lemma_contains_split(s, i + 1, head, rest + seq![']']);
        lemma_contains_index(s, i, seq![','], 0);
        lemma_parse_string_rt(s, i + 1, ss[0]);
        let j = i + 1 + head.len();
        lemma_parse_args_rest_rt(s, j, ss.skip(1));
        assert(seq![ss[0]] + ss.skip(1) =~= ss);
    }
}

/// A contained encoded string array parses back to exactly its strings.
proof fn lemma_parse_args_rt(s: Seq<char>, i: int, ss: Seq<Seq<char>>)
    requires
        contains_at(s, i, enc_args(ss)),
    ensures
        parse_args_at(s, i) == Some((ss, i + enc_args(ss).len())),
{
    if ss.len() == 0 {
        lemma_contains_index(s, i, enc_args(ss), 0);
        lemma_contains_index(s, i, enc_args(ss), 1);
        assert(ss =~= Seq::<Seq<char>>::empty());
    } else {
        let head = enc_str(ss[0]);
        let rest = enc_args_rest(ss.skip(1));
        assert(enc_args(ss) =~= seq!['['] + (head + (rest + seq![']'])));
        lemma_contains_split(s, i, seq!['['], head + (rest + seq![']']));
        lemma_contains_split(s, i + 1, head, rest + seq![']']);
        lemma_contains_index(s, i, seq!['['], 0);
        lemma_parse_string_rt(s, i + 1, ss[0]);
        assert(enc_str(ss[0])[0] == '"') by {
            assert(enc_str(ss[0]) =~= seq!['"'] + (enc_str_body(ss[0]) + seq!['"']));
        }
        lemma_contains_index(s, i + 1, head, 0);
        let j = i + 1 + head.len();
        lemma_parse_args_rest_rt(s, j, ss.skip(1));
        assert(seq![ss[0]] + ss.skip(1) =~= ss);
    }
}

/// A contained encoded record parses back to exactly that record.
proof fn lemma_parse_record_rt(s: Seq<char>, i: int, r: RecordView)
    requires
        contains_at(s, i, enc_rec(r)),
    ensures
        parse_record_at(s, i) == Some((r, i + enc_rec(r).len())),
{
    let a1 = lit_cmd();
    let a2 = enc_str(r.command);
    let a3 = lit_args();
    let a4 = enc_args(r.args);
    let a5 = lit_start();
    let a6 = dec_digits(r.start_epoch_ms as nat);
    let a7 = lit_dur();
    let a8 = dec_digits(r.duration_ns as nat);
    let a9 = seq!['}'];
    let w12 = a1 + a2;
    let w13 = w12 + a3;
    let w14 = w13 + a4;
    let w15 = w14 + a5;
    let w16 = w15 + a6;
    let w17 = w16 + a7;
    let w18 = w17 + a8;
    assert(enc_rec(r) == w18 + a9);
    lemma_contains_split(s, i, w18, a9);
    lemma_contains_split(s, i, w17, a8);
    lemma_contains_split(s, i, w16, a7);
    lemma_contains_split(s, i, w15, a6);
    lemma_contains_split(s, i, w14, a5);
    lemma_contains_split(s, i, w13, a4);
    lemma_contains_split(s, i, w12, a3);
    lemma_contains_split(s, i, a1, a2);
    let p1 = i + a1.len();
    let p2 = p1 + a2.len();
    let p3 = p2 + a3.len();
    let p4 = p3 + a4.len();
    let p5 = p4 + a5.len();
    let p6 = p5 + a6.len();
    let p7 = p6 + a7.len();
    let p8 = p7 + a8.len();
    let p9 = p8 + a9.len();
    lemma_expect(s, i, a1);
    lemma_parse_string_rt(s, p1, r.command);
    lemma_expect(s, p2, a3);
    lemma_parse_args_rt(s, p3, r.args);
    lemma_expect(s, p4, a5);
    lemma_contains_index(s, p6, a7, 0);
    assert(digit_val(',') == -1);
    lemma_parse_u64_rt(s, p5, r.start_epoch_ms);
    lemma_expect(s, p6, a7);
    lemma_contains_index(s, p8, a9, 0);
    assert(digit_val('}') == -1);
    lemma_parse_u64_rt(s, p7, r.duration_ns);
    lemma_expect(s, p8, a9);
    assert(parse_record_at(s, i) == Some(
        (
            RecordView {
                command: r.command,
                args: r.args,
                start_epoch_ms: r.start_epoch_ms,
                duration_ns: r.duration_ns,
            },
            p9,
        ),
    ));
    assert(r == RecordView {
        command: r.command,
        args: r.args,
        start_epoch_ms: r.start_epoch_ms,
        duration_ns: r.duration_ns,
    });
}

/// An encoded record opens with a brace.
proof fn lemma_enc_rec_first(r: RecordView)
    ensures
        enc_rec(r).len() > 0,
        enc_rec(r)[0] == '{',
{
    let w12 = lit_cmd() + enc_str(r.command);
    assert(w12[0] == '{');
    let w13 = w12 + lit_args();
    assert(w13[0] == '{');
    let w14 = w13 + enc_args(r.args);
    assert(w14[0] == '{');
    let w15 = w14 + lit_start();
    assert(w15[0] == '{');
    let w16 = w15 + dec_digits(r.start_epoch_ms as nat);
    assert(w16[0] == '{');
    let w17 = w16 + lit_dur();
    assert(w17[0] == '{');
    let w18 = w17 + dec_digits(r.duration_ns as nat);
    assert(w18[0] == '{');
    assert(enc_rec(r) == w18 + seq!['}']);
    assert(enc_rec(r)[0] == '{');
}

/// The contained encoded tail of the record array, followed by the closing
/// bracket, parses back to exactly those records.
proof fn lemma_parse_list_rest_rt(s: Seq<char>, i: int, rs: Seq<RecordView>)
    requires
        contains_at(s, i, enc_list_rest(rs) + seq![']']),
    ensures
        parse_list_rest(s, i) == Some((rs, i + enc_list_rest(rs).len() + 1)),
    decreases rs.len(),
{
    if rs.len() == 0 {
        lemma_contains_index(s, i, enc_list_rest(rs) + seq![']'], 0);
        assert(rs =~= Seq::<RecordView>::empty());
    } else {
        let head = enc_rec(rs[0]);
        let rest = enc_list_rest(rs.skip(1));
        assert(enc_list_rest(rs) == seq![','] + head + rest);
        assert((seq![','] + head + rest) + seq![']'] =~= seq![','] + (head + (rest + seq![']'])));
        lemma_contains_split(s, i, seq![','], head + (rest + seq![']']));
        lemma_contains_split(s, i + 1, head, rest + seq![']']);
        lemma_contains_index(s, i, seq![','], 0);
        lemma_parse_record_rt(s, i + 1, rs[0]);
        let j = i + 1 + head.len();
        lemma_parse_list_rest_rt(s, j, rs.skip(1));
        assert(seq![rs[0]] + rs.skip(1) =~= rs);
    }
}

/// A contained encoded record array parses back to exactly its records.
proof fn lemma_parse_list_rt(s: Seq<char>, i: int, rs: Seq<RecordView>)
    requires
        contains_at(s, i, enc_list(rs)),
    ensures
        parse_list_at(s, i) == Some((rs, i + enc_list(rs).len())),
{
    if rs.len() == 0 {
        lemma_contains_index(s, i, enc_list(rs), 0);
        lemma_contains_index(s, i, enc_list(rs), 1);
        assert(rs =~= Seq::<RecordView>::empty());
    } else {
        let head = enc_rec(rs[0]);
        let rest = enc_list_rest(rs.skip(1));
        assert(enc_list(rs) =~= seq!['['] + (head + (rest + seq![']'])));
        lemma_contains_split(s, i, seq!['['], head + (rest + seq![']']));
        lemma_contains_split(s, i + 1, head, rest + seq![']']);
        lemma_contains_index(s, i, seq!['['], 0);
        lemma_parse_record_rt(s, i + 1, rs[0]);
        lemma_enc_rec_first(rs[0]);
        lemma_contains_index(s, i + 1, head, 0);
        let j = i + 1 + head.len();
        lemma_parse_list_rest_rt(s, j, rs.skip(1));
        assert(seq![rs[0]] + rs.skip(1) =~= rs);
    }
}

/// Round-trip: parsing the encoding of any history yields exactly that
/// history.
pub proof fn lemma_round_trip(rs: Seq<RecordView>)
    ensures
        parse_history_text(enc_history(rs)) == Some(rs),
{
    let s = enc_history(rs);
    let a1 = lit_doc();
    let a2 = enc_list(rs);
    let a3 = seq!['}'];
    assert(s == (a1 + a2) + a3);
    assert(contains_at(s, 0, s)) by {
        assert(s.subrange(0, s.len() as int) =~= s);
    }
    lemma_contains_split(s, 0, a1 + a2, a3);
    lemma_contains_split(s, 0, a1, a2);
    lemma_expect(s, 0, a1);
    lemma_parse_list_rt(s, a1.len() as int, rs);
    lemma_expect(s, a1.len() + a2.len() as int, a3);
}

} // verus!
