//! The persisted-state wire codec: the two state files are JSON objects,
//! written in one canonical form and read back strictly. Encoding and
//! decoding invert each other, so a saved configuration loads back equal.
use crate::chars;
use crate::chars::{dec_val, is_digit};
use vstd::prelude::*;

verus! {

/// Relies on char::from_u32: the character with the given code.
#[verifier::external_body]
fn char_of_code(v: u32) -> (r: char)
    requires
        v < 0xD800,
    ensures
        r as u32 == v,
{
    match char::from_u32(v) {
        Some(c) => c,
        None => ' ',
    }
}

/// The hexadecimal digit for a value below sixteen.
pub open spec fn hex_digit(v: int) -> char {
    if v == 0 {
        '0'
    } else if v == 1 {
        '1'
    } else if v == 2 {
        '2'
    } else if v == 3 {
        '3'
    } else if v == 4 {
        '4'
    } else if v == 5 {
        '5'
    } else if v == 6 {
        '6'
    } else if v == 7 {
        '7'
    } else if v == 8 {
        '8'
    } else if v == 9 {
        '9'
    } else if v == 10 {
        'a'
    } else if v == 11 {
        'b'
    } else if v == 12 {
        'c'
    } else if v == 13 {
        'd'
    } else if v == 14 {
        'e'
    } else {
        'f'
    }
}

/// The value of a lower-case hexadecimal digit.
pub open spec fn hex_val(c: char) -> Option<int> {
    if is_digit(c) {
        Some(c as u32 - 48)
    } else if 97 <= c as u32 <= 102 {
        Some(c as u32 - 87)
    } else {
        None
    }
}

proof fn lemma_hex_round(v: int)
    requires
        0 <= v < 16,
    ensures
        hex_val(hex_digit(v)) == Some(v),
{
}

/// The escape of one character: quote and backslash are backslashed,
/// control characters become a four-digit escape, anything else stands as
/// itself.
pub open spec fn esc_char(c: char) -> Seq<char> {
    if c == '"' {
        seq!['\\', '"']
    } else if c == '\\' {
        seq!['\\', '\\']
    } else if (c as u32) < 32 {
        seq!['\\', 'u', '0', '0', hex_digit((c as u32 / 16) as int), hex_digit((c as u32 % 16) as int)]
    } else {
        seq![c]
    }
}

/// The escaped form of a string's characters.
pub open spec fn esc(s: Seq<char>) -> Seq<char>
    decreases s.len(),
{
    if s.len() == 0 {
        Seq::empty()
    } else {
        esc_char(s[0]) + esc(s.skip(1))
    }
}

/// A string literal: the escaped characters between quotes.
pub open spec fn enc_str(s: Seq<char>) -> Seq<char> {
    seq!['"'] + esc(s) + seq!['"']
}

/// Read a string body up to its closing quote: the unescaped characters and
/// what follows the quote.
pub open spec fn parse_str_body(s: Seq<char>) -> Option<(Seq<char>, Seq<char>)>
    decreases s.len(),
{
    if s.len() == 0 {
        None
    } else if s[0] == '"' {
        Some((Seq::empty(), s.skip(1)))
    } else if s[0] == '\\' {
        if s.len() < 2 {
            None
        } else if s[1] == '"' || s[1] == '\\' {
            match parse_str_body(s.skip(2)) {
                Some((c, r)) => Some((seq![s[1]] + c, r)),
                None => None,
            }
        } else if s[1] == 'u' {
            if s.len() < 6 {
                None
            } else if s[2] == '0' && s[3] == '0' && hex_val(s[4]) is Some && hex_val(
                s[5],
            ) is Some {
                let v = 16 * hex_val(s[4]).unwrap() + hex_val(s[5]).unwrap();
                match parse_str_body(s.skip(6)) {
                    Some((c, r)) => Some((seq![(v as u32) as char] + c, r)),
                    None => None,
                }
            } else {
                None
            }
        } else {
            None
        }
    } else {
        match parse_str_body(s.skip(1)) {
            Some((c, r)) => Some((seq![s[0]] + c, r)),
            None => None,
        }
    }
}

/// Read a string literal: its characters and what follows it.
pub open spec fn parse_str(s: Seq<char>) -> Option<(Seq<char>, Seq<char>)> {
    if s.len() >= 1 && s[0] == '"' {
        parse_str_body(s.skip(1))
    } else {
        None
    }
}

proof fn lemma_body_round(s: Seq<char>, rest: Seq<char>)
    ensures
        parse_str_body(esc(s) + seq!['"'] + rest) == Some((s, rest)),
    decreases s.len(),
{
    let input = esc(s) + seq!['"'] + rest;
    if s.len() == 0 {
        assert(esc(s) =~= Seq::<char>::empty());
        assert(input =~= seq!['"'] + rest);
        assert(input[0] == '"');
        assert(input.skip(1) =~= rest);
    } else {
        let c = s[0];
        let tail = s.skip(1);
        lemma_body_round(tail, rest);
        assert(input =~= esc_char(c) + (esc(tail) + seq!['"'] + rest));
        let sub = esc(tail) + seq!['"'] + rest;
        if c == '"' {
            assert(input =~= seq!['\\', '"'] + sub);
            assert(input[0] == '\\' && input[1] == '"');
            assert(input.skip(2) =~= sub);
            assert(seq![c] + tail =~= s);
        } else if c == '\\' {
            assert(input =~= seq!['\\', '\\'] + sub);
            assert(input[0] == '\\' && input[1] == '\\');
            assert(input.skip(2) =~= sub);
            assert(seq![c] + tail =~= s);
        } else if (c as u32) < 32 {
            let hi = hex_digit((c as u32 / 16) as int);
            let lo = hex_digit((c as u32 % 16) as int);
            assert(input =~= seq!['\\', 'u', '0', '0', hi, lo] + sub);
            assert(input[0] == '\\' && input[1] == 'u' && input[2] == '0' && input[3]
                == '0' && input[4] == hi && input[5] == lo);
            assert(input[0] != '"');
            lemma_hex_round((c as u32 / 16) as int);
            lemma_hex_round((c as u32 % 16) as int);
            assert(input.len() >= 6);
            assert(input.skip(6) =~= sub);
            let v = 16 * hex_val(input[4]).unwrap() + hex_val(input[5]).unwrap();
            assert(v == 16 * (c as u32 / 16) + (c as u32 % 16));
            assert(v == c as u32);
            assert((v as u32) as char == c) by {
                vstd::utf8::char_u32_cast(c, v as u32);
            }
            assert(seq![c] + tail =~= s);
        } else {
            assert(input =~= seq![c] + sub);
            assert(input[0] == c);
            assert(c != '"' && c != '\\');
            assert(input.skip(1) =~= sub);
            assert(seq![c] + tail =~= s);
        }
    }
}

/// Reading back an encoded string yields the string and the rest.
pub proof fn lemma_str_round(s: Seq<char>, rest: Seq<char>)
    ensures
        parse_str(enc_str(s) + rest) == Some((s, rest)),
{
    let input = enc_str(s) + rest;
    assert(input[0] == '"');
    assert(input.skip(1) =~= esc(s) + seq!['"'] + rest);
    lemma_body_round(s, rest);
}

/// An object's members: `"key":"value"` pairs separated by commas, in
/// entry order.
pub open spec fn enc_pairs(m: Seq<(Seq<char>, Seq<char>)>) -> Seq<char>
    decreases m.len(),
{
    if m.len() == 0 {
        Seq::empty()
    } else if m.len() == 1 {
        enc_str(m[0].0) + seq![':'] + enc_str(m[0].1)
    } else {
        enc_str(m[0].0) + seq![':'] + enc_str(m[0].1) + seq![','] + enc_pairs(m.skip(1))
    }
}

/// An object of string values.
pub open spec fn enc_obj(m: Seq<(Seq<char>, Seq<char>)>) -> Seq<char> {
    seq!['{'] + enc_pairs(m) + seq!['}']
}

/// Read one or more `"key":"value"` members.
pub open spec fn parse_pairs(s: Seq<char>, fuel: nat) -> Option<
    (Seq<(Seq<char>, Seq<char>)>, Seq<char>),
>
    decreases fuel,
{
    if fuel == 0 {
        None
    } else {
        match parse_str(s) {
            Some((k, r1)) => if r1.len() >= 1 && r1[0] == ':' {
                match parse_str(r1.skip(1)) {
                    Some((v, r2)) => if r2.len() >= 1 && r2[0] == ',' {
                        match parse_pairs(r2.skip(1), (fuel - 1) as nat) {
                            Some((m, r3)) => Some((seq![(k, v)] + m, r3)),
                            None => None,
                        }
                    } else {
                        Some((seq![(k, v)], r2))
                    },
                    None => None,
                }
            } else {
                None
            },
            None => None,
        }
    }
}

/// Read an object of string values.
pub open spec fn parse_obj(s: Seq<char>, fuel: nat) -> Option<
    (Seq<(Seq<char>, Seq<char>)>, Seq<char>),
> {
    if s.len() >= 2 && s[0] == '{' && s[1] == '}' {
        Some((Seq::empty(), s.skip(2)))
    } else if s.len() >= 1 && s[0] == '{' {
        match parse_pairs(s.skip(1), fuel) {
            Some((m, r)) => if r.len() >= 1 && r[0] == '}' {
                Some((m, r.skip(1)))
            } else {
                None
            },
            None => None,
        }
    } else {
        None
    }
}

#[verifier::rlimit(80)]
#[verifier::spinoff_prover]
proof fn lemma_pairs_round(m: Seq<(Seq<char>, Seq<char>)>, rest: Seq<char>, fuel: nat)
    requires
        m.len() >= 1,
        fuel >= m.len(),
        rest.len() >= 1,
        rest[0] == '}',
    ensures
        parse_pairs(enc_pairs(m) + rest, fuel) == Some((m, rest)),
    decreases m.len(),
{
    let input = enc_pairs(m) + rest;
    let k = m[0].0;
    let v = m[0].1;
    if m.len() == 1 {
        assert(input =~= enc_str(k) + (seq![':'] + enc_str(v) + rest));
        lemma_str_round(k, seq![':'] + enc_str(v) + rest);
        let r1 = seq![':'] + enc_str(v) + rest;
        assert(r1[0] == ':');
        assert(r1.skip(1) =~= enc_str(v) + rest);
        lemma_str_round(v, rest);
        assert(rest[0] != ',');
        assert(seq![(k, v)] =~= m);
    } else {
        let tail = m.skip(1);
        let tail_enc = enc_pairs(tail) + rest;
        lemma_pairs_round(tail, rest, (fuel - 1) as nat);
        assert(input =~= enc_str(k) + (seq![':'] + enc_str(v) + seq![','] + tail_enc));
        lemma_str_round(k, seq![':'] + enc_str(v) + seq![','] + tail_enc);
        let r1 = seq![':'] + enc_str(v) + seq![','] + tail_enc;
        assert(r1[0] == ':');
        assert(r1.skip(1) =~= enc_str(v) + (seq![','] + tail_enc));
        lemma_str_round(v, seq![','] + tail_enc);
        let r2 = seq![','] + tail_enc;
        assert(r2[0] == ',');
        assert(r2.skip(1) =~= tail_enc);
        assert(seq![(k, v)] + tail =~= m);
    }
}

/// Reading back an encoded object yields its members and the rest.
pub proof fn lemma_obj_round(m: Seq<(Seq<char>, Seq<char>)>, rest: Seq<char>, fuel: nat)
    requires
        fuel >= m.len(),
    ensures
        parse_obj(enc_obj(m) + rest, fuel) == Some((m, rest)),
{
    let input = enc_obj(m) + rest;
    if m.len() == 0 {
        assert(enc_pairs(m) =~= Seq::<char>::empty());
        assert(input =~= seq!['{', '}'] + rest);
        assert(input[0] == '{' && input[1] == '}');
        assert(input.skip(2) =~= rest);
    } else {
        let inner = enc_pairs(m) + (seq!['}'] + rest);
        assert(input =~= seq!['{'] + inner);
        assert(input[0] == '{');
        assert(enc_pairs(m).len() >= 1) by {
            lemma_enc_pairs_len(m);
        }
        assert(enc_pairs(m)[0] == '"') by {
            lemma_enc_pairs_first(m);
        }
        assert(input[1] == '"');
        assert(input.skip(1) =~= inner);
        lemma_pairs_round(m, seq!['}'] + rest, fuel);
        let r = seq!['}'] + rest;
        assert(r[0] == '}');
        assert(r.skip(1) =~= rest);
    }
}

/// A non-empty member list is at least five characters a member.
proof fn lemma_enc_pairs_len(m: Seq<(Seq<char>, Seq<char>)>)
    ensures
        enc_pairs(m).len() >= 5 * m.len() - 4 * (if m.len() == 0 {
            0int
        } else {
            1int
        }),
        m.len() >= 1 ==> enc_pairs(m).len() >= m.len(),
    decreases m.len(),
{
    if m.len() > 1 {
        lemma_enc_pairs_len(m.skip(1));
    }
}

/// A non-empty member list opens with a quote.
proof fn lemma_enc_pairs_first(m: Seq<(Seq<char>, Seq<char>)>)
    requires
        m.len() >= 1,
    ensures
        enc_pairs(m)[0] == '"',
{
    if m.len() == 1 {
        assert(enc_pairs(m) =~= enc_str(m[0].0) + seq![':'] + enc_str(m[0].1));
    }
    assert(enc_str(m[0].0)[0] == '"');
}

/// Members whose values are themselves objects of strings, in entry order.
pub open spec fn enc_pairs2(m: Seq<(Seq<char>, Seq<(Seq<char>, Seq<char>)>)>) -> Seq<
    char,
>
    decreases m.len(),
{
    if m.len() == 0 {
        Seq::empty()
    } else if m.len() == 1 {
        enc_str(m[0].0) + seq![':'] + enc_obj(m[0].1)
    } else {
        enc_str(m[0].0) + seq![':'] + enc_obj(m[0].1) + seq![','] + enc_pairs2(
            m.skip(1),
        )
    }
}

/// An object of object values.
pub open spec fn enc_obj2(m: Seq<(Seq<char>, Seq<(Seq<char>, Seq<char>)>)>) -> Seq<
    char,
> {
    seq!['{'] + enc_pairs2(m) + seq!['}']
}

/// Read one or more members whose values are objects.
pub open spec fn parse_pairs2(s: Seq<char>, fuel: nat) -> Option<
    (Seq<(Seq<char>, Seq<(Seq<char>, Seq<char>)>)>, Seq<char>),
>
    decreases fuel,
{
    if fuel == 0 {
        None
    } else {
        match parse_str(s) {
            Some((k, r1)) => if r1.len() >= 1 && r1[0] == ':' {
                match parse_obj(r1.skip(1), fuel) {
                    Some((v, r2)) => if r2.len() >= 1 && r2[0] == ',' {
                        match parse_pairs2(r2.skip(1), (fuel - 1) as nat) {
                            Some((m, r3)) => Some((seq![(k, v)] + m, r3)),
                            None => None,
                        }
                    } else {
                        Some((seq![(k, v)], r2))
                    },
                    None => None,
                }
            } else {
                None
            },
            None => None,
        }
    }
}

/// Read an object of object values.
pub open spec fn parse_obj2(s: Seq<char>, fuel: nat) -> Option<
    (Seq<(Seq<char>, Seq<(Seq<char>, Seq<char>)>)>, Seq<char>),
> {
    if s.len() >= 2 && s[0] == '{' && s[1] == '}' {
        Some((Seq::empty(), s.skip(2)))
    } else if s.len() >= 1 && s[0] == '{' {
        match parse_pairs2(s.skip(1), fuel) {
            Some((m, r)) => if r.len() >= 1 && r[0] == '}' {
                Some((m, r.skip(1)))
            } else {
                None
            },
            None => None,
        }
    } else {
        None
    }
}

#[verifier::rlimit(80)]
#[verifier::spinoff_prover]
proof fn lemma_pairs2_round(
    m: Seq<(Seq<char>, Seq<(Seq<char>, Seq<char>)>)>,
    rest: Seq<char>,
    fuel: nat,
)
    requires
        m.len() >= 1,
        fuel >= m.len(),
        forall|i: int| 0 <= i < m.len() ==> fuel >= m.len() + #[trigger] m[i].1.len(),
        rest.len() >= 1,
        rest[0] == '}',
    ensures
        parse_pairs2(enc_pairs2(m) + rest, fuel) == Some((m, rest)),
    decreases m.len(),
{
    let input = enc_pairs2(m) + rest;
    let k = m[0].0;
    let v = m[0].1;
    if m.len() == 1 {
        assert(input =~= enc_str(k) + (seq![':'] + enc_obj(v) + rest));
        lemma_str_round(k, seq![':'] + enc_obj(v) + rest);
        let r1 = seq![':'] + enc_obj(v) + rest;
        assert(r1[0] == ':');
        assert(r1.skip(1) =~= enc_obj(v) + rest);
        assert(fuel >= v.len());
        lemma_obj_round(v, rest, fuel);
        assert(rest[0] != ',');
        assert(seq![(k, v)] =~= m);
    } else {
        let tail = m.skip(1);
        let tail_enc = enc_pairs2(tail) + rest;
        assert(forall|i: int|
            0 <= i < tail.len() ==> tail[i] == m[i + 1]);
        lemma_pairs2_round(tail, rest, (fuel - 1) as nat);
        assert(input =~= enc_str(k) + (seq![':'] + enc_obj(v) + seq![','] + tail_enc));
        lemma_str_round(k, seq![':'] + enc_obj(v) + seq![','] + tail_enc);
        let r1 = seq![':'] + enc_obj(v) + seq![','] + tail_enc;
        assert(r1[0] == ':');
        assert(r1.skip(1) =~= enc_obj(v) + (seq![','] + tail_enc));
        assert(fuel >= v.len());
        lemma_obj_round(v, seq![','] + tail_enc, fuel);
        let r2 = seq![','] + tail_enc;
        assert(r2[0] == ',');
        assert(r2.skip(1) =~= tail_enc);
        assert(seq![(k, v)] + tail =~= m);
    }
}

proof fn lemma_enc_pairs2_first(m: Seq<(Seq<char>, Seq<(Seq<char>, Seq<char>)>)>)
    requires
        m.len() >= 1,
    ensures
        enc_pairs2(m).len() >= 1,
        enc_pairs2(m)[0] == '"',
{
    if m.len() == 1 {
        assert(enc_pairs2(m) =~= enc_str(m[0].0) + seq![':'] + enc_obj(m[0].1));
    }
    assert(enc_str(m[0].0)[0] == '"');
}

/// Reading back an encoded object of objects yields its members and the
/// rest.
pub proof fn lemma_obj2_round(
    m: Seq<(Seq<char>, Seq<(Seq<char>, Seq<char>)>)>,
    rest: Seq<char>,
    fuel: nat,
)
    requires
        fuel >= m.len(),
        forall|i: int| 0 <= i < m.len() ==> fuel >= m.len() + #[trigger] m[i].1.len(),
    ensures
        parse_obj2(enc_obj2(m) + rest, fuel) == Some((m, rest)),
{
    let input = enc_obj2(m) + rest;
    if m.len() == 0 {
        assert(enc_pairs2(m) =~= Seq::<char>::empty());
        assert(input =~= seq!['{', '}'] + rest);
        assert(input[0] == '{' && input[1] == '}');
        assert(input.skip(2) =~= rest);
    } else {
        let inner = enc_pairs2(m) + (seq!['}'] + rest);
        assert(input =~= seq!['{'] + inner);
        assert(input[0] == '{');
        lemma_enc_pairs2_first(m);
        assert(input[1] == '"');
        assert(input.skip(1) =~= inner);
        lemma_pairs2_round(m, seq!['}'] + rest, fuel);
        let r = seq!['}'] + rest;
        assert(r[0] == '}');
        assert(r.skip(1) =~= rest);
    }
}

proof fn lemma_esc_snoc(a: Seq<char>, c: char)
    ensures
        esc(a.push(c)) == esc(a) + esc_char(c),
    decreases a.len(),
{
    if a.len() == 0 {
        assert(a.push(c)[0] == c);
        assert(a.push(c).skip(1) =~= Seq::<char>::empty());
        assert(esc(Seq::<char>::empty()) =~= Seq::<char>::empty());
        assert(esc(a.push(c)) =~= esc_char(c));
        assert(esc(a) + esc_char(c) =~= esc_char(c));
    } else {
        assert(a.push(c)[0] == a[0]);
        assert(a.push(c).skip(1) =~= a.skip(1).push(c));
        lemma_esc_snoc(a.skip(1), c);
        assert(esc(a.push(c)) == esc_char(a[0]) + (esc(a.skip(1)) + esc_char(c)));
        assert(esc_char(a[0]) + (esc(a.skip(1)) + esc_char(c)) =~= (esc_char(a[0])
            + esc(a.skip(1))) + esc_char(c));
    }
}

/// The hexadecimal digit character for a value below sixteen.
fn hex_digit_exec(v: u32) -> (c: char)
    requires
        v < 16,
    ensures
        c == hex_digit(v as int),
{
    if v == 0 {
        '0'
    } else if v == 1 {
        '1'
    } else if v == 2 {
        '2'
    } else if v == 3 {
        '3'
    } else if v == 4 {
        '4'
    } else if v == 5 {
        '5'
    } else if v == 6 {
        '6'
    } else if v == 7 {
        '7'
    } else if v == 8 {
        '8'
    } else if v == 9 {
        '9'
    } else if v == 10 {
        'a'
    } else if v == 11 {
        'b'
    } else if v == 12 {
        'c'
    } else if v == 13 {
        'd'
    } else if v == 14 {
        'e'
    } else {
        'f'
    }
}

/// Append the encoded string literal for `s` onto `out`.
fn push_enc_str(out: &mut Vec<char>, s: &Vec<char>)
    ensures
        final(out)@ == old(out)@ + enc_str(s@),
{
    let ghost base = out@;
    out.push('"');
    let n: usize = s.len();
    let mut i: usize = 0;
    proof {
        assert(esc(s@.take(0int)) =~= Seq::<char>::empty());
        assert(out@ =~= base + seq!['"'] + esc(s@.take(0int)));
    }
    while i < n
        invariant
            n == s@.len(),
            0 <= i <= n,
            out@ =~= base + seq!['"'] + esc(s@.take(i as int)),
        decreases n - i,
    {
        let c: char = s[i];
        let u: u32 = c as u32;
        proof {
            assert(s@.take(i + 1) =~= s@.take(i as int).push(c));
            lemma_esc_snoc(s@.take(i as int), c);
        }
        if c == '"' {
            out.push('\\');
            out.push('"');
        } else if c == '\\' {
            out.push('\\');
            out.push('\\');
        } else if u < 32 {
            out.push('\\');
            out.push('u');
            out.push('0');
            out.push('0');
            out.push(hex_digit_exec(u / 16));
            out.push(hex_digit_exec(u % 16));
        } else {
            out.push(c);
        }
        proof {
            assert(out@ =~= base + seq!['"'] + esc(s@.take(i + 1)));
        }
        i += 1;
    }
    out.push('"');
    proof {
        assert(s@.take(n as int) =~= s@);
        assert(out@ =~= base + enc_str(s@));
    }
}

proof fn lemma_enc_pairs_snoc(m: Seq<(Seq<char>, Seq<char>)>, p: (Seq<char>, Seq<char>))
    ensures
        enc_pairs(m.push(p)) == if m.len() == 0 {
            enc_str(p.0) + seq![':'] + enc_str(p.1)
        } else {
            enc_pairs(m) + seq![','] + enc_str(p.0) + seq![':'] + enc_str(p.1)
        },
    decreases m.len(),
{
    let w = m.push(p);
    if m.len() == 0 {
        assert(w.len() == 1);
        assert(w[0] == p);
    } else {
        assert(w[0] == m[0]);
        assert(w.skip(1) =~= m.skip(1).push(p));
        lemma_enc_pairs_snoc(m.skip(1), p);
        if m.len() == 1 {
            assert(m.skip(1).len() == 0);
            assert(enc_pairs(w) == enc_str(m[0].0) + seq![':'] + enc_str(m[0].1) + seq![
                ',',
            ] + (enc_str(p.0) + seq![':'] + enc_str(p.1)));
            assert(enc_pairs(w) =~= enc_pairs(m) + seq![','] + enc_str(p.0) + seq![':']
                + enc_str(p.1));
        } else {
            assert(enc_pairs(w) == enc_str(m[0].0) + seq![':'] + enc_str(m[0].1) + seq![
                ',',
            ] + (enc_pairs(m.skip(1)) + seq![','] + enc_str(p.0) + seq![':'] + enc_str(
                p.1,
            )));
            assert(enc_pairs(w) =~= enc_pairs(m) + seq![','] + enc_str(p.0) + seq![':']
                + enc_str(p.1));
        }
    }
}

/// Append the encoded object for a header map onto `out`.
fn push_enc_obj(out: &mut Vec<char>, m: &Vec<(String, String)>)
    ensures
        final(out)@ == old(out)@ + enc_obj(m.deep_view()),
{
    let ghost base = out@;
    out.push('{');
    let n: usize = m.len();
    proof {
        assert(m.deep_view().len() == n);
        assert(enc_pairs(m.deep_view().take(0int)) =~= Seq::<char>::empty());
        assert(out@ =~= base + seq!['{'] + enc_pairs(m.deep_view().take(0int)));
    }
    let mut i: usize = 0;
    while i < n
        invariant
            n == m@.len(),
            m.deep_view().len() == n,
            0 <= i <= n,
            out@ =~= base + seq!['{'] + enc_pairs(m.deep_view().take(i as int)),
        decreases n - i,
    {
        if i > 0 {
            out.push(',');
        }
        let kc: Vec<char> = chars::chars_of(m[i].0.as_str());
        push_enc_str(out, &kc);
        out.push(':');
        let vc: Vec<char> = chars::chars_of(m[i].1.as_str());
        push_enc_str(out, &vc);
        proof {
            assert(m.deep_view()[i as int] == m@[i as int].deep_view());
            assert(m.deep_view().take(i + 1) =~= m.deep_view().take(i as int).push(
                m.deep_view()[i as int],
            ));
            lemma_enc_pairs_snoc(m.deep_view().take(i as int), m.deep_view()[i as int]);
            assert(out@ =~= base + seq!['{'] + enc_pairs(m.deep_view().take(i + 1)));
        }
        i += 1;
    }
    out.push('}');
    proof {
        assert(m.deep_view().take(n as int) =~= m.deep_view());
        assert(out@ =~= base + enc_obj(m.deep_view()));
    }
}

proof fn lemma_enc_pairs2_snoc(
    m: Seq<(Seq<char>, Seq<(Seq<char>, Seq<char>)>)>,
    p: (Seq<char>, Seq<(Seq<char>, Seq<char>)>),
)
    ensures
        enc_pairs2(m.push(p)) == if m.len() == 0 {
            enc_str(p.0) + seq![':'] + enc_obj(p.1)
        } else {
            enc_pairs2(m) + seq![','] + enc_str(p.0) + seq![':'] + enc_obj(p.1)
        },
    decreases m.len(),
{
    let w = m.push(p);
    if m.len() == 0 {
        assert(w.len() == 1);
        assert(w[0] == p);
    } else {
        assert(w[0] == m[0]);
        assert(w.skip(1) =~= m.skip(1).push(p));
        lemma_enc_pairs2_snoc(m.skip(1), p);
        if m.len() == 1 {
            assert(m.skip(1).len() == 0);
            assert(enc_pairs2(w) == enc_str(m[0].0) + seq![':'] + enc_obj(m[0].1)
                + seq![','] + (enc_str(p.0) + seq![':'] + enc_obj(p.1)));
            assert(enc_pairs2(w) =~= enc_pairs2(m) + seq![','] + enc_str(p.0) + seq![
                ':',
            ] + enc_obj(p.1));
        } else {
            assert(enc_pairs2(w) == enc_str(m[0].0) + seq![':'] + enc_obj(m[0].1)
                + seq![','] + (enc_pairs2(m.skip(1)) + seq![','] + enc_str(p.0) + seq![
                ':',
            ] + enc_obj(p.1)));
            assert(enc_pairs2(w) =~= enc_pairs2(m) + seq![','] + enc_str(p.0) + seq![
                ':',
            ] + enc_obj(p.1));
        }
    }
}

/// The encoded form of a whole header table: one object per domain inside
/// one top-level object.
pub fn encode_table(t: &Vec<(String, Vec<(String, String)>)>) -> (r: Vec<char>)
    ensures
        r@ == enc_obj2(t.deep_view()),
{
    let mut out: Vec<char> = Vec::new();
    out.push('{');
    let n: usize = t.len();
    proof {
        assert(t.deep_view().len() == n);
        assert(enc_pairs2(t.deep_view().take(0int)) =~= Seq::<char>::empty());
        assert(out@ =~= seq!['{'] + enc_pairs2(t.deep_view().take(0int)));
    }
    let mut i: usize = 0;
    while i < n
        invariant
            n == t@.len(),
            t.deep_view().len() == n,
            0 <= i <= n,
            out@ =~= seq!['{'] + enc_pairs2(t.deep_view().take(i as int)),
        decreases n - i,
    {
        if i > 0 {
            out.push(',');
        }
        let kc: Vec<char> = chars::chars_of(t[i].0.as_str());
        push_enc_str(&mut out, &kc);
        out.push(':');
        push_enc_obj(&mut out, &t[i].1);
        proof {
            assert(t.deep_view()[i as int] == t@[i as int].deep_view());
            assert(t@[i as int].deep_view().0 == t@[i as int].0@);
            assert(t@[i as int].deep_view().1 == t@[i as int].1.deep_view());
            assert(t.deep_view().take(i + 1) =~= t.deep_view().take(i as int).push(
                t.deep_view()[i as int],
            ));
            lemma_enc_pairs2_snoc(t.deep_view().take(i as int), t.deep_view()[i as int]);
            assert(out@ =~= seq!['{'] + enc_pairs2(t.deep_view().take(i + 1)));
        }
        i += 1;
    }
    out.push('}');
    proof {
        assert(t.deep_view().take(n as int) =~= t.deep_view());
        assert(out@ =~= enc_obj2(t.deep_view()));
    }
    out
}

/// The value of a lower-case hexadecimal digit character.
fn hex_val_exec(c: char) -> (r: Option<u32>)
    ensures
        match r {
            Some(x) => x < 16 && hex_val(c) == Some(x as int),
            None => hex_val(c) is None,
        },
{
    let u: u32 = c as u32;
    if 48 <= u && u <= 57 {
        Some(u - 48)
    } else if 97 <= u && u <= 102 {
        Some(u - 87)
    } else {
        None
    }
}

/// Read a string body from `pos`, yielding its characters and the position
/// after the closing quote.
fn dec_str_body(v: &Vec<char>, pos: usize) -> (r: Option<(Vec<char>, usize)>)
    requires
        pos <= v@.len(),
    ensures
        match r {
            Some(p) => pos < p.1 <= v@.len() && parse_str_body(v@.skip(pos as int))
                == Some((p.0@, v@.skip(p.1 as int))),
            None => parse_str_body(v@.skip(pos as int)) is None,
        },
    decreases v@.len() - pos,
{
    let n: usize = v.len();
    let ghost s = v@.skip(pos as int);
    proof {
        assert(s.len() == n - pos);
    }
    if pos == n {
        return None;
    }
    let c0: char = v[pos];
    proof {
        assert(s[0] == c0);
    }
    if c0 == '"' {
        proof {
            assert(s.skip(1) =~= v@.skip(pos + 1));
        }
        let empty: Vec<char> = Vec::new();
        proof {
            assert(empty@ =~= Seq::<char>::empty());
        }
        return Some((empty, pos + 1));
    }
    if c0 == '\\' {
        if pos + 1 == n {
            return None;
        }
        let c1: char = v[pos + 1];
        proof {
            assert(s[1] == c1);
        }
        if c1 == '"' || c1 == '\\' {
            proof {
                assert(s.skip(2) =~= v@.skip(pos + 2));
            }
            match dec_str_body(v, pos + 2) {
                Some((mut content, np)) => {
                    let ghost inner = content@;
                    content.insert(0, c1);
                    proof {
                        assert(content@ =~= seq![c1] + inner);
                    }
                    return Some((content, np));
                },
                None => {
                    return None;
                },
            }
        }
        if c1 == 'u' {
            if n - pos < 6 {
                return None;
            }
            let c2: char = v[pos + 2];
            let c3: char = v[pos + 3];
            let h4: Option<u32> = hex_val_exec(v[pos + 4]);
            let h5: Option<u32> = hex_val_exec(v[pos + 5]);
            proof {
                assert(s[2] == v@[pos + 2]);
                assert(s[3] == v@[pos + 3]);
                assert(s[4] == v@[pos + 4]);
                assert(s[5] == v@[pos + 5]);
            }
            match (h4, h5) {
                (Some(x4), Some(x5)) => {
                    if c2 == '0' && c3 == '0' {
                        let val: u32 = 16 * x4 + x5;
                        let ch: char = char_of_code(val);
                        proof {
                            vstd::utf8::char_u32_cast(ch, val);
                            assert(s.skip(6) =~= v@.skip(pos + 6));
                        }
                        match dec_str_body(v, pos + 6) {
                            Some((mut content, np)) => {
                                let ghost inner = content@;
                                content.insert(0, ch);
                                proof {
                                    assert(content@ =~= seq![ch] + inner);
                                }
                                return Some((content, np));
                            },
                            None => {
                                return None;
                            },
                        }
                    }
                    return None;
                },
                _ => {
                    return None;
                },
            }
        }
        return None;
    }
    proof {
        assert(s.skip(1) =~= v@.skip(pos + 1));
    }
    match dec_str_body(v, pos + 1) {
        Some((mut content, np)) => {
            let ghost inner = content@;
            content.insert(0, c0);
            proof {
                assert(content@ =~= seq![c0] + inner);
            }
            Some((content, np))
        },
        None => None,
    }
}

/// Read a string literal from `pos`.
fn dec_str(v: &Vec<char>, pos: usize) -> (r: Option<(Vec<char>, usize)>)
    requires
        pos <= v@.len(),
    ensures
        match r {
            Some(p) => pos < p.1 <= v@.len() && parse_str(v@.skip(pos as int)) == Some(
                (p.0@, v@.skip(p.1 as int)),
            ),
            None => parse_str(v@.skip(pos as int)) is None,
        },
{
    let n: usize = v.len();
    if pos < n {
        let c: char = v[pos];
        proof {
            assert(v@.skip(pos as int)[0] == c);
        }
        if c == '"' {
            proof {
                assert(v@.skip(pos as int).skip(1) =~= v@.skip(pos + 1));
            }
            return dec_str_body(v, pos + 1);
        }
    }
    None
}

/// Read one or more string-valued members from `pos`.
fn dec_pairs(v: &Vec<char>, pos: usize, fuel: usize) -> (r: Option<
    (Vec<(String, String)>, usize),
>)
    requires
        pos <= v@.len(),
    ensures
        match r {
            Some(p) => p.1 <= v@.len() && parse_pairs(v@.skip(pos as int), fuel as nat)
                == Some((p.0.deep_view(), v@.skip(p.1 as int))),
            None => parse_pairs(v@.skip(pos as int), fuel as nat) is None,
        },
    decreases fuel,
{
    if fuel == 0 {
        return None;
    }
    let n: usize = v.len();
    let (k, p1): (Vec<char>, usize) = match dec_str(v, pos) {
        Some(p) => p,
        None => {
            return None;
        },
    };
    if !(p1 < n) {
        proof {
            assert(v@.skip(p1 as int).len() == 0);
        }
        return None;
    }
    let colon: char = v[p1];
    proof {
        assert(v@.skip(p1 as int)[0] == colon);
    }
    if colon != ':' {
        return None;
    }
    proof {
        assert(v@.skip(p1 as int).skip(1) =~= v@.skip(p1 + 1));
    }
    let (val, p2): (Vec<char>, usize) = match dec_str(v, p1 + 1) {
        Some(p) => p,
        None => {
            return None;
        },
    };
    let key_s: String = chars::string_of(&k);
    let val_s: String = chars::string_of(&val);
    if p2 < n {
        let sep: char = v[p2];
        proof {
            assert(v@.skip(p2 as int)[0] == sep);
        }
        if sep == ',' {
            proof {
                assert(v@.skip(p2 as int).skip(1) =~= v@.skip(p2 + 1));
            }
            match dec_pairs(v, p2 + 1, fuel - 1) {
                Some((mut m, p3)) => {
                    let ghost inner = m.deep_view();
                    m.insert(0, (key_s, val_s));
                    proof {
                        assert(m.deep_view() =~= seq![(k@, val@)] + inner);
                    }
                    return Some((m, p3));
                },
                None => {
                    return None;
                },
            }
        }
    }
    let mut out: Vec<(String, String)> = Vec::new();
    out.push((key_s, val_s));
    proof {
        assert(out.deep_view() =~= seq![(k@, val@)]);
        if p2 == n {
            assert(v@.skip(p2 as int).len() == 0);
        }
    }
    Some((out, p2))
}

/// Read an object of string values from `pos`.
fn dec_obj(v: &Vec<char>, pos: usize, fuel: usize) -> (r: Option<
    (Vec<(String, String)>, usize),
>)
    requires
        pos <= v@.len(),
    ensures
        match r {
            Some(p) => p.1 <= v@.len() && parse_obj(v@.skip(pos as int), fuel as nat)
                == Some((p.0.deep_view(), v@.skip(p.1 as int))),
            None => parse_obj(v@.skip(pos as int), fuel as nat) is None,
        },
{
    let n: usize = v.len();
    let ghost s = v@.skip(pos as int);
    proof {
        assert(s.len() == n - pos);
    }
    if !(pos < n) {
        return None;
    }
    let c0: char = v[pos];
    proof {
        assert(s[0] == c0);
    }
    if c0 != '{' {
        return None;
    }
    if pos + 1 < n {
        let c1: char = v[pos + 1];
        proof {
            assert(s[1] == c1);
        }
        if c1 == '}' {
            proof {
                assert(s.skip(2) =~= v@.skip(pos + 2));
            }
            let empty: Vec<(String, String)> = Vec::new();
            proof {
                assert(empty.deep_view() =~= Seq::<(Seq<char>, Seq<char>)>::empty());
            }
            return Some((empty, pos + 2));
        }
    }
    proof {
        assert(s.skip(1) =~= v@.skip(pos + 1));
    }
    match dec_pairs(v, pos + 1, fuel) {
        Some((m, p)) => {
            if p < n {
                let c: char = v[p];
                proof {
                    assert(v@.skip(p as int)[0] == c);
                }
                if c == '}' {
                    proof {
                        assert(v@.skip(p as int).skip(1) =~= v@.skip(p + 1));
                    }
                    return Some((m, p + 1));
                }
                return None;
            }
            proof {
                assert(v@.skip(p as int).len() == 0);
            }
            None
        },
        None => None,
    }
}

/// Read one or more object-valued members from `pos`.
fn dec_pairs2(v: &Vec<char>, pos: usize, fuel: usize) -> (r: Option<
    (Vec<(String, Vec<(String, String)>)>, usize),
>)
    requires
        pos <= v@.len(),
    ensures
        match r {
            Some(p) => p.1 <= v@.len() && parse_pairs2(v@.skip(pos as int), fuel as nat)
                == Some((p.0.deep_view(), v@.skip(p.1 as int))),
            None => parse_pairs2(v@.skip(pos as int), fuel as nat) is None,
        },
    decreases fuel,
{
    if fuel == 0 {
        return None;
    }
    let n: usize = v.len();
    let (k, p1): (Vec<char>, usize) = match dec_str(v, pos) {
        Some(p) => p,
        None => {
            return None;
        },
    };
    if !(p1 < n) {
        proof {
            assert(v@.skip(p1 as int).len() == 0);
        }
        return None;
    }
    let colon: char = v[p1];
    proof {
        assert(v@.skip(p1 as int)[0] == colon);
    }
    if colon != ':' {
        return None;
    }
    proof {
        assert(v@.skip(p1 as int).skip(1) =~= v@.skip(p1 + 1));
    }
    let (val, p2): (Vec<(String, String)>, usize) = match dec_obj(v, p1 + 1, fuel) {
        Some(p) => p,
        None => {
            return None;
        },
    };
    let key_s: String = chars::string_of(&k);
    if p2 < n {
        let sep: char = v[p2];
        proof {
            assert(v@.skip(p2 as int)[0] == sep);
        }
        if sep == ',' {
            proof {
                assert(v@.skip(p2 as int).skip(1) =~= v@.skip(p2 + 1));
            }
            match dec_pairs2(v, p2 + 1, fuel - 1) {
                Some((mut m, p3)) => {
                    let ghost inner = m.deep_view();
                    let ghost valv = val.deep_view();
                    m.insert(0, (key_s, val));
                    proof {
                        assert(m.deep_view() =~= seq![(k@, valv)] + inner);
                    }
                    return Some((m, p3));
                },
                None => {
                    return None;
                },
            }
        }
    }
    let ghost valv = val.deep_view();
    let mut out: Vec<(String, Vec<(String, String)>)> = Vec::new();
    out.push((key_s, val));
    proof {
        assert(out.deep_view() =~= seq![(k@, valv)]);
        if p2 == n {
            assert(v@.skip(p2 as int).len() == 0);
        }
    }
    Some((out, p2))
}

/// Read an object of object values from `pos`.
fn dec_obj2(v: &Vec<char>, pos: usize, fuel: usize) -> (r: Option<
    (Vec<(String, Vec<(String, String)>)>, usize),
>)
    requires
        pos <= v@.len(),
    ensures
        match r {
            Some(p) => p.1 <= v@.len() && parse_obj2(v@.skip(pos as int), fuel as nat)
                == Some((p.0.deep_view(), v@.skip(p.1 as int))),
            None => parse_obj2(v@.skip(pos as int), fuel as nat) is None,
        },
{
    let n: usize = v.len();
    let ghost s = v@.skip(pos as int);
    proof {
        assert(s.len() == n - pos);
    }
    if !(pos < n) {
        return None;
    }
    let c0: char = v[pos];
    proof {
        assert(s[0] == c0);
    }
    if c0 != '{' {
        return None;
    }
    if pos + 1 < n {
        let c1: char = v[pos + 1];
        proof {
            assert(s[1] == c1);
        }
        if c1 == '}' {
            proof {
                assert(s.skip(2) =~= v@.skip(pos + 2));
            }
            let empty: Vec<(String, Vec<(String, String)>)> = Vec::new();
            proof {
                assert(empty.deep_view() =~= Seq::<
                    (Seq<char>, Seq<(Seq<char>, Seq<char>)>),
                >::empty());
            }
            return Some((empty, pos + 2));
        }
    }
    proof {
        assert(s.skip(1) =~= v@.skip(pos + 1));
    }
    match dec_pairs2(v, pos + 1, fuel) {
        Some((m, p)) => {
            if p < n {
                let c: char = v[p];
                proof {
                    assert(v@.skip(p as int)[0] == c);
                }
                if c == '}' {
                    proof {
                        assert(v@.skip(p as int).skip(1) =~= v@.skip(p + 1));
                    }
                    return Some((m, p + 1));
                }
                return None;
            }
            proof {
                assert(v@.skip(p as int).len() == 0);
            }
            None
        },
        None => None,
    }
}

/// No name occurs twice among a decoded table's members.
pub open spec fn keys_distinct<T>(t: Seq<(Seq<char>, T)>) -> bool {
    forall|i: int, j: int| 0 <= i < j < t.len() ==> t[i].0 != t[j].0
}

/// No group number occurs twice among a decoded table's members.
pub open spec fn nums_distinct<T>(t: Seq<(u32, T)>) -> bool {
    forall|i: int, j: int| 0 <= i < j < t.len() ==> t[i].0 != t[j].0
}

/// What decoding a whole table file yields: the members of one strict,
/// canonical object of objects filling the whole input.
pub open spec fn spec_decode_table(s: Seq<char>) -> Option<
    Seq<(Seq<char>, Seq<(Seq<char>, Seq<char>)>)>,
> {
    match parse_obj2(s, (s.len() + 1) as nat) {
        Some((m, rest)) => if rest.len() == 0 {
            Some(m)
        } else {
            None
        },
        None => None,
    }
}

/// Decode a whole header-table file.
pub fn decode_table(v: &Vec<char>) -> (r: Option<Vec<(String, Vec<(String, String)>)>>)
    requires
        v@.len() < usize::MAX,
    ensures
        match r {
            Some(t) => spec_decode_table(v@) == Some(t.deep_view()),
            None => spec_decode_table(v@) is None,
        },
{
    let fuel: usize = v.len() + 1;
    proof {
        assert(v@.skip(0int) =~= v@);
    }
    match dec_obj2(v, 0, fuel) {
        Some((t, np)) => {
            if np == v.len() {
                proof {
                    assert(v@.skip(np as int).len() == 0);
                }
                Some(t)
            } else {
                proof {
                    assert(v@.skip(np as int).len() > 0);
                }
                None
            }
        },
        None => None,
    }
}

proof fn lemma_enc_pairs2_len(m: Seq<(Seq<char>, Seq<(Seq<char>, Seq<char>)>)>)
    ensures
        enc_pairs2(m).len() >= m.len(),
        forall|i: int|
            0 <= i < m.len() ==> enc_pairs2(m).len() >= m.len() + #[trigger] m[i].1.len(),
    decreases m.len(),
{
    if m.len() == 0 {
    } else {
        let v = m[0].1;
        lemma_enc_pairs_len(v);
        assert(enc_obj(v).len() >= v.len() + 2);
        if m.len() == 1 {
            assert(enc_pairs2(m).len() >= 3 + enc_obj(v).len());
        } else {
            lemma_enc_pairs2_len(m.skip(1));
            assert(forall|i: int|
                1 <= i < m.len() ==> m.skip(1)[i - 1] == m[i]);
            assert(enc_pairs2(m).len() >= 4 + enc_obj(v).len() + enc_pairs2(
                m.skip(1),
            ).len());
        }
    }
}

/// Saving then loading a header table reproduces it: decoding the encoded
/// form of any table yields that same table, entry for entry.
pub proof fn lemma_table_round_trip(m: Seq<(Seq<char>, Seq<(Seq<char>, Seq<char>)>)>)
    ensures
        spec_decode_table(enc_obj2(m)) == Some(m),
{
    let s = enc_obj2(m);
    let fuel = (s.len() + 1) as nat;
    lemma_enc_pairs2_len(m);
    assert(s.len() >= enc_pairs2(m).len() + 2);
    assert(fuel >= m.len());
    assert(forall|i: int| 0 <= i < m.len() ==> fuel >= m.len() + #[trigger] m[i].1.len());
    assert(s + Seq::<char>::empty() =~= s);
    lemma_obj2_round(m, Seq::empty(), fuel);
}

/// The decimal form of a number.
pub open spec fn dec_spec(n: int) -> Seq<char>
    decreases n,
{
    if n < 10 {
        seq![hex_digit(n)]
    } else {
        dec_spec(n / 10) + seq![hex_digit(n % 10)]
    }
}

proof fn lemma_dec_spec_props(n: int)
    requires
        n >= 0,
    ensures
        chars::all_digits(dec_spec(n)),
        dec_spec(n).len() >= 1,
        dec_spec(n).len() > 1 ==> dec_spec(n)[0] != '0',
        dec_val(dec_spec(n)) == n,
    decreases n,
{
    if n < 10 {
        assert(dec_spec(n) =~= seq![hex_digit(n)]);
        assert(dec_spec(n).drop_last() =~= Seq::<char>::empty());
        assert(dec_val(Seq::<char>::empty()) == 0);
    } else {
        lemma_dec_spec_props(n / 10);
        let d = dec_spec(n / 10);
        assert(dec_spec(n) =~= d.push(hex_digit(n % 10)));
        chars::lemma_dec_val_snoc(d, hex_digit(n % 10));
        assert(dec_spec(n)[0] == d[0]);
        if d.len() == 1 {
            assert(d.drop_last() =~= Seq::<char>::empty());
            assert(dec_val(Seq::<char>::empty()) == 0);
            assert(dec_val(d) == chars::digit_val(d[0]));
            assert(chars::digit_val(d[0]) == n / 10 >= 1);
            assert(d[0] as u32 != 48);
            assert('0' as u32 == 48);
        }
    }
}

/// The decimal digits of a number.
pub fn dec_chars(n: u32) -> (r: Vec<char>)
    ensures
        r@ == dec_spec(n as int),
    decreases n,
{
    if n < 10 {
        let mut v: Vec<char> = Vec::new();
        v.push(hex_digit_exec(n));
        proof {
            assert(v@ =~= seq![hex_digit(n as int)]);
        }
        v
    } else {
        let mut v: Vec<char> = dec_chars(n / 10);
        v.push(hex_digit_exec(n % 10));
        proof {
            assert(v@ =~= dec_spec((n / 10) as int).push(hex_digit((n % 10) as int)));
            assert(dec_spec(n as int) =~= dec_spec((n / 10) as int).push(
                hex_digit((n % 10) as int),
            ));
        }
        v
    }
}

/// The longest digit run opening `s`, and what follows it.
pub open spec fn take_digits(s: Seq<char>) -> (Seq<char>, Seq<char>)
    decreases s.len(),
{
    if s.len() > 0 && is_digit(s[0]) {
        let sub = take_digits(s.skip(1));
        (seq![s[0]] + sub.0, sub.1)
    } else {
        (Seq::empty(), s)
    }
}

/// A canonical decimal: digits only, non-empty, no leading zero, fitting
/// thirty-two bits.
pub open spec fn canon_num(d: Seq<char>) -> Option<int> {
    if chars::all_digits(d) && d.len() >= 1 && (d.len() == 1 || d[0] != '0') && dec_val(
        d,
    ) <= u32::MAX {
        Some(dec_val(d))
    } else {
        None
    }
}

/// Read a canonical decimal number and what follows it.
pub open spec fn parse_num(s: Seq<char>) -> Option<(int, Seq<char>)> {
    let taken = take_digits(s);
    match canon_num(taken.0) {
        Some(v) => Some((v, taken.1)),
        None => None,
    }
}

proof fn lemma_take_digits(d: Seq<char>, rest: Seq<char>)
    requires
        chars::all_digits(d),
        rest.len() == 0 || !is_digit(rest[0]),
    ensures
        take_digits(d + rest) == (d, rest),
    decreases d.len(),
{
    let input = d + rest;
    if d.len() == 0 {
        assert(input =~= rest);
        if rest.len() > 0 {
            assert(!is_digit(input[0]));
        }
        assert(take_digits(input).0 =~= d);
    } else {
        assert(input[0] == d[0]);
        assert(is_digit(d[0]));
        assert(input.skip(1) =~= d.skip(1) + rest);
        assert(chars::all_digits(d.skip(1)));
        lemma_take_digits(d.skip(1), rest);
        assert(seq![d[0]] + d.skip(1) =~= d);
    }
}

proof fn lemma_num_round(n: int, rest: Seq<char>)
    requires
        0 <= n <= u32::MAX,
        rest.len() == 0 || !is_digit(rest[0]),
    ensures
        parse_num(dec_spec(n) + rest) == Some((n, rest)),
{
    lemma_dec_spec_props(n);
    lemma_take_digits(dec_spec(n), rest);
}

/// An array's elements: decimal numbers separated by commas.
pub open spec fn enc_elems(a: Seq<u32>) -> Seq<char>
    decreases a.len(),
{
    if a.len() == 0 {
        Seq::empty()
    } else if a.len() == 1 {
        dec_spec(a[0] as int)
    } else {
        dec_spec(a[0] as int) + seq![','] + enc_elems(a.skip(1))
    }
}

/// An array of numbers.
pub open spec fn enc_arr(a: Seq<u32>) -> Seq<char> {
    seq!['['] + enc_elems(a) + seq![']']
}

/// Read one or more array elements.
pub open spec fn parse_elems(s: Seq<char>, fuel: nat) -> Option<(Seq<u32>, Seq<char>)>
    decreases fuel,
{
    if fuel == 0 {
        None
    } else {
        match parse_num(s) {
            Some((n, r1)) => if r1.len() >= 1 && r1[0] == ',' {
                match parse_elems(r1.skip(1), (fuel - 1) as nat) {
                    Some((a, r2)) => Some((seq![n as u32] + a, r2)),
                    None => None,
                }
            } else {
                Some((seq![n as u32], r1))
            },
            None => None,
        }
    }
}

/// Read an array of numbers.
pub open spec fn parse_arr(s: Seq<char>, fuel: nat) -> Option<(Seq<u32>, Seq<char>)> {
    if s.len() >= 2 && s[0] == '[' && s[1] == ']' {
        Some((Seq::empty(), s.skip(2)))
    } else if s.len() >= 1 && s[0] == '[' {
        match parse_elems(s.skip(1), fuel) {
            Some((a, r)) => if r.len() >= 1 && r[0] == ']' {
                Some((a, r.skip(1)))
            } else {
                None
            },
            None => None,
        }
    } else {
        None
    }
}

#[verifier::rlimit(80)]
#[verifier::spinoff_prover]
proof fn lemma_elems_round(a: Seq<u32>, rest: Seq<char>, fuel: nat)
    requires
        a.len() >= 1,
        fuel >= a.len(),
        rest.len() >= 1,
        rest[0] == ']',
    ensures
        parse_elems(enc_elems(a) + rest, fuel) == Some((a, rest)),
    decreases a.len(),
{
    let input = enc_elems(a) + rest;
    let n = a[0] as int;
    if a.len() == 1 {
        assert(input =~= dec_spec(n) + rest);
        lemma_num_round(n, rest);
        assert(rest[0] != ',');
        assert(seq![a[0]] =~= a);
    } else {
        let tail = a.skip(1);
        let tail_enc = enc_elems(tail) + rest;
        lemma_elems_round(tail, rest, (fuel - 1) as nat);
        assert(input =~= dec_spec(n) + (seq![','] + tail_enc));
        lemma_num_round(n, seq![','] + tail_enc);
        let r1 = seq![','] + tail_enc;
        assert(r1[0] == ',');
        assert(r1.skip(1) =~= tail_enc);
        assert(seq![a[0]] + tail =~= a);
    }
}

proof fn lemma_enc_elems_len(a: Seq<u32>)
    ensures
        a.len() >= 1 ==> enc_elems(a).len() >= a.len(),
        enc_elems(a).len() >= 0,
    decreases a.len(),
{
    if a.len() > 1 {
        lemma_enc_elems_len(a.skip(1));
        lemma_dec_spec_props(a[0] as int);
    } else if a.len() == 1 {
        lemma_dec_spec_props(a[0] as int);
    }
}

proof fn lemma_enc_elems_first(a: Seq<u32>)
    requires
        a.len() >= 1,
    ensures
        enc_elems(a).len() >= 1,
        enc_elems(a)[0] != ']',
{
    lemma_dec_spec_props(a[0] as int);
    let d = dec_spec(a[0] as int);
    if a.len() == 1 {
        assert(enc_elems(a) == d);
    }
    assert(enc_elems(a)[0] == d[0]);
    assert(is_digit(d[0]));
    assert(']' as u32 == 93);
}

/// Reading back an encoded array yields its elements and the rest.
proof fn lemma_arr_round(a: Seq<u32>, rest: Seq<char>, fuel: nat)
    requires
        fuel >= a.len(),
    ensures
        parse_arr(enc_arr(a) + rest, fuel) == Some((a, rest)),
{
    let input = enc_arr(a) + rest;
    if a.len() == 0 {
        assert(enc_elems(a) =~= Seq::<char>::empty());
        assert(input =~= seq!['[', ']'] + rest);
        assert(input[0] == '[' && input[1] == ']');
        assert(input.skip(2) =~= rest);
    } else {
        let inner = enc_elems(a) + (seq![']'] + rest);
        assert(input =~= seq!['['] + inner);
        assert(input[0] == '[');
        lemma_enc_elems_first(a);
        assert(input[1] == enc_elems(a)[0]);
        assert(input[1] != ']');
        assert(input.skip(1) =~= inner);
        lemma_elems_round(a, seq![']'] + rest, fuel);
        let r = seq![']'] + rest;
        assert(r[0] == ']');
        assert(r.skip(1) =~= rest);
    }
}

/// Members keyed by quoted decimal numbers, with object values.
pub open spec fn enc_npairs(m: Seq<(u32, Seq<(Seq<char>, Seq<char>)>)>) -> Seq<char>
    decreases m.len(),
{
    if m.len() == 0 {
        Seq::empty()
    } else if m.len() == 1 {
        enc_str(dec_spec(m[0].0 as int)) + seq![':'] + enc_obj(m[0].1)
    } else {
        enc_str(dec_spec(m[0].0 as int)) + seq![':'] + enc_obj(m[0].1) + seq![',']
            + enc_npairs(m.skip(1))
    }
}

/// An object keyed by quoted decimal numbers.
pub open spec fn enc_nobj(m: Seq<(u32, Seq<(Seq<char>, Seq<char>)>)>) -> Seq<char> {
    seq!['{'] + enc_npairs(m) + seq!['}']
}

/// Read one or more number-keyed members with object values.
pub open spec fn parse_npairs(s: Seq<char>, fuel: nat) -> Option<
    (Seq<(u32, Seq<(Seq<char>, Seq<char>)>)>, Seq<char>),
>
    decreases fuel,
{
    if fuel == 0 {
        None
    } else {
        match parse_str(s) {
            Some((d, r1)) => match canon_num(d) {
                Some(k) => if r1.len() >= 1 && r1[0] == ':' {
                    match parse_obj(r1.skip(1), fuel) {
                        Some((v, r2)) => if r2.len() >= 1 && r2[0] == ',' {
                            match parse_npairs(r2.skip(1), (fuel - 1) as nat) {
                                Some((m, r3)) => Some((seq![(k as u32, v)] + m, r3)),
                                None => None,
                            }
                        } else {
                            Some((seq![(k as u32, v)], r2))
                        },
                        None => None,
                    }
                } else {
                    None
                },
                None => None,
            },
            None => None,
        }
    }
}

/// Read an object keyed by quoted decimal numbers.
pub open spec fn parse_nobj(s: Seq<char>, fuel: nat) -> Option<
    (Seq<(u32, Seq<(Seq<char>, Seq<char>)>)>, Seq<char>),
> {
    if s.len() >= 2 && s[0] == '{' && s[1] == '}' {
        Some((Seq::empty(), s.skip(2)))
    } else if s.len() >= 1 && s[0] == '{' {
        match parse_npairs(s.skip(1), fuel) {
            Some((m, r)) => if r.len() >= 1 && r[0] == '}' {
                Some((m, r.skip(1)))
            } else {
                None
            },
            None => None,
        }
    } else {
        None
    }
}

#[verifier::rlimit(80)]
#[verifier::spinoff_prover]
proof fn lemma_npairs_round(
    m: Seq<(u32, Seq<(Seq<char>, Seq<char>)>)>,
    rest: Seq<char>,
    fuel: nat,
)
    requires
        m.len() >= 1,
        fuel >= m.len(),
        forall|i: int| 0 <= i < m.len() ==> fuel >= m.len() + #[trigger] m[i].1.len(),
        rest.len() >= 1,
        rest[0] == '}',
    ensures
        parse_npairs(enc_npairs(m) + rest, fuel) == Some((m, rest)),
    decreases m.len(),
{
    let input = enc_npairs(m) + rest;
    let kd = dec_spec(m[0].0 as int);
    let v = m[0].1;
    lemma_dec_spec_props(m[0].0 as int);
    assert(canon_num(kd) == Some(m[0].0 as int));
    if m.len() == 1 {
        assert(input =~= enc_str(kd) + (seq![':'] + enc_obj(v) + rest));
        lemma_str_round(kd, seq![':'] + enc_obj(v) + rest);
        let r1 = seq![':'] + enc_obj(v) + rest;
        assert(r1[0] == ':');
        assert(r1.skip(1) =~= enc_obj(v) + rest);
        assert(fuel >= v.len());
        lemma_obj_round(v, rest, fuel);
        assert(rest[0] != ',');
        assert(seq![(m[0].0, v)] =~= m);
    } else {
        let tail = m.skip(1);
        let tail_enc = enc_npairs(tail) + rest;
        assert(forall|i: int| 0 <= i < tail.len() ==> tail[i] == m[i + 1]);
        lemma_npairs_round(tail, rest, (fuel - 1) as nat);
        assert(input =~= enc_str(kd) + (seq![':'] + enc_obj(v) + seq![','] + tail_enc));
        lemma_str_round(kd, seq![':'] + enc_obj(v) + seq![','] + tail_enc);
        let r1 = seq![':'] + enc_obj(v) + seq![','] + tail_enc;
        assert(r1[0] == ':');
        assert(r1.skip(1) =~= enc_obj(v) + (seq![','] + tail_enc));
        assert(fuel >= v.len());
        lemma_obj_round(v, seq![','] + tail_enc, fuel);
        let r2 = seq![','] + tail_enc;
        assert(r2[0] == ',');
        assert(r2.skip(1) =~= tail_enc);
        assert(seq![(m[0].0, v)] + tail =~= m);
    }
}

proof fn lemma_enc_npairs_first(m: Seq<(u32, Seq<(Seq<char>, Seq<char>)>)>)
    requires
        m.len() >= 1,
    ensures
        enc_npairs(m).len() >= 1,
        enc_npairs(m)[0] == '"',
{
    if m.len() == 1 {
        assert(enc_npairs(m) =~= enc_str(dec_spec(m[0].0 as int)) + seq![':'] + enc_obj(
            m[0].1,
        ));
    }
    assert(enc_str(dec_spec(m[0].0 as int))[0] == '"');
}

/// Reading back a number-keyed object yields its members and the rest.
proof fn lemma_nobj_round(
    m: Seq<(u32, Seq<(Seq<char>, Seq<char>)>)>,
    rest: Seq<char>,
    fuel: nat,
)
    requires
        fuel >= m.len(),
        forall|i: int| 0 <= i < m.len() ==> fuel >= m.len() + #[trigger] m[i].1.len(),
    ensures
        parse_nobj(enc_nobj(m) + rest, fuel) == Some((m, rest)),
{
    let input = enc_nobj(m) + rest;
    if m.len() == 0 {
        assert(enc_npairs(m) =~= Seq::<char>::empty());
        assert(input =~= seq!['{', '}'] + rest);
        assert(input[0] == '{' && input[1] == '}');
        assert(input.skip(2) =~= rest);
    } else {
        let inner = enc_npairs(m) + (seq!['}'] + rest);
        assert(input =~= seq!['{'] + inner);
        assert(input[0] == '{');
        lemma_enc_npairs_first(m);
        assert(input[1] == '"');
        assert(input.skip(1) =~= inner);
        lemma_npairs_round(m, seq!['}'] + rest, fuel);
        let r = seq!['}'] + rest;
        assert(r[0] == '}');
        assert(r.skip(1) =~= rest);
    }
}

/// Members with array values: the site-to-groups associations.
pub open spec fn enc_spairs(m: Seq<(Seq<char>, Seq<u32>)>) -> Seq<char>
    decreases m.len(),
{
    if m.len() == 0 {
        Seq::empty()
    } else if m.len() == 1 {
        enc_str(m[0].0) + seq![':'] + enc_arr(m[0].1)
    } else {
        enc_str(m[0].0) + seq![':'] + enc_arr(m[0].1) + seq![','] + enc_spairs(
            m.skip(1),
        )
    }
}

/// An object of array values.
pub open spec fn enc_sobj(m: Seq<(Seq<char>, Seq<u32>)>) -> Seq<char> {
    seq!['{'] + enc_spairs(m) + seq!['}']
}

/// Read one or more members with array values.
pub open spec fn parse_spairs(s: Seq<char>, fuel: nat) -> Option<
    (Seq<(Seq<char>, Seq<u32>)>, Seq<char>),
>
    decreases fuel,
{
    if fuel == 0 {
        None
    } else {
        match parse_str(s) {
            Some((k, r1)) => if r1.len() >= 1 && r1[0] == ':' {
                match parse_arr(r1.skip(1), fuel) {
                    Some((v, r2)) => if r2.len() >= 1 && r2[0] == ',' {
                        match parse_spairs(r2.skip(1), (fuel - 1) as nat) {
                            Some((m, r3)) => Some((seq![(k, v)] + m, r3)),
                            None => None,
                        }
                    } else {
                        Some((seq![(k, v)], r2))
                    },
                    None => None,
                }
            } else {
                None
            },
            None => None,
        }
    }
}

/// Read an object of array values.
pub open spec fn parse_sobj(s: Seq<char>, fuel: nat) -> Option<
    (Seq<(Seq<char>, Seq<u32>)>, Seq<char>),
> {
    if s.len() >= 2 && s[0] == '{' && s[1] == '}' {
        Some((Seq::empty(), s.skip(2)))
    } else if s.len() >= 1 && s[0] == '{' {
        match parse_spairs(s.skip(1), fuel) {
            Some((m, r)) => if r.len() >= 1 && r[0] == '}' {
                Some((m, r.skip(1)))
            } else {
                None
            },
            None => None,
        }
    } else {
        None
    }
}

#[verifier::rlimit(80)]
#[verifier::spinoff_prover]
proof fn lemma_spairs_round(m: Seq<(Seq<char>, Seq<u32>)>, rest: Seq<char>, fuel: nat)
    requires
        m.len() >= 1,
        fuel >= m.len(),
        forall|i: int| 0 <= i < m.len() ==> fuel >= m.len() + #[trigger] m[i].1.len(),
        rest.len() >= 1,
        rest[0] == '}',
    ensures
        parse_spairs(enc_spairs(m) + rest, fuel) == Some((m, rest)),
    decreases m.len(),
{
    let input = enc_spairs(m) + rest;
    let k = m[0].0;
    let v = m[0].1;
    if m.len() == 1 {
        assert(input =~= enc_str(k) + (seq![':'] + enc_arr(v) + rest));
        lemma_str_round(k, seq![':'] + enc_arr(v) + rest);
        let r1 = seq![':'] + enc_arr(v) + rest;
        assert(r1[0] == ':');
        assert(r1.skip(1) =~= enc_arr(v) + rest);
        assert(fuel >= v.len());
        lemma_arr_round(v, rest, fuel);
        assert(rest[0] != ',');
        assert(seq![(k, v)] =~= m);
    } else {
        let tail = m.skip(1);
        let tail_enc = enc_spairs(tail) + rest;
        assert(forall|i: int| 0 <= i < tail.len() ==> tail[i] == m[i + 1]);
        lemma_spairs_round(tail, rest, (fuel - 1) as nat);
        assert(input =~= enc_str(k) + (seq![':'] + enc_arr(v) + seq![','] + tail_enc));
        lemma_str_round(k, seq![':'] + enc_arr(v) + seq![','] + tail_enc);
        let r1 = seq![':'] + enc_arr(v) + seq![','] + tail_enc;
        assert(r1[0] == ':');
        assert(r1.skip(1) =~= enc_arr(v) + (seq![','] + tail_enc));
        assert(fuel >= v.len());
        lemma_arr_round(v, seq![','] + tail_enc, fuel);
        let r2 = seq![','] + tail_enc;
        assert(r2[0] == ',');
        assert(r2.skip(1) =~= tail_enc);
        assert(seq![(k, v)] + tail =~= m);
    }
}

proof fn lemma_enc_spairs_first(m: Seq<(Seq<char>, Seq<u32>)>)
    requires
        m.len() >= 1,
    ensures
        enc_spairs(m).len() >= 1,
        enc_spairs(m)[0] == '"',
{
    if m.len() == 1 {
        assert(enc_spairs(m) =~= enc_str(m[0].0) + seq![':'] + enc_arr(m[0].1));
    }
    assert(enc_str(m[0].0)[0] == '"');
}

proof fn lemma_enc_elems_snoc(a: Seq<u32>, x: u32)
    ensures
        enc_elems(a.push(x)) == if a.len() == 0 {
            dec_spec(x as int)
        } else {
            enc_elems(a) + seq![','] + dec_spec(x as int)
        },
    decreases a.len(),
{
    let w = a.push(x);
    if a.len() == 0 {
        assert(w.len() == 1);
        assert(w[0] == x);
    } else {
        assert(w[0] == a[0]);
        assert(w.skip(1) =~= a.skip(1).push(x));
        lemma_enc_elems_snoc(a.skip(1), x);
        if a.len() == 1 {
            assert(a.skip(1).len() == 0);
            assert(enc_elems(w) == dec_spec(a[0] as int) + seq![','] + dec_spec(
                x as int,
            ));
            assert(enc_elems(w) =~= enc_elems(a) + seq![','] + dec_spec(x as int));
        } else {
            assert(enc_elems(w) == dec_spec(a[0] as int) + seq![','] + (enc_elems(
                a.skip(1),
            ) + seq![','] + dec_spec(x as int)));
            assert(enc_elems(w) =~= enc_elems(a) + seq![','] + dec_spec(x as int));
        }
    }
}

/// Append the encoded array for a group list onto `out`.
fn push_enc_arr(out: &mut Vec<char>, a: &Vec<u32>)
    ensures
        final(out)@ == old(out)@ + enc_arr(a@),
{
    let ghost base = out@;
    out.push('[');
    let n: usize = a.len();
    proof {
        assert(enc_elems(a@.take(0int)) =~= Seq::<char>::empty());
        assert(out@ =~= base + seq!['['] + enc_elems(a@.take(0int)));
    }
    let mut i: usize = 0;
    while i < n
        invariant
            n == a@.len(),
            0 <= i <= n,
            out@ =~= base + seq!['['] + enc_elems(a@.take(i as int)),
        decreases n - i,
    {
        if i > 0 {
            out.push(',');
        }
        let d: Vec<char> = dec_chars(a[i]);
        let dn: usize = d.len();
        let mut j: usize = 0;
        let ghost mid = out@;
        while j < dn
            invariant
                dn == d@.len(),
                0 <= j <= dn,
                out@ =~= mid + d@.take(j as int),
            decreases dn - j,
        {
            out.push(d[j]);
            j += 1;
        }
        proof {
            assert(d@.take(dn as int) =~= d@);
            assert(a@.take(i + 1) =~= a@.take(i as int).push(a@[i as int]));
            lemma_enc_elems_snoc(a@.take(i as int), a@[i as int]);
            assert(out@ =~= base + seq!['['] + enc_elems(a@.take(i + 1)));
        }
        i += 1;
    }
    out.push(']');
    proof {
        assert(a@.take(n as int) =~= a@);
        assert(out@ =~= base + enc_arr(a@));
    }
}

/// Reading back an object of arrays yields its members and the rest.
proof fn lemma_sobj_round(m: Seq<(Seq<char>, Seq<u32>)>, rest: Seq<char>, fuel: nat)
    requires
        fuel >= m.len(),
        forall|i: int| 0 <= i < m.len() ==> fuel >= m.len() + #[trigger] m[i].1.len(),
    ensures
        parse_sobj(enc_sobj(m) + rest, fuel) == Some((m, rest)),
{
    let input = enc_sobj(m) + rest;
    if m.len() == 0 {
        assert(enc_spairs(m) =~= Seq::<char>::empty());
        assert(input =~= seq!['{', '}'] + rest);
        assert(input[0] == '{' && input[1] == '}');
        assert(input.skip(2) =~= rest);
    } else {
        let inner = enc_spairs(m) + (seq!['}'] + rest);
        assert(input =~= seq!['{'] + inner);
        assert(input[0] == '{');
        lemma_enc_spairs_first(m);
        assert(input[1] == '"');
        assert(input.skip(1) =~= inner);
        lemma_spairs_round(m, seq!['}'] + rest, fuel);
        let r = seq!['}'] + rest;
        assert(r[0] == '}');
        assert(r.skip(1) =~= rest);
    }
}

proof fn lemma_enc_npairs_snoc(
    m: Seq<(u32, Seq<(Seq<char>, Seq<char>)>)>,
    p: (u32, Seq<(Seq<char>, Seq<char>)>),
)
    ensures
        enc_npairs(m.push(p)) == if m.len() == 0 {
            enc_str(dec_spec(p.0 as int)) + seq![':'] + enc_obj(p.1)
        } else {
            enc_npairs(m) + seq![','] + enc_str(dec_spec(p.0 as int)) + seq![':']
                + enc_obj(p.1)
        },
    decreases m.len(),
{
    let w = m.push(p);
    if m.len() == 0 {
        assert(w.len() == 1);
        assert(w[0] == p);
    } else {
        assert(w[0] == m[0]);
        assert(w.skip(1) =~= m.skip(1).push(p));
        lemma_enc_npairs_snoc(m.skip(1), p);
        if m.len() == 1 {
            assert(m.skip(1).len() == 0);
            assert(enc_npairs(w) =~= enc_npairs(m) + seq![','] + enc_str(dec_spec(
                p.0 as int,
            )) + seq![':'] + enc_obj(p.1));
        } else {
            assert(enc_npairs(w) =~= enc_npairs(m) + seq![','] + enc_str(dec_spec(
                p.0 as int,
            )) + seq![':'] + enc_obj(p.1));
        }
    }
}

proof fn lemma_enc_spairs_snoc(m: Seq<(Seq<char>, Seq<u32>)>, p: (Seq<char>, Seq<u32>))
    ensures
        enc_spairs(m.push(p)) == if m.len() == 0 {
            enc_str(p.0) + seq![':'] + enc_arr(p.1)
        } else {
            enc_spairs(m) + seq![','] + enc_str(p.0) + seq![':'] + enc_arr(p.1)
        },
    decreases m.len(),
{
    let w = m.push(p);
    if m.len() == 0 {
        assert(w.len() == 1);
        assert(w[0] == p);
    } else {
        assert(w[0] == m[0]);
        assert(w.skip(1) =~= m.skip(1).push(p));
        lemma_enc_spairs_snoc(m.skip(1), p);
        if m.len() == 1 {
            assert(m.skip(1).len() == 0);
            assert(enc_spairs(w) =~= enc_spairs(m) + seq![','] + enc_str(p.0) + seq![
                ':',
            ] + enc_arr(p.1));
        } else {
            assert(enc_spairs(w) =~= enc_spairs(m) + seq![','] + enc_str(p.0) + seq![
                ':',
            ] + enc_arr(p.1));
        }
    }
}

/// The downloader state on the wire: its group headers and its site
/// associations, as one object of two fixed members.
pub open spec fn enc_down(
    h: Seq<(u32, Seq<(Seq<char>, Seq<char>)>)>,
    st: Seq<(Seq<char>, Seq<u32>)>,
) -> Seq<char> {
    seq!['{'] + enc_str("headers"@) + seq![':'] + enc_nobj(h) + seq![','] + enc_str(
        "sites"@,
    ) + seq![':'] + enc_sobj(st) + seq!['}']
}

/// Read a downloader state object.
pub open spec fn parse_down(s: Seq<char>, fuel: nat) -> Option<
    ((Seq<(u32, Seq<(Seq<char>, Seq<char>)>)>, Seq<(Seq<char>, Seq<u32>)>), Seq<char>),
> {
    if s.len() >= 1 && s[0] == '{' {
        match parse_str(s.skip(1)) {
            Some((k1, r1)) => if k1 == "headers"@ && r1.len() >= 1 && r1[0] == ':' {
                match parse_nobj(r1.skip(1), fuel) {
                    Some((h, r2)) => if r2.len() >= 1 && r2[0] == ',' {
                        match parse_str(r2.skip(1)) {
                            Some((k2, r3)) => if k2 == "sites"@ && r3.len() >= 1 && r3[0]
                                == ':' {
                                match parse_sobj(r3.skip(1), fuel) {
                                    Some((st, r4)) => if r4.len() >= 1 && r4[0] == '}' {
                                        Some(((h, st), r4.skip(1)))
                                    } else {
                                        None
                                    },
                                    None => None,
                                }
                            } else {
                                None
                            },
                            None => None,
                        }
                    } else {
                        None
                    },
                    None => None,
                }
            } else {
                None
            },
            None => None,
        }
    } else {
        None
    }
}

/// What decoding a downloader state file yields.
pub open spec fn spec_decode_down(s: Seq<char>) -> Option<
    (Seq<(u32, Seq<(Seq<char>, Seq<char>)>)>, Seq<(Seq<char>, Seq<u32>)>),
> {
    match parse_down(s, (s.len() + 1) as nat) {
        Some((m, rest)) => if rest.len() == 0 {
            Some(m)
        } else {
            None
        },
        None => None,
    }
}

proof fn lemma_enc_npairs_len(m: Seq<(u32, Seq<(Seq<char>, Seq<char>)>)>)
    ensures
        enc_npairs(m).len() >= m.len(),
        forall|i: int|
            0 <= i < m.len() ==> enc_npairs(m).len() >= m.len() + #[trigger] m[i].1.len(),
    decreases m.len(),
{
    if m.len() == 0 {
    } else {
        let v = m[0].1;
        lemma_enc_pairs_len(v);
        assert(enc_obj(v).len() >= v.len() + 2);
        if m.len() == 1 {
            assert(enc_npairs(m).len() >= 3 + enc_obj(v).len());
        } else {
            lemma_enc_npairs_len(m.skip(1));
            assert(forall|i: int| 1 <= i < m.len() ==> m.skip(1)[i - 1] == m[i]);
            assert(enc_npairs(m).len() >= 4 + enc_obj(v).len() + enc_npairs(
                m.skip(1),
            ).len());
        }
    }
}

proof fn lemma_enc_spairs_len(m: Seq<(Seq<char>, Seq<u32>)>)
    ensures
        enc_spairs(m).len() >= m.len(),
        forall|i: int|
            0 <= i < m.len() ==> enc_spairs(m).len() >= m.len() + #[trigger] m[i].1.len(),
    decreases m.len(),
{
    if m.len() == 0 {
    } else {
        let v = m[0].1;
        lemma_enc_elems_len(v);
        assert(enc_arr(v).len() >= v.len() + 2);
        if m.len() == 1 {
            assert(enc_spairs(m).len() >= 3 + enc_arr(v).len());
        } else {
            lemma_enc_spairs_len(m.skip(1));
            assert(forall|i: int| 1 <= i < m.len() ==> m.skip(1)[i - 1] == m[i]);
            assert(enc_spairs(m).len() >= 4 + enc_arr(v).len() + enc_spairs(
                m.skip(1),
            ).len());
        }
    }
}

/// Saving then loading a downloader state reproduces it: decoding the
/// encoded form of any group-header table and site table yields both back,
/// entry for entry.
pub proof fn lemma_down_round_trip(
    h: Seq<(u32, Seq<(Seq<char>, Seq<char>)>)>,
    st: Seq<(Seq<char>, Seq<u32>)>,
)
    ensures
        spec_decode_down(enc_down(h, st)) == Some((h, st)),
{
    let s = enc_down(h, st);
    let fuel = (s.len() + 1) as nat;
    lemma_enc_npairs_len(h);
    lemma_enc_spairs_len(st);
    assert(s.len() >= enc_nobj(h).len() + enc_sobj(st).len()) by {
        assert(enc_str("headers"@).len() >= 2);
        assert(enc_str("sites"@).len() >= 2);
    }
    assert(fuel >= h.len());
    assert(forall|i: int| 0 <= i < h.len() ==> fuel >= h.len() + #[trigger] h[i].1.len());
    assert(fuel >= st.len());
    assert(forall|i: int|
        0 <= i < st.len() ==> fuel >= st.len() + #[trigger] st[i].1.len());
    assert(s[0] == '{');
    let after_h = seq![':'] + enc_nobj(h) + seq![','] + enc_str("sites"@) + seq![':']
        + enc_sobj(st) + seq!['}'];
    assert(s.skip(1) =~= enc_str("headers"@) + after_h);
    lemma_str_round("headers"@, after_h);
    assert(after_h[0] == ':');
    let nobj_rest = seq![','] + enc_str("sites"@) + seq![':'] + enc_sobj(st) + seq![
        '}',
    ];
    assert(after_h.skip(1) =~= enc_nobj(h) + nobj_rest);
    lemma_nobj_round(h, nobj_rest, fuel);
    assert(nobj_rest[0] == ',');
    let after_s = seq![':'] + enc_sobj(st) + seq!['}'];
    assert(nobj_rest.skip(1) =~= enc_str("sites"@) + after_s);
    lemma_str_round("sites"@, after_s);
    assert(after_s[0] == ':');
    let sobj_rest = seq!['}'];
    assert(after_s.skip(1) =~= enc_sobj(st) + sobj_rest);
    lemma_sobj_round(st, sobj_rest, fuel);
    assert(sobj_rest[0] == '}');
    assert(sobj_rest.skip(1) =~= Seq::<char>::empty());
}

/// The encoded form of a whole downloader state.
pub fn encode_down_state(
    h: &Vec<(u32, Vec<(String, String)>)>,
    st: &Vec<(String, Vec<u32>)>,
) -> (r: Vec<char>)
    ensures
        r@ == enc_down(h.deep_view(), st.deep_view()),
{
    let mut out: Vec<char> = Vec::new();
    out.push('{');
    let hk: Vec<char> = chars::chars_of("headers");
    push_enc_str(&mut out, &hk);
    out.push(':');
    // the group-header table
    out.push('{');
    let hn: usize = h.len();
    let ghost hbase = out@;
    proof {
        assert(h.deep_view().len() == hn);
        assert(enc_npairs(h.deep_view().take(0int)) =~= Seq::<char>::empty());
        assert(out@ =~= hbase + enc_npairs(h.deep_view().take(0int)));
    }
    let mut i: usize = 0;
    while i < hn
        invariant
            hn == h@.len(),
            h.deep_view().len() == hn,
            0 <= i <= hn,
            out@ =~= hbase + enc_npairs(h.deep_view().take(i as int)),
        decreases hn - i,
    {
        if i > 0 {
            out.push(',');
        }
        let kd: Vec<char> = dec_chars(h[i].0);
        push_enc_str(&mut out, &kd);
        out.push(':');
        push_enc_obj(&mut out, &h[i].1);
        proof {
            assert(h.deep_view()[i as int] == h@[i as int].deep_view());
            assert(h@[i as int].deep_view().0 == h@[i as int].0);
            assert(h@[i as int].deep_view().1 == h@[i as int].1.deep_view());
            assert(h.deep_view().take(i + 1) =~= h.deep_view().take(i as int).push(
                h.deep_view()[i as int],
            ));
            lemma_enc_npairs_snoc(h.deep_view().take(i as int), h.deep_view()[i as int]);
            assert(out@ =~= hbase + enc_npairs(h.deep_view().take(i + 1)));
        }
        i += 1;
    }
    out.push('}');
    out.push(',');
    proof {
        assert(h.deep_view().take(hn as int) =~= h.deep_view());
    }
    let sk: Vec<char> = chars::chars_of("sites");
    push_enc_str(&mut out, &sk);
    out.push(':');
    // the site-association table
    out.push('{');
    let sn: usize = st.len();
    let ghost sbase = out@;
    proof {
        assert(st.deep_view().len() == sn);
        assert(enc_spairs(st.deep_view().take(0int)) =~= Seq::<char>::empty());
        assert(out@ =~= sbase + enc_spairs(st.deep_view().take(0int)));
    }
    let mut j: usize = 0;
    while j < sn
        invariant
            sn == st@.len(),
            st.deep_view().len() == sn,
            0 <= j <= sn,
            out@ =~= sbase + enc_spairs(st.deep_view().take(j as int)),
        decreases sn - j,
    {
        if j > 0 {
            out.push(',');
        }
        let kc: Vec<char> = chars::chars_of(st[j].0.as_str());
        push_enc_str(&mut out, &kc);
        out.push(':');
        push_enc_arr(&mut out, &st[j].1);
        proof {
            assert(st.deep_view()[j as int] == st@[j as int].deep_view());
            assert(st@[j as int].deep_view().0 == st@[j as int].0@);
            assert(st@[j as int].deep_view().1 == st@[j as int].1@);
            assert(st.deep_view().take(j + 1) =~= st.deep_view().take(j as int).push(
                st.deep_view()[j as int],
            ));
            lemma_enc_spairs_snoc(st.deep_view().take(j as int), st.deep_view()[j as int]);
            assert(out@ =~= sbase + enc_spairs(st.deep_view().take(j + 1)));
        }
        j += 1;
    }
    out.push('}');
    out.push('}');
    proof {
        assert(st.deep_view().take(sn as int) =~= st.deep_view());
        assert(out@ =~= enc_down(h.deep_view(), st.deep_view()));
    }
    out
}

/// A canonical decimal's value, if the characters form one.
fn canon_num_exec(d: &Vec<char>) -> (r: Option<u32>)
    ensures
        match r {
            Some(v) => canon_num(d@) == Some(v as int),
            None => canon_num(d@) is None,
        },
{
    let n: usize = d.len();
    if n == 0 {
        return None;
    }
    let mut i: usize = 0;
    while i < n
        invariant
            n == d@.len(),
            0 <= i <= n,
            forall|k: int| 0 <= k < i ==> is_digit(d@[k]),
        decreases n - i,
    {
        let u: u32 = d[i] as u32;
        if !(48 <= u && u <= 57) {
            assert(!is_digit(d@[i as int]));
            return None;
        }
        i += 1;
    }
    if n > 1 {
        let first: u32 = d[0] as u32;
        if first == 48 {
            assert(d@[0] == '0') by {
                vstd::utf8::char_u32_cast(d@[0], 48);
                assert('0' as u32 == 48);
                vstd::utf8::char_u32_cast('0', 48);
            }
            return None;
        }
        assert(d@[0] != '0');
    }
    let mut acc: u64 = 0;
    let mut over: bool = false;
    let mut j: usize = 0;
    while j < n
        invariant
            n == d@.len(),
            chars::all_digits(d@),
            0 <= j <= n,
            !over ==> acc as int == dec_val(d@.take(j as int)) && acc <= u32::MAX,
            over ==> dec_val(d@.take(j as int)) > u32::MAX,
        decreases n - j,
    {
        let c: char = d[j];
        let dv: u64 = (c as u32 - 48) as u64;
        proof {
            assert(d@.take(j + 1) =~= d@.take(j as int).push(d@[j as int]));
            chars::lemma_dec_val_snoc(d@.take(j as int), d@[j as int]);
            assert(forall|k: int|
                0 <= k < d@.take(j as int).len() ==> is_digit(d@.take(j as int)[k]));
            if over {
                chars::lemma_dec_val_nonneg(d@.take(j as int));
            }
        }
        if !over {
            let next: u64 = acc * 10 + dv;
            if next > 0xFFFF_FFFF {
                over = true;
            } else {
                acc = next;
            }
        }
        j += 1;
    }
    proof {
        assert(d@.take(n as int) =~= d@);
    }
    if over {
        None
    } else {
        Some(acc as u32)
    }
}

proof fn lemma_take_digits_split(s: Seq<char>, k: int)
    requires
        0 <= k <= s.len(),
        forall|i: int| 0 <= i < k ==> is_digit(s[i]),
        k == s.len() || !is_digit(s[k]),
    ensures
        take_digits(s) == (s.take(k), s.skip(k)),
    decreases k,
{
    if k == 0 {
        assert(s.take(0int) =~= Seq::<char>::empty());
        assert(s.skip(0int) =~= s);
    } else {
        assert(is_digit(s[0]));
        lemma_take_digits_split(s.skip(1), k - 1);
        assert(s.skip(1).take(k - 1) =~= s.take(k).skip(1));
        assert(s.skip(1).skip(k - 1) =~= s.skip(k));
        assert(seq![s[0]] + s.take(k).skip(1) =~= s.take(k));
    }
}

/// Read a canonical decimal number from `pos`.
fn dec_num(v: &Vec<char>, pos: usize) -> (r: Option<(u32, usize)>)
    requires
        pos <= v@.len(),
    ensures
        match r {
            Some(p) => p.1 <= v@.len() && parse_num(v@.skip(pos as int)) == Some(
                (p.0 as int, v@.skip(p.1 as int)),
            ),
            None => parse_num(v@.skip(pos as int)) is None,
        },
{
    let n: usize = v.len();
    let ghost s = v@.skip(pos as int);
    let mut j: usize = pos;
    let mut stop: bool = false;
    while !stop
        invariant
            n == v@.len(),
            pos <= j <= n,
            forall|k: int| 0 <= k < j - pos ==> is_digit(v@.skip(pos as int)[k]),
            stop ==> j == n || !is_digit(v@.skip(pos as int)[j - pos]),
        decreases n - j + (if stop {
            0int
        } else {
            1int
        }),
    {
        if j < n {
            let u: u32 = v[j] as u32;
            proof {
                assert(v@.skip(pos as int)[j - pos] == v@[j as int]);
            }
            if 48 <= u && u <= 57 {
                j += 1;
            } else {
                stop = true;
            }
        } else {
            stop = true;
        }
    }
    proof {
        assert(s.len() == n - pos);
        lemma_take_digits_split(s, j - pos);
        assert(s.take(j - pos) =~= v@.subrange(pos as int, j as int));
        assert(s.skip(j - pos) =~= v@.skip(j as int));
    }
    let mut digits: Vec<char> = Vec::new();
    let mut t: usize = pos;
    while t < j
        invariant
            pos <= t <= j <= n,
            n == v@.len(),
            digits@ =~= v@.subrange(pos as int, t as int),
        decreases j - t,
    {
        digits.push(v[t]);
        t += 1;
    }
    proof {
        assert(digits@ =~= v@.subrange(pos as int, j as int));
    }
    match canon_num_exec(&digits) {
        Some(x) => Some((x, j)),
        None => None,
    }
}

/// Read one or more array elements from `pos`.
fn dec_elems(v: &Vec<char>, pos: usize, fuel: usize) -> (r: Option<(Vec<u32>, usize)>)
    requires
        pos <= v@.len(),
    ensures
        match r {
            Some(p) => p.1 <= v@.len() && parse_elems(v@.skip(pos as int), fuel as nat)
                == Some((p.0@, v@.skip(p.1 as int))),
            None => parse_elems(v@.skip(pos as int), fuel as nat) is None,
        },
    decreases fuel,
{
    if fuel == 0 {
        return None;
    }
    let n: usize = v.len();
    let (x, p1): (u32, usize) = match dec_num(v, pos) {
        Some(p) => p,
        None => {
            return None;
        },
    };
    if p1 < n {
        let sep: char = v[p1];
        proof {
            assert(v@.skip(p1 as int)[0] == sep);
        }
        if sep == ',' {
            proof {
                assert(v@.skip(p1 as int).skip(1) =~= v@.skip(p1 + 1));
            }
            match dec_elems(v, p1 + 1, fuel - 1) {
                Some((mut a, p2)) => {
                    let ghost inner = a@;
                    a.insert(0, x);
                    proof {
                        assert(a@ =~= seq![x] + inner);
                    }
                    return Some((a, p2));
                },
                None => {
                    return None;
                },
            }
        }
    }
    let mut out: Vec<u32> = Vec::new();
    out.push(x);
    proof {
        assert(out@ =~= seq![x]);
        if p1 == n {
            assert(v@.skip(p1 as int).len() == 0);
        }
    }
    Some((out, p1))
}

/// Read an array of numbers from `pos`.
fn dec_arr(v: &Vec<char>, pos: usize, fuel: usize) -> (r: Option<(Vec<u32>, usize)>)
    requires
        pos <= v@.len(),
    ensures
        match r {
            Some(p) => p.1 <= v@.len() && parse_arr(v@.skip(pos as int), fuel as nat)
                == Some((p.0@, v@.skip(p.1 as int))),
            None => parse_arr(v@.skip(pos as int), fuel as nat) is None,
        },
{
    let n: usize = v.len();
    let ghost s = v@.skip(pos as int);
    proof {
        assert(s.len() == n - pos);
    }
    if !(pos < n) {
        return None;
    }
    let c0: char = v[pos];
    proof {
        assert(s[0] == c0);
    }
    if c0 != '[' {
        return None;
    }
    if pos + 1 < n {
        let c1: char = v[pos + 1];
        proof {
            assert(s[1] == c1);
        }
        if c1 == ']' {
            proof {
                assert(s.skip(2) =~= v@.skip(pos + 2));
            }
            let empty: Vec<u32> = Vec::new();
            proof {
                assert(empty@ =~= Seq::<u32>::empty());
            }
            return Some((empty, pos + 2));
        }
    }
    proof {
        assert(s.skip(1) =~= v@.skip(pos + 1));
    }
    match dec_elems(v, pos + 1, fuel) {
        Some((a, p)) => {
            if p < n {
                let c: char = v[p];
                proof {
                    assert(v@.skip(p as int)[0] == c);
                }
                if c == ']' {
                    proof {
                        assert(v@.skip(p as int).skip(1) =~= v@.skip(p + 1));
                    }
                    return Some((a, p + 1));
                }
                return None;
            }
            proof {
                assert(v@.skip(p as int).len() == 0);
            }
            None
        },
        None => None,
    }
}

/// Read one or more number-keyed members with object values from `pos`.
fn dec_npairs(v: &Vec<char>, pos: usize, fuel: usize) -> (r: Option<
    (Vec<(u32, Vec<(String, String)>)>, usize),
>)
    requires
        pos <= v@.len(),
    ensures
        match r {
            Some(p) => p.1 <= v@.len() && parse_npairs(v@.skip(pos as int), fuel as nat)
                == Some((p.0.deep_view(), v@.skip(p.1 as int))),
            None => parse_npairs(v@.skip(pos as int), fuel as nat) is None,
        },
    decreases fuel,
{
    if fuel == 0 {
        return None;
    }
    let n: usize = v.len();
    let (kd, p1): (Vec<char>, usize) = match dec_str(v, pos) {
        Some(p) => p,
        None => {
            return None;
        },
    };
    let key: u32 = match canon_num_exec(&kd) {
        Some(k) => k,
        None => {
            return None;
        },
    };
    if !(p1 < n) {
        proof {
            assert(v@.skip(p1 as int).len() == 0);
        }
        return None;
    }
    let colon: char = v[p1];
    proof {
        assert(v@.skip(p1 as int)[0] == colon);
    }
    if colon != ':' {
        return None;
    }
    proof {
        assert(v@.skip(p1 as int).skip(1) =~= v@.skip(p1 + 1));
    }
    let (val, p2): (Vec<(String, String)>, usize) = match dec_obj(v, p1 + 1, fuel) {
        Some(p) => p,
        None => {
            return None;
        },
    };
    if p2 < n {
        let sep: char = v[p2];
        proof {
            assert(v@.skip(p2 as int)[0] == sep);
        }
        if sep == ',' {
            proof {
                assert(v@.skip(p2 as int).skip(1) =~= v@.skip(p2 + 1));
            }
            match dec_npairs(v, p2 + 1, fuel - 1) {
                Some((mut m, p3)) => {
                    let ghost inner = m.deep_view();
                    let ghost valv = val.deep_view();
                    m.insert(0, (key, val));
                    proof {
                        assert(m.deep_view() =~= seq![(key, valv)] + inner);
                    }
                    return Some((m, p3));
                },
                None => {
                    return None;
                },
            }
        }
    }
    let ghost valv = val.deep_view();
    let mut out: Vec<(u32, Vec<(String, String)>)> = Vec::new();
    out.push((key, val));
    proof {
        assert(out.deep_view() =~= seq![(key, valv)]);
        if p2 == n {
            assert(v@.skip(p2 as int).len() == 0);
        }
    }
    Some((out, p2))
}

/// Read an object keyed by quoted decimal numbers from `pos`.
fn dec_nobj(v: &Vec<char>, pos: usize, fuel: usize) -> (r: Option<
    (Vec<(u32, Vec<(String, String)>)>, usize),
>)
    requires
        pos <= v@.len(),
    ensures
        match r {
            Some(p) => p.1 <= v@.len() && parse_nobj(v@.skip(pos as int), fuel as nat)
                == Some((p.0.deep_view(), v@.skip(p.1 as int))),
            None => parse_nobj(v@.skip(pos as int), fuel as nat) is None,
        },
{
    let n: usize = v.len();
    let ghost s = v@.skip(pos as int);
    proof {
        assert(s.len() == n - pos);
    }
    if !(pos < n) {
        return None;
    }
    let c0: char = v[pos];
    proof {
        assert(s[0] == c0);
    }
    if c0 != '{' {
        return None;
    }
    if pos + 1 < n {
        let c1: char = v[pos + 1];
        proof {
            assert(s[1] == c1);
        }
        if c1 == '}' {
            proof {
                assert(s.skip(2) =~= v@.skip(pos + 2));
            }
            let empty: Vec<(u32, Vec<(String, String)>)> = Vec::new();
            proof {
                assert(empty.deep_view() =~= Seq::<
                    (u32, Seq<(Seq<char>, Seq<char>)>),
                >::empty());
            }
            return Some((empty, pos + 2));
        }
    }
    proof {
        assert(s.skip(1) =~= v@.skip(pos + 1));
    }
    match dec_npairs(v, pos + 1, fuel) {
        Some((m, p)) => {
            if p < n {
                let c: char = v[p];
                proof {
                    assert(v@.skip(p as int)[0] == c);
                }
                if c == '}' {
                    proof {
                        assert(v@.skip(p as int).skip(1) =~= v@.skip(p + 1));
                    }
                    return Some((m, p + 1));
                }
                return None;
            }
            proof {
                assert(v@.skip(p as int).len() == 0);
            }
            None
        },
        None => None,
    }
}

/// Read one or more members with array values from `pos`.
fn dec_spairs(v: &Vec<char>, pos: usize, fuel: usize) -> (r: Option<
    (Vec<(String, Vec<u32>)>, usize),
>)
    requires
        pos <= v@.len(),
    ensures
        match r {
            Some(p) => p.1 <= v@.len() && parse_spairs(v@.skip(pos as int), fuel as nat)
                == Some((p.0.deep_view(), v@.skip(p.1 as int))),
            None => parse_spairs(v@.skip(pos as int), fuel as nat) is None,
        },
    decreases fuel,
{
    if fuel == 0 {
        return None;
    }
    let n: usize = v.len();
    let (k, p1): (Vec<char>, usize) = match dec_str(v, pos) {
        Some(p) => p,
        None => {
            return None;
        },
    };
    if !(p1 < n) {
        proof {
            assert(v@.skip(p1 as int).len() == 0);
        }
        return None;
    }
    let colon: char = v[p1];
    proof {
        assert(v@.skip(p1 as int)[0] == colon);
    }
    if colon != ':' {
        return None;
    }
    proof {
        assert(v@.skip(p1 as int).skip(1) =~= v@.skip(p1 + 1));
    }
    let (val, p2): (Vec<u32>, usize) = match dec_arr(v, p1 + 1, fuel) {
        Some(p) => p,
        None => {
            return None;
        },
    };
    let key_s: String = chars::string_of(&k);
    if p2 < n {
        let sep: char = v[p2];
        proof {
            assert(v@.skip(p2 as int)[0] == sep);
        }
        if sep == ',' {
            proof {
                assert(v@.skip(p2 as int).skip(1) =~= v@.skip(p2 + 1));
            }
            match dec_spairs(v, p2 + 1, fuel - 1) {
                Some((mut m, p3)) => {
                    let ghost inner = m.deep_view();
                    let ghost valv = val@;
                    proof {
                        assert(val.deep_view() =~= val@);
                    }
                    m.insert(0, (key_s, val));
                    proof {
                        assert(m.deep_view() =~= seq![(k@, valv)] + inner);
                    }
                    return Some((m, p3));
                },
                None => {
                    return None;
                },
            }
        }
    }
    let ghost valv = val@;
    proof {
        assert(val.deep_view() =~= val@);
    }
    let mut out: Vec<(String, Vec<u32>)> = Vec::new();
    out.push((key_s, val));
    proof {
        assert(out.deep_view() =~= seq![(k@, valv)]);
        if p2 == n {
            assert(v@.skip(p2 as int).len() == 0);
        }
    }
    Some((out, p2))
}

/// Read an object of array values from `pos`.
fn dec_sobj(v: &Vec<char>, pos: usize, fuel: usize) -> (r: Option<
    (Vec<(String, Vec<u32>)>, usize),
>)
    requires
        pos <= v@.len(),
    ensures
        match r {
            Some(p) => p.1 <= v@.len() && parse_sobj(v@.skip(pos as int), fuel as nat)
                == Some((p.0.deep_view(), v@.skip(p.1 as int))),
            None => parse_sobj(v@.skip(pos as int), fuel as nat) is None,
        },
{
    let n: usize = v.len();
    let ghost s = v@.skip(pos as int);
    proof {
        assert(s.len() == n - pos);
    }
    if !(pos < n) {
        return None;
    }
    let c0: char = v[pos];
    proof {
        assert(s[0] == c0);
    }
    if c0 != '{' {
        return None;
    }
    if pos + 1 < n {
        let c1: char = v[pos + 1];
        proof {
            assert(s[1] == c1);
        }
        if c1 == '}' {
            proof {
                assert(s.skip(2) =~= v@.skip(pos + 2));
            }
            let empty: Vec<(String, Vec<u32>)> = Vec::new();
            proof {
                assert(empty.deep_view() =~= Seq::<(Seq<char>, Seq<u32>)>::empty());
            }
            return Some((empty, pos + 2));
        }
    }
    proof {
        assert(s.skip(1) =~= v@.skip(pos + 1));
    }
    match dec_spairs(v, pos + 1, fuel) {
        Some((m, p)) => {
            if p < n {
                let c: char = v[p];
                proof {
                    assert(v@.skip(p as int)[0] == c);
                }
                if c == '}' {
                    proof {
                        assert(v@.skip(p as int).skip(1) =~= v@.skip(p + 1));
                    }
                    return Some((m, p + 1));
                }
                return None;
            }
            proof {
                assert(v@.skip(p as int).len() == 0);
            }
            None
        },
        None => None,
    }
}

/// Decode a whole downloader state file.
pub fn decode_down_state(v: &Vec<char>) -> (r: Option<
    (Vec<(u32, Vec<(String, String)>)>, Vec<(String, Vec<u32>)>),
>)
    requires
        v@.len() < usize::MAX,
    ensures
        match r {
            Some(t) => spec_decode_down(v@) == Some((t.0.deep_view(), t.1.deep_view())),
            None => spec_decode_down(v@) is None,
        },
{
    let fuel: usize = v.len() + 1;
    let n: usize = v.len();
    let ghost s = v@;
    proof {
        assert(v@.skip(0int) =~= v@);
    }
    if n == 0 {
        return None;
    }
    let c0: char = v[0];
    if c0 != '{' {
        return None;
    }
    proof {
        assert(v@.skip(0int).skip(1) =~= v@.skip(1int));
    }
    let (k1, p1): (Vec<char>, usize) = match dec_str(v, 1) {
        Some(p) => p,
        None => {
            return None;
        },
    };
    let hk: Vec<char> = chars::chars_of("headers");
    if !chars::chars_eq(&k1, &hk) {
        return None;
    }
    if !(p1 < n) {
        proof {
            assert(v@.skip(p1 as int).len() == 0);
        }
        return None;
    }
    let c: char = v[p1];
    proof {
        assert(v@.skip(p1 as int)[0] == c);
    }
    if c != ':' {
        return None;
    }
    proof {
        assert(v@.skip(p1 as int).skip(1) =~= v@.skip(p1 + 1));
    }
    let (h, p2): (Vec<(u32, Vec<(String, String)>)>, usize) = match dec_nobj(
        v,
        p1 + 1,
        fuel,
    ) {
        Some(p) => p,
        None => {
            return None;
        },
    };
    if !(p2 < n) {
        proof {
            assert(v@.skip(p2 as int).len() == 0);
        }
        return None;
    }
    let c2: char = v[p2];
    proof {
        assert(v@.skip(p2 as int)[0] == c2);
    }
    if c2 != ',' {
        return None;
    }
    proof {
        assert(v@.skip(p2 as int).skip(1) =~= v@.skip(p2 + 1));
    }
    let (k2, p3): (Vec<char>, usize) = match dec_str(v, p2 + 1) {
        Some(p) => p,
        None => {
            return None;
        },
    };
    let sk: Vec<char> = chars::chars_of("sites");
    if !chars::chars_eq(&k2, &sk) {
        return None;
    }
    if !(p3 < n) {
        proof {
            assert(v@.skip(p3 as int).len() == 0);
        }
        return None;
    }
    let c3: char = v[p3];
    proof {
        assert(v@.skip(p3 as int)[0] == c3);
    }
    if c3 != ':' {
        return None;
    }
    proof {
        assert(v@.skip(p3 as int).skip(1) =~= v@.skip(p3 + 1));
    }
    let (st, p4): (Vec<(String, Vec<u32>)>, usize) = match dec_sobj(v, p3 + 1, fuel) {
        Some(p) => p,
        None => {
            return None;
        },
    };
    if !(p4 < n) {
        proof {
            assert(v@.skip(p4 as int).len() == 0);
        }
        return None;
    }
    let c4: char = v[p4];
    proof {
        assert(v@.skip(p4 as int)[0] == c4);
    }
    if c4 != '}' {
        return None;
    }
    proof {
        assert(v@.skip(p4 as int).skip(1) =~= v@.skip(p4 + 1));
    }
    if p4 + 1 == n {
        proof {
            assert(v@.skip(p4 + 1).len() == 0);
        }
        Some((h, st))
    } else {
        proof {
            assert(v@.skip(p4 + 1).len() > 0);
        }
        None
    }
}

} // verus!
