//! Character-sequence utilities: conversions between `String` and `Vec<char>`,
//! substring search, case-insensitive search, splitting, and decimal digits.
use vstd::prelude::*;

verus! {

/// Relies on str::chars: yields the characters of the string in order.
#[verifier::external_body]
pub fn chars_of(s: &str) -> (r: Vec<char>)
    ensures
        r@ == s@,
{
    s.chars().collect()
}

/// Relies on String's FromIterator over chars: collecting characters builds
/// the string holding exactly those characters in order.
#[verifier::external_body]
pub fn string_of(v: &Vec<char>) -> (r: String)
    ensures
        r@ == v@,
{
    v.iter().collect()
}

/// Viewing a character vector deeply is viewing it plainly.
pub broadcast proof fn lemma_vec_char_deep_view(v: Vec<char>)
    ensures
        #[trigger] v.deep_view() == v@,
{
    assert(v.deep_view() =~= v@);
}

/// A fresh copy of a character vector.
pub fn copy_chars(v: &Vec<char>) -> (r: Vec<char>)
    ensures
        r@ == v@,
{
    let n: usize = v.len();
    let mut r: Vec<char> = Vec::new();
    let mut i: usize = 0;
    while i < n
        invariant
            n == v@.len(),
            0 <= i <= n,
            r@ =~= v@.take(i as int),
        decreases n - i,
    {
        r.push(v[i]);
        i += 1;
    }
    proof {
        assert(v@.take(n as int) =~= v@);
    }
    r
}

/// The strings as character vectors, in order.
pub fn strings_to_chars(v: &Vec<String>) -> (r: Vec<Vec<char>>)
    ensures
        r.deep_view() == v.deep_view(),
{
    let n: usize = v.len();
    proof {
        assert(v.deep_view().len() == n);
    }
    let mut r: Vec<Vec<char>> = Vec::new();
    let mut i: usize = 0;
    while i < n
        invariant
            n == v@.len(),
            v.deep_view().len() == n,
            0 <= i <= n,
            r.deep_view() =~= v.deep_view().take(i as int),
        decreases n - i,
    {
        let seg: Vec<char> = chars_of(v[i].as_str());
        let ghost prev = r.deep_view();
        proof {
            assert(v.deep_view()[i as int] == v@[i as int]@);
            assert(seg.deep_view() =~= seg@);
        }
        r.push(seg);
        proof {
            assert(r.deep_view() =~= prev.push(seg@));
            assert(v.deep_view().take(i + 1) =~= v.deep_view().take(i as int).push(
                v.deep_view()[i as int],
            ));
        }
        i += 1;
    }
    proof {
        assert(v.deep_view().take(n as int) =~= v.deep_view());
    }
    r
}

/// The characters of `a` followed by those of `b`.
pub fn concat_chars(a: &Vec<char>, b: &Vec<char>) -> (r: Vec<char>)
    ensures
        r@ == a@ + b@,
{
    let mut r: Vec<char> = copy_chars(a);
    let blen: usize = b.len();
    let mut i: usize = 0;
    while i < blen
        invariant
            blen == b@.len(),
            0 <= i <= blen,
            r@ =~= a@ + b@.take(i as int),
        decreases blen - i,
    {
        r.push(b[i]);
        i += 1;
    }
    proof {
        assert(b@.take(blen as int) =~= b@);
    }
    r
}

/// The two vectors hold the same characters.
pub fn chars_eq(a: &Vec<char>, b: &Vec<char>) -> (r: bool)
    ensures
        r == (a@ == b@),
{
    let alen: usize = a.len();
    let blen: usize = b.len();
    if alen != blen {
        return false;
    }
    let mut i: usize = 0;
    while i < alen
        invariant
            alen == a@.len(),
            alen == b@.len(),
            0 <= i <= alen,
            forall|k: int| 0 <= k < i ==> a@[k] == b@[k],
        decreases alen - i,
    {
        if a[i] != b[i] {
            return false;
        }
        i += 1;
    }
    assert(a@ =~= b@);
    true
}

/// The string holds exactly the characters of the vector.
pub fn str_eq_chars(s: &str, v: &Vec<char>) -> (r: bool)
    ensures
        r == (s@ == v@),
{
    let sc: Vec<char> = chars_of(s);
    chars_eq(&sc, v)
}

/// The two strings hold the same characters.
pub fn str_eq(a: &str, b: &str) -> (r: bool)
    ensures
        r == (a@ == b@),
{
    let ac: Vec<char> = chars_of(a);
    let bc: Vec<char> = chars_of(b);
    chars_eq(&ac, &bc)
}

/// `a` orders strictly before `b`, lexicographically by character code.
pub open spec fn str_lt(a: Seq<char>, b: Seq<char>) -> bool
    decreases a.len(),
{
    if b.len() == 0 {
        false
    } else if a.len() == 0 {
        true
    } else if a[0] as u32 != b[0] as u32 {
        (a[0] as u32) < (b[0] as u32)
    } else {
        str_lt(a.skip(1), b.skip(1))
    }
}

pub proof fn lemma_str_lt_irrefl(a: Seq<char>)
    ensures
        !str_lt(a, a),
    decreases a.len(),
{
    if a.len() > 0 {
        lemma_str_lt_irrefl(a.skip(1));
    }
}

/// Two strings either spell the same or one orders strictly before the
/// other.
pub proof fn lemma_str_lt_total(a: Seq<char>, b: Seq<char>)
    ensures
        a == b || str_lt(a, b) || str_lt(b, a),
    decreases a.len(),
{
    if b.len() == 0 {
        if a.len() == 0 {
            assert(a =~= b);
        }
    } else if a.len() == 0 {
    } else if a[0] as u32 != b[0] as u32 {
    } else {
        vstd::utf8::char_u32_cast(a[0], a[0] as u32);
        vstd::utf8::char_u32_cast(b[0], b[0] as u32);
        assert(a[0] == b[0]);
        lemma_str_lt_total(a.skip(1), b.skip(1));
        if a.skip(1) == b.skip(1) {
            assert(a.skip(1).len() == b.skip(1).len());
            assert(a.len() == b.len());
            assert forall|k: int| 0 <= k < a.len() implies a[k] == b[k] by {
                if k > 0 {
                    assert(a[k] == a.skip(1)[k - 1]);
                    assert(b[k] == b.skip(1)[k - 1]);
                }
            }
            assert(a =~= b);
        }
    }
}

/// The strict order is transitive.
pub proof fn lemma_str_lt_trans(a: Seq<char>, b: Seq<char>, c: Seq<char>)
    requires
        str_lt(a, b),
        str_lt(b, c),
    ensures
        str_lt(a, c),
    decreases a.len(),
{
    if c.len() == 0 {
    } else if b.len() == 0 {
    } else if a.len() == 0 {
    } else {
        if a[0] as u32 == c[0] as u32 {
            assert(a[0] as u32 == b[0] as u32 && b[0] as u32 == c[0] as u32);
            lemma_str_lt_trans(a.skip(1), b.skip(1), c.skip(1));
        }
    }
}

/// Whether `a` orders strictly before `b`.
pub fn chars_lt(a: &Vec<char>, b: &Vec<char>) -> (r: bool)
    ensures
        r == str_lt(a@, b@),
{
    let alen: usize = a.len();
    let blen: usize = b.len();
    let mut i: usize = 0;
    proof {
        assert(a@.skip(0int) =~= a@);
        assert(b@.skip(0int) =~= b@);
    }
    loop
        invariant
            alen == a@.len(),
            blen == b@.len(),
            0 <= i <= alen,
            i <= blen,
            str_lt(a@, b@) == str_lt(a@.skip(i as int), b@.skip(i as int)),
        decreases alen - i,
    {
        if i == blen {
            proof {
                assert(b@.skip(i as int).len() == 0);
            }
            return false;
        }
        if i == alen {
            proof {
                assert(a@.skip(i as int).len() == 0);
                assert(b@.skip(i as int).len() > 0);
            }
            return true;
        }
        let x: u32 = a[i] as u32;
        let y: u32 = b[i] as u32;
        proof {
            assert(a@.skip(i as int)[0] == a@[i as int]);
            assert(b@.skip(i as int)[0] == b@[i as int]);
        }
        if x != y {
            return x < y;
        }
        proof {
            assert(a@.skip(i as int).skip(1) =~= a@.skip(i + 1));
            assert(b@.skip(i as int).skip(1) =~= b@.skip(i + 1));
        }
        i += 1;
    }
}

/// The needle occurs in the haystack starting at position `i`.
pub open spec fn match_at(hay: Seq<char>, needle: Seq<char>, i: int) -> bool {
    0 <= i && i + needle.len() <= hay.len() && hay.subrange(i, i + needle.len() as int)
        == needle
}

/// The needle occurs somewhere in the haystack.
pub open spec fn contains_sub(hay: Seq<char>, needle: Seq<char>) -> bool {
    exists|i: int| match_at(hay, needle, i)
}

/// Whether the needle occurs at position `i` of the haystack.
pub fn match_at_pos(hay: &Vec<char>, needle: &Vec<char>, i: usize) -> (r: bool)
    requires
        i <= hay@.len(),
    ensures
        r == match_at(hay@, needle@, i as int),
{
    let hlen: usize = hay.len();
    let nlen: usize = needle.len();
    if nlen > hlen - i {
        return false;
    }
    let mut j: usize = 0;
    while j < nlen
        invariant
            hlen == hay@.len(),
            nlen == needle@.len(),
            0 <= j <= nlen,
            i + nlen <= hlen,
            forall|k: int| 0 <= k < j ==> hay@[i + k] == needle@[k],
        decreases nlen - j,
    {
        if hay[i + j] != needle[j] {
            assert(!match_at(hay@, needle@, i as int)) by {
                if match_at(hay@, needle@, i as int) {
                    assert(hay@.subrange(i as int, i + needle@.len() as int)[j as int]
                        == needle@[j as int]);
                }
            }
            return false;
        }
        j += 1;
    }
    assert(hay@.subrange(i as int, i + needle@.len() as int) =~= needle@);
    true
}

/// Position of the first occurrence of the needle in the haystack, if any.
pub fn find_sub(hay: &Vec<char>, needle: &Vec<char>) -> (r: Option<usize>)
    ensures
        match r {
            Some(i) => match_at(hay@, needle@, i as int) && forall|k: int|
                0 <= k < i ==> !match_at(hay@, needle@, k),
            None => !contains_sub(hay@, needle@),
        },
{
    let hlen: usize = hay.len();
    let nlen: usize = needle.len();
    if nlen > hlen {
        assert(forall|i: int| !match_at(hay@, needle@, i));
        return None;
    }
    let last: usize = hlen - nlen;
    let mut i: usize = 0;
    loop
        invariant
            hlen == hay@.len(),
            nlen == needle@.len(),
            nlen <= hlen,
            last == hlen - nlen,
            0 <= i <= last,
            forall|k: int| 0 <= k < i ==> !match_at(hay@, needle@, k),
        decreases last - i,
    {
        if match_at_pos(hay, needle, i) {
            return Some(i);
        }
        if i == last {
            assert(forall|k: int| k > last ==> !match_at(hay@, needle@, k));
            return None;
        }
        i += 1;
    }
}

/// The needle occurs somewhere in the haystack.
pub fn contains_chars(hay: &Vec<char>, needle: &Vec<char>) -> (r: bool)
    ensures
        r == contains_sub(hay@, needle@),
{
    find_sub(hay, needle).is_some()
}

/// `a` is `b` or its ASCII upper-case form; `b` is expected lower-case.
pub open spec fn eq_ci(a: char, b: char) -> bool {
    a as u32 == b as u32 || (65 <= a as u32 <= 90 && a as u32 + 32 == b as u32)
}

/// The lower-case needle occurs at position `i` of the haystack, comparing
/// ASCII letters case-insensitively.
pub open spec fn match_at_ci(hay: Seq<char>, needle: Seq<char>, i: int) -> bool {
    0 <= i && i + needle.len() <= hay.len() && forall|j: int|
        0 <= j < needle.len() ==> eq_ci(hay[i + j], needle[j])
}

/// The lower-case needle occurs in the haystack, ASCII-case-insensitively.
pub open spec fn contains_ci(hay: Seq<char>, needle: Seq<char>) -> bool {
    exists|i: int| match_at_ci(hay, needle, i)
}

/// The lower-case needle occurs in the haystack, ASCII-case-insensitively.
pub fn contains_chars_ci(hay: &Vec<char>, needle: &Vec<char>) -> (r: bool)
    ensures
        r == contains_ci(hay@, needle@),
{
    let hlen: usize = hay.len();
    let nlen: usize = needle.len();
    if nlen > hlen {
        assert(forall|i: int| !match_at_ci(hay@, needle@, i));
        return false;
    }
    let last: usize = hlen - nlen;
    let mut i: usize = 0;
    loop
        invariant
            hlen == hay@.len(),
            nlen == needle@.len(),
            nlen <= hlen,
            last == hlen - nlen,
            0 <= i <= last,
            forall|k: int| 0 <= k < i ==> !match_at_ci(hay@, needle@, k),
        decreases last - i,
    {
        let mut j: usize = 0;
        let mut all: bool = true;
        while j < nlen
            invariant
                hlen == hay@.len(),
                nlen == needle@.len(),
                0 <= j <= nlen,
                i + nlen <= hlen,
                all == forall|k: int| 0 <= k < j ==> eq_ci(hay@[i + k], needle@[k]),
            decreases nlen - j,
        {
            let a: u32 = hay[i + j] as u32;
            let b: u32 = needle[j] as u32;
            let cur: bool = a == b || (65 <= a && a <= 90 && a + 32 == b);
            proof {
                assert(cur == eq_ci(hay@[i + j], needle@[j as int]));
            }
            if !cur {
                all = false;
            }
            j += 1;
        }
        if all {
            assert(match_at_ci(hay@, needle@, i as int));
            return true;
        }
        if i == last {
            assert(forall|k: int| k > last ==> !match_at_ci(hay@, needle@, k));
            return false;
        }
        i += 1;
    }
}

/// `c` is an ASCII decimal digit.
pub open spec fn is_digit(c: char) -> bool {
    48 <= c as u32 <= 57
}

/// Every character of `s` is an ASCII decimal digit.
pub open spec fn all_digits(s: Seq<char>) -> bool {
    forall|i: int| 0 <= i < s.len() ==> is_digit(s[i])
}

/// Numeric value of a digit character.
pub open spec fn digit_val(c: char) -> int {
    c as u32 - 48
}

/// The digit characters of `s`, in order.
pub open spec fn digits_of(s: Seq<char>) -> Seq<char>
    decreases s.len(),
{
    if s.len() == 0 {
        Seq::empty()
    } else if is_digit(s.last()) {
        digits_of(s.drop_last()).push(s.last())
    } else {
        digits_of(s.drop_last())
    }
}

pub proof fn lemma_digits_of_all(s: Seq<char>)
    ensures
        all_digits(digits_of(s)),
    decreases s.len(),
{
    if s.len() > 0 {
        lemma_digits_of_all(s.drop_last());
    }
}

/// Value of a digit string read as a decimal number.
pub open spec fn dec_val(s: Seq<char>) -> int
    decreases s.len(),
{
    if s.len() == 0 {
        0
    } else {
        dec_val(s.drop_last()) * 10 + digit_val(s.last())
    }
}

pub proof fn lemma_dec_val_snoc(s: Seq<char>, c: char)
    ensures
        dec_val(s.push(c)) == dec_val(s) * 10 + digit_val(c),
{
    assert(s.push(c).drop_last() =~= s);
    assert(s.push(c).last() == c);
}

pub proof fn lemma_dec_val_nonneg(s: Seq<char>)
    requires
        all_digits(s),
    ensures
        dec_val(s) >= 0,
    decreases s.len(),
{
    if s.len() > 0 {
        assert(all_digits(s.drop_last()));
        lemma_dec_val_nonneg(s.drop_last());
    }
}

/// The digit characters of `s`, in order.
pub fn extract_digits(s: &Vec<char>) -> (r: Vec<char>)
    ensures
        r@ == digits_of(s@),
        all_digits(r@),
{
    let slen: usize = s.len();
    let mut r: Vec<char> = Vec::new();
    let mut i: usize = 0;
    proof {
        assert(s@.take(0int) =~= Seq::<char>::empty());
    }
    while i < slen
        invariant
            slen == s@.len(),
            0 <= i <= slen,
            r@ == digits_of(s@.take(i as int)),
        decreases slen - i,
    {
        let c: char = s[i];
        let u: u32 = c as u32;
        proof {
            assert(s@.take(i + 1).drop_last() =~= s@.take(i as int));
            assert(s@.take(i + 1).last() == s@[i as int]);
        }
        if 48 <= u && u <= 57 {
            proof {
                assert(is_digit(c));
            }
            r.push(c);
        } else {
            proof {
                assert(!is_digit(c));
            }
        }
        i += 1;
    }
    proof {
        assert(s@.take(s@.len() as int) =~= s@);
        lemma_digits_of_all(s@);
    }
    r
}

/// Decimal value of a digit string, if it fits in a `u16`.
pub fn dec_u16(digits: &Vec<char>) -> (r: Option<u16>)
    requires
        all_digits(digits@),
    ensures
        match r {
            Some(v) => v as int == dec_val(digits@),
            None => dec_val(digits@) > u16::MAX,
        },
{
    let dlen: usize = digits.len();
    let mut acc: u32 = 0;
    let mut over: bool = false;
    let mut i: usize = 0;
    while i < dlen
        invariant
            dlen == digits@.len(),
            all_digits(digits@),
            0 <= i <= dlen,
            !over ==> acc as int == dec_val(digits@.take(i as int)) && acc <= u16::MAX,
            over ==> dec_val(digits@.take(i as int)) > u16::MAX,
        decreases dlen - i,
    {
        let c: char = digits[i];
        let d: u32 = c as u32 - 48;
        proof {
            assert(digits@.take(i + 1) =~= digits@.take(i as int).push(digits@[i as int]));
            lemma_dec_val_snoc(digits@.take(i as int), digits@[i as int]);
            assert(forall|k: int|
                0 <= k < digits@.take(i as int).len() ==> is_digit(
                    digits@.take(i as int)[k],
                ));
            if over {
                lemma_dec_val_nonneg(digits@.take(i as int));
            }
        }
        if !over {
            let next: u32 = acc * 10 + d;
            if next > 65535 {
                over = true;
            } else {
                acc = next;
            }
        }
        i += 1;
    }
    proof {
        assert(digits@.take(digits@.len() as int) =~= digits@);
    }
    if over {
        None
    } else {
        Some(acc as u16)
    }
}

/// The digit character for a value below ten.
pub fn digit_char(d: u32) -> (c: char)
    requires
        d < 10,
    ensures
        is_digit(c),
        digit_val(c) == d as int,
{
    if d == 0 {
        '0'
    } else if d == 1 {
        '1'
    } else if d == 2 {
        '2'
    } else if d == 3 {
        '3'
    } else if d == 4 {
        '4'
    } else if d == 5 {
        '5'
    } else if d == 6 {
        '6'
    } else if d == 7 {
        '7'
    } else if d == 8 {
        '8'
    } else {
        '9'
    }
}

/// Decimal digit string of `n`: non-empty, no leading zero except for zero
/// itself, and reading it back as a decimal yields `n`.
pub fn dec_of_u32(n: u32) -> (r: Vec<char>)
    ensures
        r@.len() >= 1,
        all_digits(r@),
        dec_val(r@) == n,
        r@.len() > 1 ==> r@[0] != '0',
        n < 10 ==> r@.len() == 1,
    decreases n,
{
    if n < 10 {
        let c: char = digit_char(n);
        let mut v: Vec<char> = Vec::new();
        v.push(c);
        proof {
            assert(v@ =~= seq![c]);
            assert(v@.drop_last() =~= Seq::<char>::empty());
            assert(dec_val(Seq::<char>::empty()) == 0);
            assert(dec_val(v@) == digit_val(c));
        }
        v
    } else {
        let mut v: Vec<char> = dec_of_u32(n / 10);
        let c: char = digit_char(n % 10);
        proof {
            lemma_dec_val_snoc(v@, c);
            if v@.len() == 1 {
                assert(v@.drop_last() =~= Seq::<char>::empty());
                assert(dec_val(Seq::<char>::empty()) == 0);
                assert(dec_val(v@) == digit_val(v@[0]));
                assert(digit_val(v@[0]) >= 1);
                assert('0' as u32 == 48);
                assert(v@[0] != '0');
            }
        }
        v.push(c);
        assert(v@[0] != '0');
        v
    }
}

/// The first non-empty piece of `s` split by the separator `sep`, scanning
/// separator occurrences left to right; `None` when every piece is empty.
pub open spec fn first_piece(s: Seq<char>, sep: Seq<char>) -> Option<Seq<char>>
    decreases s.len(),
{
    if sep.len() == 0 || s.len() == 0 {
        None
    } else if match_at(s, sep, 0) {
        first_piece(s.skip(sep.len() as int), sep)
    } else {
        Some(piece_at(s, sep))
    }
}

/// The piece of `s` before the first separator occurrence (all of `s` when
/// the separator does not occur).
pub open spec fn piece_at(s: Seq<char>, sep: Seq<char>) -> Seq<char> {
    if contains_sub(s, sep) {
        s.take(first_match(s, sep))
    } else {
        s
    }
}

/// Position of the first occurrence of `sep` in `s`.
pub open spec fn first_match(s: Seq<char>, sep: Seq<char>) -> int {
    choose|i: int|
        match_at(s, sep, i) && forall|k: int| 0 <= k < i ==> !match_at(s, sep, k)
}

/// The piece of `s` that starts at `start`, given that no separator occurrence
/// starts there: the characters up to the next separator occurrence.
#[verifier::rlimit(50)]
fn piece_from(s: &Vec<char>, sep: &Vec<char>, start: usize) -> (p: Vec<char>)
    requires
        sep@.len() > 0,
        start < s@.len(),
        !match_at(s@.skip(start as int), sep@, 0),
    ensures
        Some(p@) == first_piece(s@.skip(start as int), sep@),
{
    let ghost rest = s@.skip(start as int);
    let slen: usize = s.len();
    let mut tail: Vec<char> = Vec::new();
    let mut j: usize = start;
    while j < slen
        invariant
            slen == s@.len(),
            start <= j <= slen,
            tail@ =~= s@.subrange(start as int, j as int),
        decreases slen - j,
    {
        tail.push(s[j]);
        j += 1;
    }
    proof {
        assert(tail@ =~= rest);
    }
    let k: Option<usize> = find_sub(&tail, sep);
    let stop: usize = match k {
        Some(p) => p,
        None => tail.len(),
    };
    let mut piece: Vec<char> = Vec::new();
    let mut j: usize = 0;
    while j < stop
        invariant
            0 <= j <= stop <= tail@.len(),
            tail@ == rest,
            piece@ =~= tail@.subrange(0, j as int),
        decreases stop - j,
    {
        piece.push(tail[j]);
        j += 1;
    }
    proof {
        assert(!match_at(rest, sep@, 0));
        assert(rest.len() > 0);
        match k {
            Some(p) => {
                let fm = first_match(rest, sep@);
                assert(match_at(rest, sep@, p as int) && forall|q: int|
                    0 <= q < p ==> !match_at(rest, sep@, q));
                assert(match_at(rest, sep@, fm) && forall|q: int|
                    0 <= q < fm ==> !match_at(rest, sep@, q));
                assert(fm == p as int);
                assert(piece@ =~= rest.take(p as int));
            },
            None => {
                assert(piece@ =~= rest);
                assert(!contains_sub(rest, sep@));
            },
        }
    }
    piece
}

/// A match of `sep` at `start` in `s` is a match at the head of the suffix.
proof fn lemma_match_shift(s: Seq<char>, sep: Seq<char>, start: int)
    requires
        0 <= start <= s.len(),
    ensures
        match_at(s, sep, start) == match_at(s.skip(start), sep, 0),
{
    if start + sep.len() <= s.len() {
        assert(s.skip(start).subrange(0, sep.len() as int) =~= s.subrange(
            start,
            start + sep.len() as int,
        ));
    }
}

/// First non-empty piece of `s` split by `sep`.
#[verifier::rlimit(100)]
pub fn split_first_piece(s: &Vec<char>, sep: &Vec<char>) -> (r: Option<Vec<char>>)
    requires
        sep@.len() > 0,
    ensures
        match r {
            Some(p) => first_piece(s@, sep@) == Some(p@),
            None => first_piece(s@, sep@) is None,
        },
{
    let slen: usize = s.len();
    let mut start: usize = 0;
    proof {
        assert(s@.skip(0int) =~= s@);
    }
    while start < slen
        invariant
            slen == s@.len(),
            sep@.len() > 0,
            0 <= start <= slen,
            first_piece(s@, sep@) == first_piece(s@.skip(start as int), sep@),
        decreases slen - start,
    {
        let ghost rest = s@.skip(start as int);
        let hit: bool = match_at_pos(s, sep, start);
        proof {
            lemma_match_shift(s@, sep@, start as int);
        }
        if hit {
            proof {
                assert(rest.skip(sep@.len() as int) =~= s@.skip(start + sep@.len()));
            }
            start += sep.len();
        } else {
            let piece: Vec<char> = piece_from(s, sep, start);
            return Some(piece);
        }
    }
    proof {
        assert(s@.skip(start as int) =~= Seq::<char>::empty());
    }
    None
}

} // verus!
