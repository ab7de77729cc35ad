//! Byte strings and the number that a `layer` tag spells.
use vstd::prelude::*;
use vstd::utf8::*;

verus! {

/// Whether two byte strings are the same.
pub fn bytes_equal(a: &[u8], b: &[u8]) -> (r: bool)
    ensures
        r == (a@ == b@),
{
    if a.len() != b.len() {
        return false;
    }
    let mut i: usize = 0;
    while i < a.len()
        invariant
            i <= a@.len(),
            a@.len() == b@.len(),
            forall|k: int| 0 <= k < i ==> a@[k] == b@[k],
        decreases a@.len() - i,
    {
        if a[i] != b[i] {
            return false;
        }
        i = i + 1;
    }
    assert(a@ =~= b@);
    true
}

/// `s` begins with `prefix`.
pub open spec fn has_prefix(s: Seq<u8>, prefix: Seq<u8>) -> bool {
    prefix.len() <= s.len() && s.take(prefix.len() as int) == prefix
}

/// What follows `prefix` in `s`; `None` when `s` does not begin with it.
pub fn strip_prefix<'a>(s: &'a [u8], prefix: &[u8]) -> (r: Option<&'a [u8]>)
    ensures
        match r {
            Some(rest) => has_prefix(s@, prefix@) && rest@ == s@.skip(prefix@.len() as int),
            None => !has_prefix(s@, prefix@),
        },
{
    if prefix.len() > s.len() {
        return None;
    }
    let (head, rest) = s.split_at(prefix.len());
    if bytes_equal(head, prefix) {
        Some(rest)
    } else {
        None
    }
}

/// The characters with the Unicode property `White_Space`.
pub open spec fn is_white_space(c: char) -> bool {
    let u = c as u32;
    ||| 0x09 <= u <= 0x0d
    ||| u == 0x20
    ||| u == 0x85
    ||| u == 0xa0
    ||| u == 0x1680
    ||| 0x2000 <= u <= 0x200a
    ||| u == 0x2028
    ||| u == 0x2029
    ||| u == 0x202f
    ||| u == 0x205f
    ||| u == 0x3000
}

/// `s` without the white space at its front.
pub open spec fn trim_front(s: Seq<char>) -> Seq<char>
    decreases s.len(),
{
    if s.len() > 0 && is_white_space(s[0]) {
        trim_front(s.drop_first())
    } else {
        s
    }
}

/// `s` without the white space at its back.
pub open spec fn trim_back(s: Seq<char>) -> Seq<char>
    decreases s.len(),
{
    if s.len() > 0 && is_white_space(s.last()) {
        trim_back(s.drop_last())
    } else {
        s
    }
}

/// `c` is one of `0` to `9`.
pub open spec fn is_digit(c: char) -> bool {
    '0' <= c <= '9'
}

pub open spec fn all_digits(s: Seq<char>) -> bool {
    forall|i: int| 0 <= i < s.len() ==> is_digit(#[trigger] s[i])
}

/// The number that a row of decimal digits stands for.
pub open spec fn digits_value(s: Seq<char>) -> int
    decreases s.len(),
{
    if s.len() == 0 {
        0
    } else {
        digits_value(s.drop_last()) * 10 + (s.last() as int - '0' as int)
    }
}

/// The number that one or more digits, after an optional sign, stand for, when
/// it fits an `i32`.
pub open spec fn signed_number(s: Seq<char>) -> Option<int> {
    let negative = s.len() > 0 && s[0] == '-';
    let signed = s.len() > 0 && (s[0] == '-' || s[0] == '+');
    let digits = if signed {
        s.drop_first()
    } else {
        s
    };
    let value = if negative {
        -digits_value(digits)
    } else {
        digits_value(digits)
    };
    if digits.len() > 0 && all_digits(digits) && i32::MIN <= value <= i32::MAX {
        Some(value)
    } else {
        None
    }
}

/// The number that a byte string spells: it is UTF-8, and between white space
/// at either end stands a decimal number that fits an `i32`.
pub open spec fn spelled_number(v: Seq<u8>) -> Option<int> {
    if valid_utf8(v) {
        signed_number(trim_back(trim_front(decode_utf8(v))))
    } else {
        None
    }
}

/// `std::str::from_utf8`: the text that the bytes encode, or `None` when they
/// are not valid UTF-8.
#[verifier::external_body]
fn utf8_text<'a>(v: &'a [u8]) -> (r: Option<&'a str>)
    ensures
        match r {
            Some(s) => valid_utf8(v@) && s@ == decode_utf8(v@),
            None => !valid_utf8(v@),
        },
{
    std::str::from_utf8(v).ok()
}

fn white_space(c: char) -> (r: bool)
    ensures
        r == is_white_space(c),
{
    let u: u32 = c as u32;
    (0x09 <= u && u <= 0x0d) || u == 0x20 || u == 0x85 || u == 0xa0 || u == 0x1680 || (0x2000 <= u
        && u <= 0x200a) || u == 0x2028 || u == 0x2029 || u == 0x202f || u == 0x205f || u == 0x3000
}

fn chars_of(s: &str) -> (r: Vec<char>)
    ensures
        r@ == s@,
{
    let mut r: Vec<char> = Vec::new();
    for c in iter: s.chars()
        invariant
            iter.seq() == s@,
            r@ == iter.seq().take(iter.index()),
    {
        r.push(c);
    }
    assert(r@ =~= s@);
    r
}

/// A longer row of digits never stands for a smaller number.
proof fn lemma_digits_value_grows(s: Seq<char>, k: int)
    requires
        0 <= k <= s.len(),
        all_digits(s),
    ensures
        0 <= digits_value(s.take(k)) <= digits_value(s),
    decreases s.len(),
{
    if s.len() == 0 {
        assert(s.take(k) =~= s);
    } else {
        let p = s.drop_last();
        assert(all_digits(p)) by {
            assert forall|i: int| 0 <= i < p.len() implies is_digit(#[trigger] p[i]) by {
                assert(p[i] == s[i]);
            }
        }
        assert(is_digit(s[s.len() - 1]));
        if k == s.len() {
            assert(s.take(k) =~= s);
            lemma_digits_value_grows(p, p.len() as int);
            assert(p.take(p.len() as int) =~= p);
        } else {
            lemma_digits_value_grows(p, k);
            assert(p.take(k) =~= s.take(k));
        }
    }
}

/// The number that a byte string spells, if it spells one.
pub fn parse_number(v: &[u8]) -> (r: Option<i32>)
    ensures
        match r {
            Some(n) => spelled_number(v@) == Some(n as int),
            None => spelled_number(v@) is None,
        },
{
    let text = match utf8_text(v) {
        Some(s) => chars_of(s),
        None => {
            return None;
        },
    };
    let ghost t = text@;
    let mut lo: usize = 0;
    proof {
        assert(t.skip(0) =~= t);
    }
    while lo < text.len() && white_space(text[lo])
        invariant
            lo <= text@.len(),
            t == text@,
            trim_front(t.skip(lo as int)) == trim_front(t),
        decreases text@.len() - lo,
    {
        assert(t.skip(lo as int).drop_first() =~= t.skip(lo + 1));
        lo = lo + 1;
    }
    let ghost front = t.skip(lo as int);
    assert(trim_front(t) == front);
    let mut hi: usize = text.len();
    proof {
        assert(t.subrange(lo as int, hi as int) =~= front);
    }
    while lo < hi && white_space(text[hi - 1])
        invariant
            lo <= hi <= text@.len(),
            t == text@,
            front == t.skip(lo as int),
            trim_back(t.subrange(lo as int, hi as int)) == trim_back(front),
        decreases hi,
    {
        assert(t.subrange(lo as int, hi as int).drop_last() =~= t.subrange(lo as int, hi - 1));
        hi = hi - 1;
    }
    let ghost s = t.subrange(lo as int, hi as int);
    assert(trim_back(front) == s);
    let negative: bool = lo < hi && text[lo] == '-';
    let first: usize = if lo < hi && (text[lo] == '-' || text[lo] == '+') {
        lo + 1
    } else {
        lo
    };
    let ghost digits = t.subrange(first as int, hi as int);
    proof {
        assert(digits =~= if first > lo { s.drop_first() } else { s });
    }
    if first >= hi {
        return None;
    }
    let mut acc: i64 = 0;
    let mut i: usize = first;
    while i < hi
        invariant
            first <= i <= hi <= text@.len(),
            t == text@,
            digits == t.subrange(first as int, hi as int),
            acc == digits_value(digits.take(i - first)),
            0 <= acc <= 0x8000_0000,
            all_digits(digits.take(i - first)),
            negative == (s.len() > 0 && s[0] == '-'),
            digits == (if s.len() > 0 && (s[0] == '-' || s[0] == '+') { s.drop_first() } else { s }),
            spelled_number(v@) == signed_number(s),
        decreases hi - i,
    {
        let c: char = text[i];
        let ghost k = i - first;
        let ghost next = digits.take(k + 1);
        assert(digits[k] == c);
        if !(c >= '0' && c <= '9') {
            assert(!is_digit(digits[k]));
            return None;
        }
        proof {
            assert(next.drop_last() =~= digits.take(k));
            assert(next.last() == c);
            assert forall|j: int| 0 <= j < next.len() implies is_digit(#[trigger] next[j]) by {
                if j < k {
                    assert(digits.take(k)[j] == next[j]);
                }
            }
        }
        acc = acc * 10 + (c as u32 as i64 - 48);
        if acc > 0x8000_0000 {
            proof {
                if all_digits(digits) {
                    lemma_digits_value_grows(digits, k + 1);
                }
            }
            return None;
        }
        i = i + 1;
    }
    proof {
        assert(digits.take(digits.len() as int) =~= digits);
    }
    let value: i64 = if negative {
        -acc
    } else {
        acc
    };
    if value <= 0x7fff_ffff {
        Some(value as i32)
    } else {
        None
    }
}

/// `s` begins with `prefix` exactly if the bytes of `prefix` are its first.
pub proof fn a_prefix_is_what_comes_first(s: Seq<u8>, prefix: Seq<u8>, rest: Seq<u8>)
    ensures
        has_prefix(prefix + rest, prefix),
        has_prefix(s, prefix) <==> s.len() >= prefix.len() && forall|i: int|
            0 <= i < prefix.len() ==> #[trigger] prefix[i] == s[i],
{
    assert((prefix + rest).take(prefix.len() as int) =~= prefix);
    if has_prefix(s, prefix) {
        assert forall|i: int| 0 <= i < prefix.len() implies #[trigger] prefix[i] == s[i] by {
            assert(s.take(prefix.len() as int)[i] == s[i]);
        }
    }
    if s.len() >= prefix.len() && forall|i: int|
        0 <= i < prefix.len() ==> #[trigger] prefix[i] == s[i] {
        assert(s.take(prefix.len() as int) =~= prefix);
    }
}

/// A decimal number is read digit by digit in base ten, when it fits an `i32`.
pub proof fn digits_are_read_in_base_ten(s: Seq<char>, c: char)
    requires
        '0' <= c <= '9',
        s.len() > 0 ==> '0' <= s[0] <= '9',
    ensures
        s.len() == 0 ==> signed_number(s.push(c)) == Some(c as int - '0' as int),
        s.len() > 0 ==> match signed_number(s) {
            Some(v) => signed_number(s.push(c)) == if 10 * v + (c as int - '0' as int)
                <= 0x7fff_ffff {
                Some(10 * v + (c as int - '0' as int))
            } else {
                None
            },
            None => signed_number(s.push(c)) is None,
        },
{
    let t = s.push(c);
    assert(t.drop_last() =~= s);
    assert(t[0] == if s.len() > 0 {
        s[0]
    } else {
        c
    });
    if s.len() == 0 {
        reveal_with_fuel(digits_value, 2);
        assert(all_digits(t));
    } else {
        if all_digits(s) {
            assert(all_digits(t));
            lemma_digits_value_grows(s, 0);
            lemma_digits_value_grows(t, s.len() as int);
            assert(t.take(s.len() as int) =~= s);
        } else {
            let i = choose|i: int| 0 <= i < s.len() && !is_digit(#[trigger] s[i]);
            assert(t[i] == s[i]);
        }
    }
}

/// A minus in front turns the number round, a plus changes nothing.
pub proof fn signs_are_read(s: Seq<char>)
    requires
        s.len() > 0,
        '0' <= s[0] <= '9',
    ensures
        signed_number(s) matches Some(v) ==> 0 <= v <= 0x7fff_ffff && signed_number(
            seq!['-'] + s,
        ) == Some(-v) && signed_number(seq!['+'] + s) == Some(v),
        signed_number(seq!['+'] + s) is Some ==> signed_number(s) is Some,
        signed_number(seq!['-'] + s) matches Some(v) ==> -0x8000_0000 <= v <= 0 && (signed_number(s)
            is Some || v == -0x8000_0000),
{
    assert((seq!['-'] + s).drop_first() =~= s);
    assert((seq!['+'] + s).drop_first() =~= s);
    if all_digits(s) {
        lemma_digits_value_grows(s, 0);
        assert(s.take(0) =~= Seq::empty());
    }
}

/// Only digits, after a sign or not, are a number.
pub proof fn nothing_else_is_a_number(s: Seq<char>, i: int)
    requires
        signed_number(s) is Some,
        0 <= i < s.len(),
    ensures
        '0' <= s[i] <= '9' || (i == 0 && s.len() >= 2 && (s[0] == '-' || s[0] == '+')),
        s.len() >= 1,
{
    let signed = s[0] == '-' || s[0] == '+';
    let digits = if signed {
        s.drop_first()
    } else {
        s
    };
    if signed && i > 0 {
        assert(is_digit(digits[i - 1]));
    } else if !signed {
        assert(is_digit(digits[i]));
    }
}

/// White space is what Unicode calls so.
pub proof fn white_space_by_code(c: char)
    ensures
        is_white_space(c) <==> (c == ' ' || 9 <= c as u32 <= 13 || c as u32 == 0x85 || c as u32
            == 0xa0 || c as u32 == 0x1680 || 0x2000 <= c as u32 <= 0x200a || c as u32 == 0x2028
            || c as u32 == 0x2029 || c as u32 == 0x202f || c as u32 == 0x205f || c as u32
            == 0x3000),
{
    assert(' ' as u32 == 0x20);
}

proof fn lemma_trim_front_of_push(s: Seq<char>, w: char)
    requires
        is_white_space(w),
    ensures
        trim_front(s).len() > 0 ==> trim_front(s.push(w)) == trim_front(s).push(w),
        trim_front(s).len() == 0 ==> trim_front(s.push(w)).len() == 0,
    decreases s.len(),
{
    let t = s.push(w);
    if s.len() > 0 && is_white_space(s[0]) {
        lemma_trim_front_of_push(s.drop_first(), w);
        assert(t.drop_first() =~= s.drop_first().push(w));
    } else if s.len() == 0 {
        assert(t.drop_first() =~= Seq::empty());
        reveal_with_fuel(trim_front, 2);
    }
}

/// White space at either end of a text does not matter, and white space that
/// stands elsewhere is left: of a text that neither begins nor ends with it,
/// all is read.
pub proof fn white_space_around_a_number_is_ignored(s: Seq<char>, w: char)
    ensures
        is_white_space(w) ==> spelled_number(encode_utf8(seq![w] + s)) == spelled_number(
            encode_utf8(s),
        ),
        is_white_space(w) ==> spelled_number(encode_utf8(s.push(w))) == spelled_number(
            encode_utf8(s),
        ),
        s.len() > 0 && !is_white_space(s[0]) && !is_white_space(s.last()) ==> spelled_number(
            encode_utf8(s),
        ) == signed_number(s),
{
    broadcast use {encode_utf8_valid_utf8, encode_utf8_decode_utf8};

    assert((seq![w] + s).drop_first() =~= s);
    if is_white_space(w) {
        lemma_trim_front_of_push(s, w);
        let front = trim_front(s);
        if front.len() > 0 {
            assert(front.push(w).drop_last() =~= front);
        }
    }
}

/// Bytes that are no text spell no number.
pub proof fn only_text_spells_a_number(v: Seq<u8>)
    ensures
        spelled_number(v) is Some ==> valid_utf8(v) && v.len() > 0,
{
    if valid_utf8(v) && v.len() == 0 {
        assert(decode_utf8(v) =~= Seq::empty());
    }
}

/// After a minus a number is read digit by digit, too, as long as it fits an `i32`:
/// the least of these is one further from zero than the greatest. Nothing at all
/// is no number, nor is a sign alone.
pub proof fn negative_numbers_are_read_in_base_ten(s: Seq<char>, c: char)
    requires
        '0' <= c <= '9',
    ensures
        signed_number(Seq::empty()) is None,
        signed_number(seq!['-']) is None,
        signed_number(seq!['+']) is None,
        s.len() == 0 ==> signed_number((seq!['-'] + s).push(c)) == Some('0' as int - c as int),
        s.len() > 0 ==> match signed_number(seq!['-'] + s) {
            Some(v) => signed_number((seq!['-'] + s).push(c)) == if 10 * v - (c as int
                - '0' as int) >= -0x8000_0000 {
                Some(10 * v - (c as int - '0' as int))
            } else {
                None
            },
            None => signed_number((seq!['-'] + s).push(c)) is None,
        },
{
    let t = s.push(c);
    assert(seq!['-'].drop_first() =~= Seq::empty());
    assert(seq!['+'].drop_first() =~= Seq::empty());
    assert((seq!['-'] + s).drop_first() =~= s);
    assert((seq!['-'] + s).push(c).drop_first() =~= t);
    assert(t.drop_last() =~= s);
    if s.len() == 0 {
        reveal_with_fuel(digits_value, 2);
        assert(all_digits(t));
    } else {
        if all_digits(s) {
            assert(all_digits(t));
            lemma_digits_value_grows(s, 0);
            lemma_digits_value_grows(t, s.len() as int);
            assert(t.take(s.len() as int) =~= s);
        } else {
            let i = choose|i: int| 0 <= i < s.len() && !is_digit(#[trigger] s[i]);
            assert(t[i] == s[i]);
        }
    }
}

} // verus!
