//! Character and string facilities that the lexer and the executor share:
//! the specifications of the few `std` text functions the crate relies on,
//! and small verified helpers on character sequences.
use vstd::prelude::*;

verus! {

/// What `char::is_alphabetic` answers: whether the character has the Unicode
/// `Alphabetic` property.
pub uninterp spec fn char_alphabetic(c: char) -> bool;

/// What `char::is_alphanumeric` answers: whether the character is alphabetic
/// or numeric in the Unicode sense.
pub uninterp spec fn char_alphanumeric(c: char) -> bool;

/// What `str::to_uppercase` answers: the Unicode upper-case mapping of a text.
pub uninterp spec fn uppercase(s: Seq<char>) -> Seq<char>;

/// An ASCII letter.
pub open spec fn is_ascii_letter(c: char) -> bool {
    ('a' <= c <= 'z') || ('A' <= c <= 'Z')
}

/// The upper-case form of an ASCII character: `a`..`z` become `A`..`Z`, every
/// other character stays.
pub open spec fn ascii_upper(c: char) -> char {
    if 'a' <= c <= 'z' {
        ((c as u32) - 32) as char
    } else {
        c
    }
}

/// `char::is_alphabetic`: the answer is the Unicode `Alphabetic` property,
/// named by `char_alphabetic`. Among ASCII characters the property holds of
/// the letters and of nothing else.
pub assume_specification[ char::is_alphabetic ](c: char) -> (r: bool)
    ensures
        r == char_alphabetic(c),
        (c as u32) < 0x80 ==> r == is_ascii_letter(c),
;

/// `char::is_alphanumeric`: the answer is named by `char_alphanumeric`; its
/// documentation defines it as "alphabetic or numeric", so every alphabetic
/// character is alphanumeric. Among ASCII characters it holds of the letters
/// and the digits and of nothing else.
pub assume_specification[ char::is_alphanumeric ](c: char) -> (r: bool)
    ensures
        r == char_alphanumeric(c),
        char_alphabetic(c) ==> r,
        (c as u32) < 0x80 ==> r == (is_ascii_letter(c) || ('0' <= c <= '9')),
;

/// `str::to_uppercase`: the result's characters are the upper-case mapping of
/// the argument's, named by `uppercase`. For ASCII text the mapping turns
/// `a`..`z` into `A`..`Z`, character for character, and keeps the rest.
pub assume_specification[ str::to_uppercase ](s: &str) -> (r: String)
    ensures
        r@ == uppercase(s@),
        (forall|i: int| 0 <= i < s@.len() ==> (#[trigger] s@[i] as u32) < 0x80) ==> r@
            == s@.map_values(|c: char| ascii_upper(c)),
;

/// `String::push` appends one character.
pub assume_specification[ String::push ](s: &mut String, ch: char)
    ensures
        final(s)@ == old(s)@.push(ch),
;

/// Appends the characters of `t` to `s`.
pub fn append_str(s: &mut String, t: &str)
    ensures
        final(s)@ == old(s)@ + t@,
{
    broadcast use vstd::string::axiom_spec_iter;

    let ghost start = s@;
    for c in it: t.chars()
        invariant
            s@ == start + it.seq().take(it.index() as int),
            it.seq() == t@,
    {
        s.push(c);
        assert(start + it.seq().take(it.index() + 1) =~= (start + it.seq().take(
            it.index() as int,
        )).push(c));
    }
    assert(t@.take(t@.len() as int) =~= t@);
}

/// What `String::from_utf8_lossy` makes of a byte string: its characters, with
/// each invalid sequence replaced by U+FFFD.
pub uninterp spec fn utf8_lossy(b: Seq<u8>) -> Seq<char>;

/// `String::from_utf8_lossy`, made an owned `String`. Claimed: the text is
/// `utf8_lossy` of the bytes; valid UTF-8 is decoded unchanged, as its
/// documentation says.
#[verifier::external_body]
pub(crate) fn lossy_string(b: &[u8]) -> (r: String)
    ensures
        r@ == utf8_lossy(b@),
        vstd::utf8::valid_utf8(b@) ==> r@ == vstd::utf8::decode_utf8(b@),
{
    String::from_utf8_lossy(b).into_owned()
}

/// `char::is_ascii_whitespace`: space, tab, line feed, form feed, carriage return.
pub open spec fn is_ascii_whitespace(c: char) -> bool {
    c == ' ' || c == '\t' || c == '\n' || c == '\x0C' || c == '\r'
}

/// `char::is_ascii_digit`: `'0'..='9'`.
pub open spec fn is_ascii_digit(c: char) -> bool {
    '0' <= c && c <= '9'
}

pub fn ascii_whitespace(c: char) -> (r: bool)
    ensures
        r == is_ascii_whitespace(c),
{
    c == ' ' || c == '\t' || c == '\n' || c == '\x0C' || c == '\r'
}

pub fn ascii_digit(c: char) -> (r: bool)
    ensures
        r == is_ascii_digit(c),
{
    '0' <= c && c <= '9'
}

/// The characters of a text, in order.
pub fn chars_of(s: &str) -> (v: Vec<char>)
    ensures
        v@ == s@,
{
    let mut v: Vec<char> = Vec::new();
    broadcast use vstd::string::axiom_spec_iter;

    for c in it: s.chars()
        invariant
            v@ == it.seq().take(it.index() as int),
            it.seq() == s@,
    {
        v.push(c);
    }
    v
}

/// A `String` holding the characters `v[from..to]`.
pub fn string_of(v: &Vec<char>, from: usize, to: usize) -> (s: String)
    requires
        from <= to <= v.len(),
    ensures
        s@ == v@.subrange(from as int, to as int),
{
    let mut s = String::new();
    let mut i = from;
    while i < to
        invariant
            from <= i <= to <= v.len(),
            s@ == v@.subrange(from as int, i as int),
        decreases to - i,
    {
        s.push(v[i]);
        i = i + 1;
    }
    s
}

/// A copy of a byte string.
pub fn bytes_to_vec(s: &[u8]) -> (v: Vec<u8>)
    ensures
        v@ == s@,
{
    let mut v: Vec<u8> = Vec::new();
    let mut i: usize = 0;
    while i < s.len()
        invariant
            i <= s.len(),
            v@ == s@.take(i as int),
        decreases s.len() - i,
    {
        v.push(s[i]);
        i = i + 1;
        assert(v@ =~= s@.take(i as int));
    }
    assert(s@.take(s.len() as int) =~= s@);
    v
}

/// A copy of the bytes `s[from..]`.
pub fn bytes_from(s: &[u8], from: usize) -> (v: Vec<u8>)
    requires
        from <= s.len(),
    ensures
        v@ == s@.skip(from as int),
{
    let mut v: Vec<u8> = Vec::new();
    let mut i: usize = from;
    while i < s.len()
        invariant
            from <= i <= s.len(),
            v@ == s@.subrange(from as int, i as int),
        decreases s.len() - i,
    {
        v.push(s[i]);
        i = i + 1;
        assert(v@ =~= s@.subrange(from as int, i as int));
    }
    assert(s@.skip(from as int) =~= s@.subrange(from as int, s.len() as int));
    v
}

/// Whether `a` begins with `p`.
pub fn bytes_starts_with(a: &[u8], p: &[u8]) -> (r: bool)
    ensures
        r == p@.is_prefix_of(a@),
{
    if p.len() > a.len() {
        return false;
    }
    let mut i: usize = 0;
    while i < p.len()
        invariant
            p.len() <= a.len(),
            i <= p.len(),
            forall|k: int| 0 <= k < i ==> p@[k] == a@[k],
        decreases p.len() - i,
    {
        if p[i] != a[i] {
            return false;
        }
        i = i + 1;
    }
    true
}

/// Whether two character sequences are equal.
pub fn chars_eq(a: &[char], b: &[char]) -> (r: bool)
    ensures
        r == (a@ == b@),
{
    if a.len() != b.len() {
        return false;
    }
    let mut i: usize = 0;
    while i < a.len()
        invariant
            a@.len() == b@.len(),
            i <= a.len(),
            forall|k: int| 0 <= k < i ==> a@[k] == b@[k],
        decreases a.len() - i,
    {
        if a[i] != b[i] {
            return false;
        }
        i = i + 1;
    }
    assert(a@ =~= b@);
    true
}

/// The characters of `s`, upper-cased as `str::to_uppercase` does.
pub fn uppercase_chars(s: &String) -> (r: Vec<char>)
    ensures
        r@ == uppercase(s@),
{
    let up = s.as_str().to_uppercase();
    chars_of(up.as_str())
}

/// The character of a decimal digit `d`, `0 <= d < 10`.
pub open spec fn digit_char(d: int) -> char {
    (('0' as int) + d) as char
}

/// The decimal digits of a natural number, most significant first, without
/// leading zeros (`0` is the single digit `0`).
pub open spec fn nat_decimal(n: nat) -> Seq<char>
    decreases n,
{
    if n < 10 {
        seq![digit_char(n as int)]
    } else {
        nat_decimal(n / 10).push(digit_char((n % 10) as int))
    }
}

/// An integer in decimal, with a leading minus sign when it is negative, as
/// `Display` writes integers.
pub open spec fn int_decimal(n: int) -> Seq<char> {
    if n < 0 {
        seq!['-'] + nat_decimal((-n) as nat)
    } else {
        nat_decimal(n as nat)
    }
}

/// `n` in decimal.
pub fn decimal_string(n: i128) -> (s: String)
    requires
        n > i128::MIN,
    ensures
        s@ == int_decimal(n as int),
{
    let negative = n < 0;
    let mut m: u128 = if negative { (-n) as u128 } else { n as u128 };
    let ghost total = m as nat;
    // the digits of `m`, least significant first
    let mut rev: Vec<char> = Vec::new();
    loop
        invariant_except_break
            rev@.len() == 0 ==> m == total,
            rev@.len() > 0 ==> m > 0 && nat_decimal(total) == nat_decimal(m as nat)
                + rev@.reverse(),
        ensures
            nat_decimal(total) == rev@.reverse(),
        decreases m,
    {
        let d = (m % 10) as u8;
        let c = (48u8 + d) as char;
        let ghost old_rev = rev@;
        let ghost old_m = m as nat;
        rev.push(c);
        m = m / 10;
        proof {
            assert(c == digit_char((old_m % 10) as int));
            assert(rev@.reverse() =~= seq![c] + old_rev.reverse());
            if old_m >= 10 {
                assert(nat_decimal(old_m) == nat_decimal(m as nat).push(c));
                assert(nat_decimal(m as nat).push(c) + old_rev.reverse() =~= nat_decimal(
                    m as nat,
                ) + rev@.reverse());
                if old_rev.len() == 0 {
                    assert(nat_decimal(m as nat).push(c) =~= nat_decimal(m as nat)
                        + rev@.reverse());
                }
            } else {
                assert(nat_decimal(old_m) == seq![c]);
                assert(seq![c] + old_rev.reverse() =~= rev@.reverse());
            }
        }
        if m == 0 {
            break;
        }
    }
    let mut s = String::new();
    if negative {
        s.push('-');
    }
    let ghost prefix = s@;
    let mut i = rev.len();
    while i > 0
        invariant
            i <= rev.len(),
            s@ == prefix + rev@.reverse().take((rev.len() - i) as int),
        decreases i,
    {
        i = i - 1;
        s.push(rev[i]);
        assert(rev@.reverse().take((rev.len() - i) as int) =~= rev@.reverse().take(
            (rev.len() - i - 1) as int,
        ).push(rev@[i as int]));
    }
    assert(rev@.reverse().take(rev.len() as int) =~= rev@.reverse());
    proof {
        if negative {
            assert(prefix == seq!['-']);
        } else {
            assert(prefix =~= Seq::<char>::empty());
            assert(prefix + rev@.reverse() =~= rev@.reverse());
        }
    }
    s
}

// ── Decimal integers ─────────────────────────────────────────────────────────

/// The value of a string of decimal digits.
pub open spec fn decimal_value(s: Seq<char>) -> int
    decreases s.len(),
{
    if s.len() == 0 {
        0
    } else {
        decimal_value(s.drop_last()) * 10 + (s.last() as int - '0' as int)
    }
}

/// A non-empty string of ASCII digits.
pub open spec fn all_digits(s: Seq<char>) -> bool {
    s.len() > 0 && forall|i: int| 0 <= i < s.len() ==> is_ascii_digit(#[trigger] s[i])
}

/// What `str::parse::<i64>` accepts: an optional sign, then decimal digits,
/// whose value fits in an `i64`.
pub open spec fn parse_i64(s: Seq<char>) -> Option<i64> {
    let neg = s.len() > 0 && s[0] == '-';
    let d = if s.len() > 0 && (s[0] == '-' || s[0] == '+') {
        s.skip(1)
    } else {
        s
    };
    let v = if neg {
        -decimal_value(d)
    } else {
        decimal_value(d)
    };
    if all_digits(d) && i64::MIN <= v <= i64::MAX {
        Some(v as i64)
    } else {
        None
    }
}

/// The characters of a byte string, one per byte.
pub open spec fn ascii_chars(b: Seq<u8>) -> Seq<char> {
    b.map_values(|x: u8| x as char)
}

/// What `str::parse::<u64>` accepts of the text of these bytes: an optional
/// `+`, then decimal digits, whose value fits in a `u64`. (A byte outside
/// ASCII is never a digit, whatever it decodes to.)
pub open spec fn parse_u64(b: Seq<u8>) -> Option<u64> {
    let s = ascii_chars(b);
    let d = if s.len() > 0 && s[0] == '+' {
        s.skip(1)
    } else {
        s
    };
    if all_digits(d) && decimal_value(d) <= u64::MAX {
        Some(decimal_value(d) as u64)
    } else {
        None
    }
}

/// A string of digits has a value of at least zero.
pub proof fn lemma_decimal_nonneg(s: Seq<char>)
    requires
        forall|i: int| 0 <= i < s.len() ==> is_ascii_digit(#[trigger] s[i]),
    ensures
        decimal_value(s) >= 0,
    decreases s.len(),
{
    if s.len() > 0 {
        assert(is_ascii_digit(s[s.len() - 1]));
        lemma_decimal_nonneg(s.drop_last());
    }
}

/// Among digit strings, a longer one has at least the value of its prefix.
pub proof fn lemma_decimal_prefix(s: Seq<char>, j: int, k: int)
    requires
        0 <= j <= k <= s.len(),
        forall|i: int| 0 <= i < s.len() ==> is_ascii_digit(#[trigger] s[i]),
    ensures
        decimal_value(s.take(j)) <= decimal_value(s.take(k)),
    decreases k - j,
{
    if j < k {
        lemma_decimal_prefix(s, j, k - 1);
        assert(s.take(k).drop_last() =~= s.take(k - 1));
        assert(is_ascii_digit(s[k - 1]));
        lemma_decimal_nonneg(s.take(k - 1));
    }
}

/// Reads the digits `d[from..]`, at most `limit` in value; `None` when one is
/// not a digit or the value exceeds `limit`.
fn digits_up_to(d: &Vec<char>, from: usize, limit: u64) -> (r: Option<u64>)
    requires
        from <= d.len(),
        limit >= 9,
    ensures
        match r {
            Some(v) => all_digits(d@.skip(from as int)) && v == decimal_value(d@.skip(from as int))
                && v <= limit,
            None => !all_digits(d@.skip(from as int)) || decimal_value(d@.skip(from as int))
                > limit,
        },
{
    let ghost s = d@.skip(from as int);
    if from == d.len() {
        return None;
    }
    let mut acc: u64 = 0;
    let mut i: usize = from;
    assert(s.take(0) =~= Seq::<char>::empty());
    while i < d.len()
        invariant
            from <= i <= d.len(),
            s == d@.skip(from as int),
            s.len() > 0,
            forall|k: int| 0 <= k < i - from ==> is_ascii_digit(#[trigger] s[k]),
            acc == decimal_value(s.take(i - from)),
            acc <= limit,
            limit >= 9,
        decreases d.len() - i,
    {
        let c = d[i];
        if !ascii_digit(c) {
            assert(!is_ascii_digit(s[i - from]));
            return None;
        }
        let x: u64 = (c as u32 - 48) as u64;
        assert(s.take(i - from + 1).drop_last() =~= s.take(i - from));
        assert(s.take(i - from + 1).last() == c);
        if acc > (limit - x) / 10 {
            proof {
                assert(acc * 10 + x > limit) by (nonlinear_arith)
                    requires
                        acc > (limit - x) / 10,
                        x <= 9,
                        limit >= 9,
                ;
                if all_digits(s) {
                    lemma_decimal_prefix(s, i - from + 1, s.len() as int);
                    assert(s.take(s.len() as int) =~= s);
                }
            }
            return None;
        }
        proof {
            assert(acc * 10 + x <= limit) by (nonlinear_arith)
                requires
                    acc <= (limit - x) / 10,
                    x <= 9,
            ;
        }
        acc = acc * 10 + x;
        i = i + 1;
    }
    assert(s.take(s.len() as int) =~= s);
    Some(acc)
}

/// `str::parse::<i64>`.
pub fn parse_i64_str(s: &str) -> (r: Option<i64>)
    ensures
        r == parse_i64(s@),
{
    let cs = chars_of(s);
    let neg = cs.len() > 0 && cs[0] == '-';
    let from: usize = if cs.len() > 0 && (cs[0] == '-' || cs[0] == '+') {
        1
    } else {
        0
    };
    proof {
        if from == 0 {
            assert(cs@.skip(0) =~= cs@);
        }
    }
    if neg {
        match digits_up_to(&cs, from, 0x8000_0000_0000_0000u64) {
            Some(v) => {
                if v == 0x8000_0000_0000_0000u64 {
                    Some(i64::MIN)
                } else {
                    Some(-(v as i64))
                }
            },
            None => None,
        }
    } else {
        match digits_up_to(&cs, from, 0x7fff_ffff_ffff_ffffu64) {
            Some(v) => Some(v as i64),
            None => None,
        }
    }
}

/// `str::parse::<u64>` of the text of a byte string.
pub fn parse_u64_bytes(b: &[u8]) -> (r: Option<u64>)
    ensures
        r == parse_u64(b@),
{
    let mut cs: Vec<char> = Vec::new();
    let mut i: usize = 0;
    while i < b.len()
        invariant
            i <= b.len(),
            cs@ == ascii_chars(b@.take(i as int)),
        decreases b.len() - i,
    {
        cs.push(b[i] as char);
        i = i + 1;
        assert(cs@ =~= ascii_chars(b@.take(i as int)));
    }
    assert(b@.take(b.len() as int) =~= b@);
    let from: usize = if cs.len() > 0 && cs[0] == '+' {
        1
    } else {
        0
    };
    proof {
        if from == 0 {
            assert(cs@.skip(0) =~= cs@);
        }
    }
    digits_up_to(&cs, from, u64::MAX)
}

/// The decimal digits of a number are ASCII digits, at least one.
pub proof fn lemma_nat_decimal_digits(n: nat)
    ensures
        nat_decimal(n).len() > 0,
        forall|i: int| 0 <= i < nat_decimal(n).len() ==> is_ascii_digit(#[trigger] nat_decimal(n)[i]),
    decreases n,
{
    if n >= 10 {
        lemma_nat_decimal_digits(n / 10);
        let d = nat_decimal(n / 10);
        assert forall|i: int| 0 <= i < nat_decimal(n).len() implies is_ascii_digit(
            #[trigger] nat_decimal(n)[i],
        ) by {
            if i < d.len() {
                assert(nat_decimal(n)[i] == d[i]);
            }
        }
    }
}

/// Reading the decimal digits of a number gives the number.
pub proof fn lemma_nat_decimal_value(n: nat)
    ensures
        decimal_value(nat_decimal(n)) == n,
    decreases n,
{
    if n >= 10 {
        lemma_nat_decimal_value(n / 10);
        assert(nat_decimal(n).drop_last() =~= nat_decimal(n / 10));
        let d = (n % 10) as int;
        assert(digit_char(d) as int == 48 + d);
        assert(nat_decimal(n).last() == digit_char(d));
        assert(n == (n / 10) * 10 + d);
        assert('0' as int == 48);
        assert(nat_decimal(n).len() > 0);
        assert(decimal_value(nat_decimal(n)) == decimal_value(nat_decimal(n / 10)) * 10 + (
        digit_char(d) as int - '0' as int));
    } else {
        assert('0' as int == 48);
        assert(decimal_value(Seq::<char>::empty()) == 0);
        assert(nat_decimal(n).drop_last() =~= Seq::<char>::empty());
        assert(digit_char(n as int) as int == 48 + n);
    }
}

/// `parse::<u64>` reads back the UTF-8 decimal text of a `u64`.
pub proof fn lemma_parse_decimal(n: u64)
    ensures
        parse_u64(vstd::utf8::encode_utf8(nat_decimal(n as nat))) == Some(n),
{
    let s = nat_decimal(n as nat);
    lemma_nat_decimal_digits(n as nat);
    lemma_nat_decimal_value(n as nat);
    assert(vstd::utf8::is_ascii_chars(s)) by {
        assert forall|i: int| 0 <= i < s.len() implies '\0' <= #[trigger] s[i] <= '\u{7f}' by {
            assert(is_ascii_digit(s[i]));
        }
    }
    vstd::utf8::is_ascii_chars_encode_utf8(s);
    let b = vstd::utf8::encode_utf8(s);
    assert forall|i: int| 0 <= i < s.len() implies #[trigger] ascii_chars(b)[i] == s[i] by {
        let c = s[i];
        assert(is_ascii_digit(c));
        assert(b[i] == c as u8);
        assert(('0' <= c && c <= '9') ==> ((c as u8) as char) == c);
    }
    assert(ascii_chars(b) =~= s);
    assert(is_ascii_digit(s[0]));
}

} // verus!
