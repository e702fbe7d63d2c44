//! Money codec: exact conversion between decimal price strings and integer
//! minor units (cents).
//!
//! A well-formed price string is one or more ASCII digits, a single literal
//! `.`, and exactly two trailing ASCII digits (`"12.34"`, `"0.05"`). Parsing
//! strips the point and reads the digits as an unsigned integer; formatting
//! inverts that, left-padding with `'0'` so the fractional part always has
//! two digits.

use vstd::prelude::*;

verus! {

/// A character is one of the ten ASCII decimal digits.
pub open spec fn is_digit(c: char) -> bool {
    '0' <= c && c <= '9'
}

/// Numeric value of an ASCII digit character.
pub open spec fn digit_val(c: char) -> int {
    c as int - '0' as int
}

/// Every character of `s` is an ASCII decimal digit.
pub open spec fn all_digits(s: Seq<char>) -> bool {
    forall|i: int| 0 <= i < s.len() ==> is_digit(#[trigger] s[i])
}

/// Value of a big-endian sequence of decimal digit characters.
pub open spec fn digits_val(s: Seq<char>) -> int
    decreases s.len(),
{
    if s.len() == 0 {
        0
    } else {
        digits_val(s.drop_last()) * 10 + digit_val(s.last())
    }
}

/// A well-formed price string: one or more digits, a literal point, exactly
/// two trailing digits, nothing else.
pub open spec fn is_valid_price(s: Seq<char>) -> bool {
    &&& s.len() >= 4
    &&& all_digits(s.subrange(0, s.len() - 3))
    &&& s[s.len() - 3] == '.'
    &&& is_digit(s[s.len() - 2])
    &&& is_digit(s[s.len() - 1])
}

/// The digits of a well-formed price string with the decimal point removed.
pub open spec fn price_digits(s: Seq<char>) -> Seq<char> {
    s.subrange(0, s.len() - 3) + s.subrange(s.len() - 2, s.len() as int)
}

/// Minor-unit value of a well-formed price string.
pub open spec fn price_val(s: Seq<char>) -> int {
    digits_val(price_digits(s))
}

/// ASCII whitespace stripped from both ends before validation.
pub open spec fn is_space(c: char) -> bool {
    c == ' ' || c == '\t' || c == '\n' || c == '\r'
}

/// `s` without its leading whitespace.
pub open spec fn trim_front(s: Seq<char>) -> Seq<char>
    decreases s.len(),
{
    if s.len() > 0 && is_space(s[0]) {
        trim_front(s.drop_first())
    } else {
        s
    }
}

/// `s` without its trailing whitespace.
pub open spec fn trim_back(s: Seq<char>) -> Seq<char>
    decreases s.len(),
{
    if s.len() > 0 && is_space(s.last()) {
        trim_back(s.drop_last())
    } else {
        s
    }
}

/// `s` without surrounding whitespace.
pub open spec fn spec_trim(s: Seq<char>) -> Seq<char> {
    trim_back(trim_front(s))
}

/// The digit character with value `d`.
pub open spec fn digit_char(d: int) -> char {
    if d == 0 {
        '0'
    } else if d == 1 {
        '1'
    } else if d == 2 {
        '2'
    } else if d == 3 {
        '3'
    } else if d == 4 {
        '4'
    } else if d == 5 {
        '5'
    } else if d == 6 {
        '6'
    } else if d == 7 {
        '7'
    } else if d == 8 {
        '8'
    } else {
        '9'
    }
}

/// Big-endian decimal digit characters of a non-negative integer, without
/// leading zeros (`digits_of(0) == seq!['0']`).
pub open spec fn digits_of(n: int) -> Seq<char>
    decreases n,
{
    if n <= 9 {
        seq![digit_char(n)]
    } else {
        digits_of(n / 10) + seq![digit_char(n % 10)]
    }
}

/// Left-pad a digit sequence with `'0'` to at least three characters, so a
/// formatted amount always has an integer digit and two fractional digits.
pub open spec fn pad3(s: Seq<char>) -> Seq<char> {
    if s.len() == 1 {
        seq!['0', '0'] + s
    } else if s.len() == 2 {
        seq!['0'] + s
    } else {
        s
    }
}

/// The price string a minor-unit amount formats to: the padded digits of its
/// magnitude with a point before the last two, and a leading `-` if negative.
pub open spec fn spec_format(v: int) -> Seq<char> {
    let m = if v < 0 {
        -v
    } else {
        v
    };
    let d = pad3(digits_of(m));
    let unsigned = d.subrange(0, d.len() - 2) + seq!['.'] + d.subrange(d.len() - 2, d.len() as int);
    if v < 0 {
        seq!['-'] + unsigned
    } else {
        unsigned
    }
}

/// The single-character string for a digit value.
fn digit_str(d: u32) -> (r: &'static str)
    requires
        d <= 9,
    ensures
        r@ == seq![digit_char(d as int)],
{
    proof {
        reveal_strlit("0");
        reveal_strlit("1");
        reveal_strlit("2");
        reveal_strlit("3");
        reveal_strlit("4");
        reveal_strlit("5");
        reveal_strlit("6");
        reveal_strlit("7");
        reveal_strlit("8");
        reveal_strlit("9");
    }
    let r = if d == 0 {
        "0"
    } else if d == 1 {
        "1"
    } else if d == 2 {
        "2"
    } else if d == 3 {
        "3"
    } else if d == 4 {
        "4"
    } else if d == 5 {
        "5"
    } else if d == 6 {
        "6"
    } else if d == 7 {
        "7"
    } else {
        "8"
    };
    let r = if d == 9 {
        "9"
    } else {
        r
    };
    proof {
        assert(r@ =~= seq![digit_char(d as int)]);
    }
    r
}

/// Decimal rendering of `n`, matching `digits_of`.
fn u32_digits(n: u32) -> (r: String)
    ensures
        r@ == digits_of(n as int),
    decreases n,
{
    if n <= 9 {
        String::from_str(digit_str(n))
    } else {
        let rest = u32_digits(n / 10);
        rest.concat(digit_str(n % 10))
    }
}

/// Render a signed minor-unit amount as a price string: `5` becomes
/// `"0.05"`, `100` becomes `"1.00"`, `-50` becomes `"-0.50"`.
pub fn fixed_point_to_price(num: i32) -> (r: String)
    requires
        num != i32::MIN,
    ensures
        r@ == spec_format(num as int),
{
    proof {
        reveal_strlit("-");
        reveal_strlit(".");
        reveal_strlit("0");
        reveal_strlit("00");
    }
    let is_negative = num < 0;
    let mag: u32 = if is_negative {
        (-num) as u32
    } else {
        num as u32
    };
    let mut price = u32_digits(mag);
    proof {
        lemma_digits_of_wf(mag as int);
    }
    let len = price.as_str().unicode_len();
    if len == 1 {
        price = String::from_str("00").concat(price.as_str());
    } else if len == 2 {
        price = String::from_str("0").concat(price.as_str());
    }
    proof {
        assert(price@ =~= pad3(digits_of(mag as int)));
    }
    let plen = price.as_str().unicode_len();
    let whole = price.as_str().substring_char(0, plen - 2);
    let frac = price.as_str().substring_char(plen - 2, plen);
    let mut out = String::new();
    if is_negative {
        out.append("-");
    }
    out.append(whole);
    out.append(".");
    out.append(frac);
    proof {
        assert(out@ =~= spec_format(num as int));
    }
    out
}

/// The digit rendering of a non-negative integer is non-empty and consists
/// of digit characters.
proof fn lemma_digits_of_wf(n: int)
    requires
        n >= 0,
    ensures
        digits_of(n).len() >= 1,
        all_digits(digits_of(n)),
    decreases n,
{
    if n <= 9 {
    } else {
        lemma_digits_of_wf(n / 10);
    }
}

/// `digit_char` and `digit_val` are inverse on digit values.
proof fn lemma_digit_char_val(d: int)
    requires
        0 <= d <= 9,
    ensures
        digit_val(digit_char(d)) == d,
        is_digit(digit_char(d)),
{
}

/// `digit_char` and `digit_val` are inverse on digit characters.
proof fn lemma_digit_char_inv(c: char)
    requires
        is_digit(c),
    ensures
        digit_char(digit_val(c)) == c,
{
}

/// A sequence of digit characters has a non-negative value.
proof fn lemma_digits_val_nonneg(s: Seq<char>)
    requires
        all_digits(s),
    ensures
        digits_val(s) >= 0,
    decreases s.len(),
{
    if s.len() > 0 {
        assert(all_digits(s.drop_last()));
        lemma_digits_val_nonneg(s.drop_last());
    }
}

/// Appending a digit multiplies the value by ten and adds the digit.
proof fn lemma_digits_val_push(s: Seq<char>, c: char)
    ensures
        digits_val(s.push(c)) == digits_val(s) * 10 + digit_val(c),
{
    assert(s.push(c).drop_last() =~= s);
    assert(s.push(c).last() == c);
}

/// A prefix of a digit sequence has a value no larger than the whole.
proof fn lemma_digits_val_prefix(s: Seq<char>, k: int)
    requires
        all_digits(s),
        0 <= k <= s.len(),
    ensures
        digits_val(s.take(k)) <= digits_val(s),
    decreases s.len() - k,
{
    if k == s.len() {
        assert(s.take(k) =~= s);
    } else {
        assert(s.take(k + 1).drop_last() =~= s.take(k));
        assert(s.take(k + 1).last() == s[k]);
        assert(all_digits(s.take(k)));
        lemma_digits_val_nonneg(s.take(k));
        lemma_digits_val_prefix(s, k + 1);
    }
}

/// `digits_val` inverts `digits_of`.
proof fn lemma_digits_val_digits_of(n: int)
    requires
        n >= 0,
    ensures
        digits_val(digits_of(n)) == n,
    decreases n,
{
    if n <= 9 {
        assert(digits_of(n).drop_last() =~= Seq::<char>::empty());
        assert(digits_val(Seq::<char>::empty()) == 0);
        assert(digits_val(digits_of(n).drop_last()) == 0);
        assert(digits_of(n).last() == digit_char(n));
        lemma_digit_char_val(n);
        assert(digits_val(digits_of(n)) == 0 * 10 + digit_val(digit_char(n)));
    } else {
        lemma_digits_val_digits_of(n / 10);
        lemma_digit_char_val(n % 10);
        assert(digits_of(n) =~= digits_of(n / 10).push(digit_char(n % 10)));
        lemma_digits_val_push(digits_of(n / 10), digit_char(n % 10));
        vstd::arithmetic::div_mod::lemma_fundamental_div_mod(n, 10);
    }
}

/// A leading zero does not change the value of a digit sequence.
proof fn lemma_digits_val_leading_zero(s: Seq<char>)
    ensures
        digits_val(seq!['0'] + s) == digits_val(s),
    decreases s.len(),
{
    if s.len() == 0 {
        assert((seq!['0'] + s) =~= seq!['0']);
        assert(seq!['0'].drop_last() =~= Seq::<char>::empty());
        assert(digits_val(seq!['0'].drop_last()) == 0);
        assert(seq!['0'].last() == '0');
        assert(digits_val(seq!['0']) == 0);
    } else {
        assert((seq!['0'] + s).drop_last() =~= seq!['0'] + s.drop_last());
        assert((seq!['0'] + s).last() == s.last());
        lemma_digits_val_leading_zero(s.drop_last());
        assert(digits_val(seq!['0'] + s) == digits_val((seq!['0'] + s).drop_last()) * 10 + digit_val(
            (seq!['0'] + s).last(),
        ));
        assert(digits_val((seq!['0'] + s).drop_last()) == digits_val(s.drop_last()));
    }
}

/// A digit sequence with a non-zero leading digit has a positive value.
proof fn lemma_digits_val_pos(s: Seq<char>)
    requires
        all_digits(s),
        s.len() >= 1,
        s[0] != '0',
    ensures
        digits_val(s) >= 1,
    decreases s.len(),
{
    if s.len() == 1 {
        assert(s.drop_last() =~= Seq::<char>::empty());
        assert(digits_val(Seq::<char>::empty()) == 0);
        assert(digits_val(s.drop_last()) == 0);
        assert(s.last() == s[0]);
        assert(digits_val(s) == 0 * 10 + digit_val(s[0]));
        lemma_digit_char_inv(s[0]);
        assert(digit_val(s[0]) >= 1);
    } else {
        assert(all_digits(s.drop_last()));
        lemma_digits_val_pos(s.drop_last());
        assert(digit_val(s.last()) >= 0);
    }
}

/// `digits_of` inverts `digits_val` on digit sequences without a
/// superfluous leading zero.
proof fn lemma_digits_of_digits_val(d: Seq<char>)
    requires
        all_digits(d),
        d.len() >= 1,
        d.len() == 1 || d[0] != '0',
    ensures
        digits_of(digits_val(d)) == d,
    decreases d.len(),
{
    lemma_digits_val_nonneg(d);
    if d.len() == 1 {
        assert(d.drop_last() =~= Seq::<char>::empty());
        assert(digits_val(Seq::<char>::empty()) == 0);
        assert(digits_val(d.drop_last()) == 0);
        assert(d.last() == d[0]);
        assert(digits_val(d) == 0 * 10 + digit_val(d[0]));
        assert(0 <= digit_val(d[0]) <= 9);
        lemma_digit_char_inv(d[0]);
        assert(digits_of(digits_val(d)) =~= d);
    } else {
        let dp = d.drop_last();
        assert(all_digits(dp));
        lemma_digits_val_pos(dp);
        lemma_digits_of_digits_val(dp);
        let v = digits_val(d);
        assert(v == digits_val(dp) * 10 + digit_val(d.last()));
        assert(0 <= digit_val(d.last()) <= 9);
        assert(v / 10 == digits_val(dp) && v % 10 == digit_val(d.last())) by {
            assert(v == digits_val(dp) * 10 + digit_val(d.last()));
            assert(digits_val(dp) >= 1);
            assert(v / 10 == digits_val(dp) && v % 10 == digit_val(d.last())) by (nonlinear_arith)
                requires
                    v == digits_val(dp) * 10 + digit_val(d.last()),
                    0 <= digit_val(d.last()) <= 9,
                    digits_val(dp) >= 0,
            ;
        }
        assert(v >= 10);
        lemma_digit_char_inv(d.last());
        assert(digits_of(v) =~= d);
    }
}

/// The digits of a well-formed price string are all digit characters, and
/// its value is non-negative.
proof fn lemma_price_digits_all_digits(s: Seq<char>)
    requires
        is_valid_price(s),
    ensures
        all_digits(price_digits(s)),
        price_digits(s).len() == s.len() - 1,
        price_val(s) >= 0,
{
    let d = price_digits(s);
    assert forall|i: int| 0 <= i < d.len() implies is_digit(#[trigger] d[i]) by {
        if i < s.len() - 3 {
            assert(d[i] == s.subrange(0, s.len() - 3)[i]);
        } else {
            assert(d[i] == s.subrange(s.len() - 2, s.len() as int)[i - (s.len() - 3)]);
        }
    }
    lemma_digits_val_nonneg(d);
}

/// A well-formed price string holds no whitespace, so trimming leaves it
/// unchanged.
proof fn lemma_trim_of_valid(s: Seq<char>)
    requires
        is_valid_price(s),
    ensures
        spec_trim(s) == s,
{
    assert(s.subrange(0, s.len() - 3)[0] == s[0]);
    assert(is_digit(s[0]));
    assert(!is_space(s[0]));
    assert(s.last() == s[s.len() - 1]);
    assert(!is_space(s.last()));
    assert(trim_front(s) == s);
    assert(trim_back(s) == s);
}

/// `trim_front` drops exactly the run of leading whitespace.
proof fn lemma_trim_front_at(s: Seq<char>, i: int)
    requires
        0 <= i <= s.len(),
        forall|k: int| 0 <= k < i ==> is_space(#[trigger] s[k]),
        i == s.len() || !is_space(s[i]),
    ensures
        trim_front(s) == s.subrange(i, s.len() as int),
    decreases i,
{
    if i == 0 {
        assert(s.subrange(0, s.len() as int) =~= s);
    } else {
        assert(is_space(s[0]));
        assert forall|k: int| 0 <= k < i - 1 implies is_space(#[trigger] s.drop_first()[k]) by {
            assert(s.drop_first()[k] == s[k + 1]);
        }
        if i - 1 < s.drop_first().len() {
            assert(s.drop_first()[i - 1] == s[i]);
        }
        lemma_trim_front_at(s.drop_first(), i - 1);
        assert(s.drop_first().subrange(i - 1, s.drop_first().len() as int) =~= s.subrange(
            i,
            s.len() as int,
        ));
    }
}

/// `trim_back` drops exactly the run of trailing whitespace.
proof fn lemma_trim_back_at(s: Seq<char>, j: int)
    requires
        0 <= j <= s.len(),
        forall|k: int| j <= k < s.len() ==> is_space(#[trigger] s[k]),
        j == 0 || !is_space(s[j - 1]),
    ensures
        trim_back(s) == s.subrange(0, j),
    decreases s.len() - j,
{
    if j == s.len() {
        assert(s.subrange(0, j) =~= s);
    } else {
        assert(is_space(s[s.len() - 1]));
        assert(is_space(s.last()));
        assert forall|k: int| j <= k < s.drop_last().len() implies is_space(
            #[trigger] s.drop_last()[k],
        ) by {
            assert(s.drop_last()[k] == s[k]);
        }
        if j > 0 {
            assert(s.drop_last()[j - 1] == s[j - 1]);
        }
        lemma_trim_back_at(s.drop_last(), j);
        assert(s.drop_last().subrange(0, j) =~= s.subrange(0, j));
    }
}

/// Whitespace test matching `is_space`.
fn is_space_char(c: char) -> (r: bool)
    ensures
        r == is_space(c),
{
    c == ' ' || c == '\t' || c == '\n' || c == '\r'
}

/// Strip surrounding whitespace, matching `spec_trim`.
fn trim_str(s: &str) -> (r: &str)
    ensures
        r@ == spec_trim(s@),
{
    let n = s.unicode_len();
    let mut i: usize = 0;
    while i < n && is_space_char(s.get_char(i))
        invariant
            n == s@.len(),
            i <= n,
            forall|k: int| 0 <= k < i ==> is_space(#[trigger] s@[k]),
        decreases n - i,
    {
        i = i + 1;
    }
    let mut j: usize = n;
    while j > i && is_space_char(s.get_char(j - 1))
        invariant
            n == s@.len(),
            i <= j <= n,
            forall|k: int| j <= k < n ==> is_space(#[trigger] s@[k]),
        decreases j,
    {
        j = j - 1;
    }
    proof {
        lemma_trim_front_at(s@, i as int);
        let t = s@.subrange(i as int, s@.len() as int);
        assert forall|k: int| j - i <= k < t.len() implies is_space(#[trigger] t[k]) by {
            assert(t[k] == s@[k + i]);
        }
        if j > i {
            assert(t[j - i - 1] == s@[j - 1]);
        }
        lemma_trim_back_at(t, j as int - i as int);
        assert(t.subrange(0, j as int - i as int) =~= s@.subrange(i as int, j as int));
    }
    s.substring_char(i, j)
}

/// Check the price pattern: one or more digits, a literal point, exactly
/// two trailing digits, nothing else.
pub fn check_price_format(s: &str) -> (r: bool)
    ensures
        r == is_valid_price(s@),
{
    let n = s.unicode_len();
    if n < 4 {
        return false;
    }
    let mut i: usize = 0;
    while i < n - 3
        invariant
            n == s@.len(),
            4 <= n,
            i <= n - 3,
            forall|k: int| 0 <= k < i ==> is_digit(#[trigger] s@[k]),
        decreases n - i,
    {
        let c = s.get_char(i);
        if !(c >= '0' && c <= '9') {
            proof {
                assert(s@.subrange(0, n as int - 3)[i as int] == s@[i as int]);
            }
            return false;
        }
        i = i + 1;
    }
    let p = s.get_char(n - 3);
    if p != '.' {
        return false;
    }
    let c1 = s.get_char(n - 2);
    if !(c1 >= '0' && c1 <= '9') {
        return false;
    }
    let c2 = s.get_char(n - 1);
    if !(c2 >= '0' && c2 <= '9') {
        return false;
    }
    proof {
        assert forall|k: int| 0 <= k < s@.len() - 3 implies is_digit(
            #[trigger] s@.subrange(0, s@.len() - 3)[k],
        ) by {
            assert(s@.subrange(0, s@.len() - 3)[k] == s@[k]);
        }
    }
    true
}

/// The digits among the first `i` characters of a well-formed price string,
/// the point skipped.
pub open spec fn digits_upto(s: Seq<char>, i: int) -> Seq<char> {
    if i <= s.len() - 3 {
        s.subrange(0, i)
    } else {
        s.subrange(0, s.len() - 3) + s.subrange(s.len() - 2, i)
    }
}

/// Extending the scanned region by one character appends that character's
/// digit, or nothing at the decimal point.
proof fn lemma_digits_upto_step(s: Seq<char>, i: int)
    requires
        s.len() >= 4,
        0 <= i < s.len(),
    ensures
        i == s.len() - 3 ==> digits_upto(s, i + 1) == digits_upto(s, i),
        i != s.len() - 3 ==> digits_upto(s, i + 1) == digits_upto(s, i).push(s[i]),
{
    if i == s.len() - 3 {
        assert(digits_upto(s, i + 1) =~= digits_upto(s, i));
    } else {
        assert(digits_upto(s, i + 1) =~= digits_upto(s, i).push(s[i]));
    }
}

/// The scanned digits are a prefix of the full digit sequence.
proof fn lemma_digits_upto_prefix(s: Seq<char>, i: int)
    requires
        s.len() >= 4,
        0 <= i <= s.len(),
    ensures
        i <= s.len() - 3 ==> digits_upto(s, i) == price_digits(s).take(i),
        i > s.len() - 3 ==> digits_upto(s, i) == price_digits(s).take(i - 1),
{
    if i <= s.len() - 3 {
        assert(digits_upto(s, i) =~= price_digits(s).take(i));
    } else {
        assert(digits_upto(s, i) =~= price_digits(s).take(i - 1));
    }
}

/// Parse a price string into minor units: trim surrounding whitespace,
/// validate the two-decimal format, strip the point and read the digits.
/// `None` exactly when the trimmed string is not a well-formed price or its
/// value does not fit in `u32`.
pub fn parse_price(s: &str) -> (r: Option<u32>)
    ensures
        match r {
            Some(v) => is_valid_price(spec_trim(s@)) && price_val(spec_trim(s@)) <= u32::MAX
                && v as int == price_val(spec_trim(s@)),
            None => !(is_valid_price(spec_trim(s@)) && price_val(spec_trim(s@)) <= u32::MAX),
        },
{
    let t = trim_str(s);
    if !check_price_format(t) {
        return None;
    }
    proof {
        lemma_price_digits_all_digits(t@);
    }
    let n = t.unicode_len();
    let mut acc: u32 = 0;
    let mut i: usize = 0;
    while i < n
        invariant
            t@ == spec_trim(s@),
            is_valid_price(t@),
            n == t@.len(),
            i <= n,
            all_digits(price_digits(t@)),
            price_digits(t@).len() == n - 1,
            acc as int == digits_val(digits_upto(t@, i as int)),
        decreases n - i,
    {
        proof {
            lemma_digits_upto_step(t@, i as int);
        }
        if i != n - 3 {
            let c = t.get_char(i);
            proof {
                if i < n - 3 {
                    assert(t@.subrange(0, n as int - 3)[i as int] == t@[i as int]);
                }
                assert(is_digit(t@[i as int]));
                lemma_digits_upto_prefix(t@, i as int + 1);
                lemma_digits_val_push(digits_upto(t@, i as int), t@[i as int]);
            }
            let d = c as u32 - '0' as u32;
            if acc > (u32::MAX - d) / 10 {
                proof {
                    let ghost k: int = if i as int + 1 <= n as int - 3 {
                        i as int + 1
                    } else {
                        i as int
                    };
                    assert(acc as int * 10 + d as int > u32::MAX as int);
                    assert(digits_val(price_digits(t@).take(k)) == acc as int * 10 + d as int);
                    lemma_digits_val_prefix(price_digits(t@), k);
                }
                return None;
            }
            acc = acc * 10 + d;
            i = i + 1;
        } else {
            i = i + 1;
        }
    }
    proof {
        assert(digits_upto(t@, n as int) =~= price_digits(t@));
    }
    Some(acc)
}

/// Minor-unit value of a well-formed price string; the inverse of
/// `fixed_point_to_price` on non-negative amounts.
pub fn price_to_fixed_point(price_str: &str) -> (r: u32)
    requires
        is_valid_price(price_str@),
        price_val(price_str@) <= u32::MAX,
    ensures
        r as int == price_val(price_str@),
{
    proof {
        lemma_trim_of_valid(price_str@);
    }
    match parse_price(price_str) {
        Some(v) => v,
        None => {
            proof {
                assert(false);
            }
            0
        },
    }
}

/// Round-trip law, first direction: formatting a non-negative minor-unit
/// amount yields a well-formed price string that parses back to the same
/// amount.
pub proof fn lemma_parse_format_round_trip(v: int)
    requires
        v >= 0,
    ensures
        is_valid_price(spec_format(v)),
        price_val(spec_format(v)) == v,
{
    lemma_digits_of_wf(v);
    lemma_digits_val_digits_of(v);
    let d0 = digits_of(v);
    let d = pad3(d0);
    if d0.len() == 1 {
        assert(d =~= seq!['0'] + (seq!['0'] + d0));
        lemma_digits_val_leading_zero(d0);
        lemma_digits_val_leading_zero(seq!['0'] + d0);
    } else if d0.len() == 2 {
        lemma_digits_val_leading_zero(d0);
    }
    assert(digits_val(d) == v);
    assert(d.len() >= 3);
    assert forall|k: int| 0 <= k < d.len() implies is_digit(#[trigger] d[k]) by {
        if d0.len() == 1 {
            if k >= 2 {
                assert(d[k] == d0[k - 2]);
            }
        } else if d0.len() == 2 {
            if k >= 1 {
                assert(d[k] == d0[k - 1]);
            }
        }
    }
    let s = spec_format(v);
    assert(s == d.subrange(0, d.len() - 2) + seq!['.'] + d.subrange(d.len() - 2, d.len() as int));
    assert(s.len() == d.len() + 1);
    assert(s.subrange(0, s.len() - 3) =~= d.subrange(0, d.len() - 2));
    assert forall|k: int| 0 <= k < s.len() - 3 implies is_digit(
        #[trigger] s.subrange(0, s.len() - 3)[k],
    ) by {
        assert(s.subrange(0, s.len() - 3)[k] == d[k]);
    }
    assert(s[s.len() - 3] == '.');
    assert(s[s.len() - 2] == d[d.len() - 2]);
    assert(s[s.len() - 1] == d[d.len() - 1]);
    assert(is_valid_price(s));
    assert(price_digits(s) =~= d);
}

/// Round-trip law, second direction: a well-formed price string without a
/// superfluous leading zero is exactly reproduced by formatting its parsed
/// value. (A string such as `"007.00"` is accepted by parsing but formats
/// back to its canonical form `"7.00"`, so the law is stated for canonical
/// strings.)
pub proof fn lemma_format_parse_canonical(s: Seq<char>)
    requires
        is_valid_price(s),
        s.len() == 4 || s[0] != '0',
    ensures
        spec_format(price_val(s)) == s,
{
    lemma_price_digits_all_digits(s);
    let d = price_digits(s);
    let v = price_val(s);
    assert(d.len() == s.len() - 1 >= 3);
    assert(d[0] == s.subrange(0, s.len() - 3)[0] == s[0]);
    if s.len() >= 5 {
        lemma_digits_of_digits_val(d);
        assert(pad3(digits_of(v)) == d);
        assert(spec_format(v) =~= s);
    } else {
        assert(s.len() == 4 && d.len() == 3);
        if d[0] != '0' {
            lemma_digits_of_digits_val(d);
            assert(pad3(digits_of(v)) == d);
            assert(spec_format(v) =~= s);
        } else {
            let bc = d.subrange(1, 3);
            assert(d =~= seq!['0'] + bc);
            lemma_digits_val_leading_zero(bc);
            assert(v == digits_val(bc));
            assert(is_digit(bc[0]) && is_digit(bc[1]));
            if bc[0] != '0' {
                lemma_digits_of_digits_val(bc);
                assert(digits_of(v) == bc);
                assert(pad3(digits_of(v)) =~= d);
                assert(spec_format(v) =~= s);
            } else {
                let c = d.subrange(2, 3);
                assert(bc =~= seq!['0'] + c);
                lemma_digits_val_leading_zero(c);
                assert(v == digits_val(c));
                assert(is_digit(c[0]));
                lemma_digits_of_digits_val(c);
                assert(digits_of(v) == c);
                assert(pad3(digits_of(v)) =~= d);
                assert(spec_format(v) =~= s);
            }
        }
    }
}

} // verus!
