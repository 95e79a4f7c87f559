//! Text operations on cells: decimal rendering and parsing of integers, and
//! the string transforms, with what each one computes stated over `Seq<char>`.
use vstd::prelude::*;

verus! {

/// The ASCII digit for `d` (`0 <= d < 10`).
pub open spec fn digit_char(d: nat) -> char {
    (d + 48) as char
}

/// Decimal digits of a natural number, most significant first, no padding.
pub open spec fn nat_text(n: nat) -> Seq<char>
    decreases n,
{
    if n < 10 {
        seq![digit_char(n)]
    } else {
        nat_text(n / 10) + seq![digit_char(n % 10)]
    }
}

/// Decimal text of an integer: a `-` before negative numbers, nothing before
/// the others.
pub open spec fn int_text(i: int) -> Seq<char> {
    if i < 0 {
        seq!['-'] + nat_text((-i) as nat)
    } else {
        nat_text(i as nat)
    }
}

pub open spec fn is_ascii_digit(c: char) -> bool {
    48 <= c as int <= 57
}

/// The value of a run of ASCII decimal digits.
pub open spec fn digits_value(s: Seq<char>) -> int
    decreases s.len(),
{
    if s.len() == 0 {
        0
    } else {
        digits_value(s.drop_last()) * 10 + (s.last() as int - 48)
    }
}

/// Every character is an ASCII decimal digit.
pub open spec fn all_digits(b: Seq<char>) -> bool {
    forall|i: int| 0 <= i < b.len() ==> is_ascii_digit(#[trigger] b[i])
}

/// The text starts with `+` or `-`.
pub open spec fn has_sign(s: Seq<char>) -> bool {
    s.len() > 0 && (s[0] == '+' || s[0] == '-')
}

/// The text after its sign, if it has one.
pub open spec fn unsigned_part(s: Seq<char>) -> Seq<char> {
    if has_sign(s) {
        s.skip(1)
    } else {
        s
    }
}

/// What `str::parse::<i64>` accepts: an optional `+` or `-`, then at least
/// one ASCII digit and nothing else, with a value that fits in `i64`.
pub open spec fn decimal_i64(s: Seq<char>) -> Option<i64> {
    let body = unsigned_part(s);
    let magnitude = digits_value(body);
    let v = if has_sign(s) && s[0] == '-' {
        -magnitude
    } else {
        magnitude
    };
    if body.len() > 0 && all_digits(body) && i64::MIN <= v <= i64::MAX {
        Some(v as i64)
    } else {
        None
    }
}

/// The decimal digits of a natural number read back give the number.
pub proof fn lemma_nat_text_digits(n: nat)
    ensures
        nat_text(n).len() > 0,
        forall|i: int| 0 <= i < nat_text(n).len() ==> is_ascii_digit(#[trigger] nat_text(n)[i]),
        digits_value(nat_text(n)) == n,
    decreases n,
{
    if n < 10 {
        assert(digit_char(n) as int == n + 48);
        let s = nat_text(n);
        assert(s.drop_last() =~= Seq::<char>::empty());
        assert(s.last() == digit_char(n));
        assert(digits_value(s) == digits_value(s.drop_last()) * 10 + (s.last() as int - 48));
    } else {
        let q = n / 10;
        let d = n % 10;
        vstd::arithmetic::div_mod::lemma_fundamental_div_mod(n as int, 10);
        lemma_nat_text_digits(q);
        let s = nat_text(n);
        assert(s == nat_text(q) + seq![digit_char(d)]);
        assert(s.drop_last() =~= nat_text(q));
        assert(digit_char(d) as int == d + 48);
        assert(s.last() == digit_char(d));
        assert(digits_value(s) == digits_value(s.drop_last()) * 10 + (s.last() as int - 48));
        assert(digits_value(s) == q * 10 + d);
        assert forall|i: int| 0 <= i < s.len() implies is_ascii_digit(#[trigger] s[i]) by {
            if i < s.len() - 1 {
                assert(s[i] == nat_text(q)[i]);
            }
        }
    }
}

/// The decimal text of an `i64` parses back to it.
pub proof fn lemma_int_text_parses(i: i64)
    ensures
        decimal_i64(int_text(i as int)) == Some(i),
{
    if i < 0 {
        let m = (-(i as int)) as nat;
        lemma_nat_text_digits(m);
        let s = int_text(i as int);
        assert(s.skip(1) =~= nat_text(m));
    } else {
        lemma_nat_text_digits(i as nat);
        let s = nat_text(i as nat);
        assert(is_ascii_digit(s[0]));
    }
}

/// ASCII lower case of one character; other characters are kept.
pub open spec fn ascii_lower_char(c: char) -> char {
    if 65 <= c as int <= 90 {
        (c as int + 32) as char
    } else {
        c
    }
}

pub open spec fn ascii_lower(s: Seq<char>) -> Seq<char> {
    s.map_values(|c: char| ascii_lower_char(c))
}

/// Unicode `White_Space`, the set that `char::is_whitespace` tests.
pub open spec fn is_white_space(c: char) -> bool {
    let x = c as int;
    ||| 0x9 <= x <= 0xd
    ||| x == 0x20
    ||| x == 0x85
    ||| x == 0xa0
    ||| x == 0x1680
    ||| 0x2000 <= x <= 0x200a
    ||| x == 0x2028
    ||| x == 0x2029
    ||| x == 0x202f
    ||| x == 0x205f
    ||| x == 0x3000
}

/// Number of white-space characters at the start of `s`.
pub open spec fn leading_white(s: Seq<char>) -> nat
    decreases s.len(),
{
    if s.len() > 0 && is_white_space(s[0]) {
        1 + leading_white(s.skip(1))
    } else {
        0
    }
}

/// Number of white-space characters at the end of `s`.
pub open spec fn trailing_white(s: Seq<char>) -> nat
    decreases s.len(),
{
    if s.len() > 0 && is_white_space(s.last()) {
        1 + trailing_white(s.drop_last())
    } else {
        0
    }
}

/// `s` without its leading and trailing white space.
pub open spec fn trimmed(s: Seq<char>) -> Seq<char> {
    let rest = s.skip(leading_white(s) as int);
    rest.take(rest.len() - trailing_white(rest))
}

/// The pieces of `s[start..]` between non-overlapping matches of a non-empty
/// `sep`, found left to right from position `i` on; `start` is where the
/// current piece began.
pub open spec fn pieces_from(s: Seq<char>, sep: Seq<char>, start: int, i: int) -> Seq<Seq<char>>
    decreases s.len() - i,
{
    if sep.len() == 0 || i < start || i + sep.len() > s.len() {
        seq![s.subrange(start, s.len() as int)]
    } else if s.subrange(i, i + sep.len()) == sep {
        seq![s.subrange(start, i)] + pieces_from(s, sep, i + sep.len(), i + sep.len())
    } else {
        pieces_from(s, sep, start, i + 1)
    }
}

/// What `str::split` yields for a string pattern: for a non-empty separator,
/// the text between its matches; for the empty separator, every character on
/// its own with an empty piece before the first and after the last.
pub open spec fn split_pieces(s: Seq<char>, sep: Seq<char>) -> Seq<Seq<char>> {
    if sep.len() == 0 {
        seq![Seq::<char>::empty()] + Seq::new(s.len(), |i: int| seq![s[i]]) + seq![
            Seq::<char>::empty(),
        ]
    } else {
        pieces_from(s, sep, 0, 0)
    }
}

/// The pieces joined, with `sep` between each two.
pub open spec fn join(pieces: Seq<Seq<char>>, sep: Seq<char>) -> Seq<char>
    decreases pieces.len(),
{
    if pieces.len() == 0 {
        Seq::empty()
    } else if pieces.len() == 1 {
        pieces[0]
    } else {
        join(pieces.drop_last(), sep) + sep + pieces.last()
    }
}

/// What `str::replace` computes: every match of `from` replaced by `to`.
pub open spec fn replaced(s: Seq<char>, from: Seq<char>, to: Seq<char>) -> Seq<char> {
    join(split_pieces(s, from), to)
}

/// What `str::lines` yields: the text split at each `\n`, without the empty
/// piece after a final `\n`, and without the `\r` of a `\r\n` ending.
pub open spec fn text_lines(s: Seq<char>) -> Seq<Seq<char>> {
    let ps = split_pieces(s, seq!['\n']);
    let n: int = if ps.len() > 0 && ps.last().len() == 0 {
        ps.len() - 1
    } else {
        ps.len() as int
    };
    Seq::new(
        n as nat,
        |i: int|
            if i < ps.len() - 1 && ps[i].len() > 0 && ps[i].last() == '\r' {
                ps[i].drop_last()
            } else {
                ps[i]
            },
    )
}

/// Name for the full Unicode upper-case mapping that `str::to_uppercase` applies.
pub uninterp spec fn unicode_upper(s: Seq<char>) -> Seq<char>;

/// Name for the full Unicode lower-case mapping that `str::to_lowercase` applies.
pub uninterp spec fn unicode_lower(s: Seq<char>) -> Seq<char>;

/// Decimal text of an `i64` through its `Display` impl, which writes the
/// digits with a leading `-` for negative numbers.
#[verifier::external_body]
pub(crate) fn i64_text(i: i64) -> (r: String)
    ensures
        r@ == int_text(i as int),
{
    i.to_string()
}

/// Decimal text of a `usize` through its `Display` impl.
#[verifier::external_body]
pub(crate) fn usize_text(n: usize) -> (r: String)
    ensures
        r@ == int_text(n as int),
{
    n.to_string()
}

/// `str::to_ascii_lowercase`: ASCII letters lowered, all else kept.
#[verifier::external_body]
pub(crate) fn to_ascii_lowercase(s: &str) -> (r: String)
    ensures
        r@ == ascii_lower(s@),
{
    s.to_ascii_lowercase()
}

/// `str::to_uppercase`.
#[verifier::external_body]
pub(crate) fn to_uppercase(s: &str) -> (r: String)
    ensures
        r@ == unicode_upper(s@),
{
    s.to_uppercase()
}

/// `str::to_lowercase`.
#[verifier::external_body]
pub(crate) fn to_lowercase(s: &str) -> (r: String)
    ensures
        r@ == unicode_lower(s@),
{
    s.to_lowercase()
}

/// `str::replace` with a string pattern.
#[verifier::external_body]
pub(crate) fn replace(s: &str, from: &str, to: &str) -> (r: String)
    ensures
        r@ == replaced(s@, from@, to@),
{
    s.replace(from, to)
}

/// `str::lines`: the standard library documents that lines end at `\n` or
/// `\r\n`, that the line ending is not part of the line, and that a final
/// line ending is optional.
#[verifier::external_body]
pub(crate) fn lines(s: &str) -> (r: Vec<&str>)
    ensures
        r@.len() == text_lines(s@).len(),
        forall|i: int| 0 <= i < r@.len() ==> #[trigger] r@[i]@ == text_lines(s@)[i],
{
    s.lines().collect()
}

/// `str::split` with a string pattern, each piece copied out.
#[verifier::external_body]
pub(crate) fn split(s: &str, sep: &str) -> (r: Vec<String>)
    ensures
        r@.len() == split_pieces(s@, sep@).len(),
        forall|i: int| 0 <= i < r@.len() ==> #[trigger] r@[i]@ == split_pieces(s@, sep@)[i],
{
    s.split(sep).map(|p| p.to_string()).collect()
}

} // verus!

verus! {

/// Whether two texts are the same characters.
pub(crate) fn same_text(a: &str, b: &str) -> (r: bool)
    ensures
        r == (a@ == b@),
{
    String::from_str(a) == String::from_str(b)
}

/// `head`, then `middle`, then `tail`.
pub(crate) fn concat3(head: &str, middle: &str, tail: &str) -> (r: String)
    ensures
        r@ == head@ + middle@ + tail@,
{
    let mut s = String::from_str(head);
    s.append(middle);
    s.append(tail);
    s
}

/// Whether a character is Unicode white space.
fn white(c: char) -> (r: bool)
    ensures
        r == is_white_space(c),
{
    let x = c as u32;
    (0x9 <= x && x <= 0xd) || x == 0x20 || x == 0x85 || x == 0xa0 || x == 0x1680 || (0x2000 <= x && x <= 0x200a)
        || x == 0x2028 || x == 0x2029 || x == 0x202f || x == 0x205f || x == 0x3000
}

proof fn lemma_leading_white(s: Seq<char>, a: int)
    requires
        0 <= a <= s.len(),
        forall|i: int| 0 <= i < a ==> is_white_space(#[trigger] s[i]),
        a == s.len() || !is_white_space(s[a]),
    ensures
        leading_white(s) == a,
    decreases a,
{
    if a > 0 {
        let rest = s.skip(1);
        assert forall|i: int| 0 <= i < a - 1 implies is_white_space(#[trigger] rest[i]) by {
            assert(rest[i] == s[i + 1]);
        }
        assert(is_white_space(s[0]));
        lemma_leading_white(rest, a - 1);
    }
}

proof fn lemma_trailing_white(s: Seq<char>, b: int)
    requires
        0 <= b <= s.len(),
        forall|i: int| s.len() - b <= i < s.len() ==> is_white_space(#[trigger] s[i]),
        b == s.len() || !is_white_space(s[s.len() - 1 - b]),
    ensures
        trailing_white(s) == b,
    decreases b,
{
    if b > 0 {
        let rest = s.drop_last();
        assert forall|i: int| rest.len() - (b - 1) <= i < rest.len() implies is_white_space(#[trigger] rest[i]) by {
            assert(rest[i] == s[i]);
        }
        assert(is_white_space(s[s.len() - 1]));
        if b - 1 < rest.len() {
            assert(rest[rest.len() - 1 - (b - 1)] == s[s.len() - 1 - b]);
        }
        lemma_trailing_white(rest, b - 1);
    }
}

/// `s` without its leading and trailing Unicode white space, as
/// `str::trim` gives it.
pub(crate) fn trim(s: &str) -> (r: &str)
    ensures
        r@ == trimmed(s@),
{
    let n = s.unicode_len();
    let mut a: usize = 0;
    while a < n && white(s.get_char(a))
        invariant
            a <= n,
            n == s@.len(),
            forall|i: int| 0 <= i < a ==> is_white_space(#[trigger] s@[i]),
        decreases n - a,
    {
        a += 1;
    }
    proof {
        lemma_leading_white(s@, a as int);
    }
    let mut b: usize = 0;
    while b < n - a && white(s.get_char(n - 1 - b))
        invariant
            a <= n,
            n == s@.len(),
            b <= n - a,
            forall|i: int| n - b <= i < n ==> is_white_space(#[trigger] s@[i]),
        decreases n - a - b,
    {
        b += 1;
    }
    let ghost rest = s@.skip(a as int);
    proof {
        assert forall|i: int| rest.len() - b <= i < rest.len() implies is_white_space(#[trigger] rest[i]) by {
            assert(rest[i] == s@[i + a]);
        }
        if b < rest.len() {
            assert(rest[rest.len() - 1 - b] == s@[n - 1 - b]);
        }
        lemma_trailing_white(rest, b as int);
        assert(rest.take(rest.len() - b) =~= s@.subrange(a as int, (n - b) as int));
    }
    s.substring_char(a, n - b)
}

/// The value of a run of digits is at least the value of any first part of
/// it.
proof fn lemma_digits_value_grows(s: Seq<char>, j: int)
    requires
        0 <= j <= s.len(),
        forall|i: int| 0 <= i < s.len() ==> is_ascii_digit(#[trigger] s[i]),
    ensures
        digits_value(s) >= digits_value(s.take(j)),
        digits_value(s.take(j)) >= 0,
    decreases s.len(),
{
    if j == s.len() {
        assert(s.take(j) =~= s);
        if s.len() > 0 {
            lemma_digits_value_grows(s.drop_last(), j - 1);
            assert(s.drop_last().take(j - 1) =~= s.drop_last());
        }
    } else {
        let p = s.drop_last();
        assert forall|i: int| 0 <= i < p.len() implies is_ascii_digit(#[trigger] p[i]) by {
            assert(p[i] == s[i]);
        }
        lemma_digits_value_grows(p, j);
        assert(p.take(j) =~= s.take(j));
        lemma_digits_value_grows(p, p.len() as int);
        assert(p.take(p.len() as int) =~= p);
        assert(is_ascii_digit(s.last()));
    }
}

/// An optional sign followed by decimal digits, as `str::parse::<i64>`
/// reads it: `None` for anything else and for a value outside `i64`.
pub(crate) fn parse_i64(s: &str) -> (r: Option<i64>)
    ensures
        r == decimal_i64(s@),
{
    let n = s.unicode_len();
    let mut start: usize = 0;
    let mut neg = false;
    if n > 0 {
        let c = s.get_char(0);
        if c == '+' {
            start = 1;
        } else if c == '-' {
            start = 1;
            neg = true;
        }
    }
    let ghost body = s@.skip(start as int);
    assert(start == 1 <==> has_sign(s@));
    assert(neg <==> (start == 1 && s@[0] == '-'));
    if start == 0 {
        assert(s@.skip(0) =~= s@);
    }
    assert(body == unsigned_part(s@));
    if start == n {
        return None;
    }
    let mut acc: u64 = 0;
    let mut j: usize = start;
    assert(body.take(0) =~= Seq::<char>::empty());
    while j < n
        invariant
            start <= j <= n,
            n == s@.len(),
            body == s@.skip(start as int),
            body == unsigned_part(s@),
            start == 1 <==> has_sign(s@),
            neg <==> (start == 1 && s@[0] == '-'),
            acc as int == digits_value(body.take(j - start)),
            acc <= 9223372036854775808u64,
            forall|i: int| 0 <= i < j - start ==> is_ascii_digit(#[trigger] body[i]),
        decreases n - j,
    {
        let c = s.get_char(j);
        assert(body[j - start] == c);
        if !('0' <= c && c <= '9') {
            proof {
                let k = j - start;
                assert(0 <= k < body.len());
                assert(!(48 <= (c as int) && (c as int) <= 57));
                assert(!is_ascii_digit(body[k as int]));
                assert(!all_digits(body));
            }
            return None;
        }
        let d = (c as u64) - 48;
        assert(body.take(j - start + 1).drop_last() =~= body.take(j - start));
        assert(body.take(j - start + 1).last() == c);
        if acc > (9223372036854775808u64 - d) / 10 {
            proof {
                if all_digits(body) {
                    lemma_digits_value_grows(body, j - start + 1);
                    assert(digits_value(body.take(j - start + 1)) == acc * 10 + d);
                    assert(acc * 10 + d > 9223372036854775808u64) by (nonlinear_arith)
                        requires
                            acc > (9223372036854775808u64 - d) / 10,
                            d <= 9,
                    ;
                }
            }
            return None;
        }
        assert(acc * 10 + d <= 9223372036854775808u64) by (nonlinear_arith)
            requires
                acc <= (9223372036854775808u64 - d) / 10,
                d <= 9,
        ;
        acc = acc * 10 + d;
        j += 1;
    }
    assert(body.take(n - start) =~= body);
    assert(acc as int == digits_value(body));
    assert(all_digits(body));
    assert(body.len() > 0);
    if neg {
        if acc == 9223372036854775808u64 {
            Some(i64::MIN)
        } else {
            Some(-(acc as i64))
        }
    } else if acc <= 9223372036854775807u64 {
        Some(acc as i64)
    } else {
        None
    }
}

} // verus!
