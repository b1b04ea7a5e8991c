use vstd::prelude::*;
use vstd::string::*;

verus! {

/// The character of the decimal digit `d` (`0 <= d < 10`).
pub open spec fn digit_char(d: nat) -> char {
    (('0' as int) + d) as char
}

/// The decimal text of `n`, without sign or leading zeros.
pub open spec fn spec_decimal(n: nat) -> Seq<char>
    decreases n,
{
    if n < 10 {
        seq![digit_char(n)]
    } else {
        spec_decimal(n / 10).push(digit_char(n % 10))
    }
}

fn digit_str(d: u32) -> (res: &'static str)
    requires
        d < 10,
    ensures
        res@ == seq![digit_char(d as nat)],
{
    proof {
        reveal_strlit("0");
        reveal_strlit("1");
        reveal_strlit("2");
        reveal_strlit("3");
        reveal_strlit("4");
        reveal_strlit("5");
        reveal_strlit("6");
        reveal_strlit("7");
        reveal_strlit("8");
        reveal_strlit("9");
    }
    if d == 0 { "0" }
    else if d == 1 { "1" }
    else if d == 2 { "2" }
    else if d == 3 { "3" }
    else if d == 4 { "4" }
    else if d == 5 { "5" }
    else if d == 6 { "6" }
    else if d == 7 { "7" }
    else if d == 8 { "8" }
    else { "9" }
}

/// Writes `n` in decimal, as `format!("{}", n)` does.
pub fn decimal(n: u32) -> (res: String)
    ensures
        res@ == spec_decimal(n as nat),
    decreases n,
{
    if n < 10 {
        String::from_str(digit_str(n))
    } else {
        let mut s = decimal(n / 10);
        s.append(digit_str(n % 10));
        s
    }
}

/// The characters of `s`, one by one.
pub fn chars_of(s: &str) -> (res: Vec<char>)
    ensures
        res@ == s@,
{
    let n = s.unicode_len();
    let mut res: Vec<char> = Vec::new();
    let mut i: usize = 0;
    while i < n
        invariant
            n == s@.len(),
            i <= n,
            res@ == s@.take(i as int),
        decreases n - i,
    {
        let c = s.get_char(i);
        res.push(c);
        i = i + 1;
        assert(res@ =~= s@.take(i as int));
    }
    assert(s@.take(n as int) =~= s@);
    res
}


/// The pieces of `s` between occurrences of `sep`, as `str::split` yields
/// them: `k` separators give `k + 1` pieces, empty ones included.
pub open spec fn split_on(s: Seq<char>, sep: char) -> Seq<Seq<char>>
    decreases s.len(),
{
    if s.len() == 0 {
        seq![Seq::empty()]
    } else {
        let parts = split_on(s.drop_last(), sep);
        if s.last() == sep {
            parts.push(Seq::empty())
        } else {
            parts.update(parts.len() - 1, parts.last().push(s.last()))
        }
    }
}

/// `c` is one of the ASCII digits `'0'` to `'9'`.
pub open spec fn is_digit(c: char) -> bool {
    ('0' as int) <= (c as int) <= ('9' as int)
}

pub open spec fn all_digits(s: Seq<char>) -> bool {
    forall|i: int| 0 <= i < s.len() ==> is_digit(#[trigger] s[i])
}

/// The number that the digits `s` spell in base ten.
pub open spec fn digits_value(s: Seq<char>) -> nat
    decreases s.len(),
{
    if s.len() == 0 {
        0
    } else {
        digits_value(s.drop_last()) * 10 + ((s.last() as int) - ('0' as int)) as nat
    }
}

/// `s` without one leading `'+'`, the sign that an unsigned parse accepts.
pub open spec fn unsigned_digits(s: Seq<char>) -> Seq<char> {
    if s.len() > 0 && s[0] == '+' {
        s.drop_first()
    } else {
        s
    }
}

/// What `s.parse::<u16>()` gives, as an `Option`: an optional `'+'`, then
/// at least one ASCII digit and nothing else, for a value at most
/// `u16::MAX`.
pub open spec fn spec_parse_u16(s: Seq<char>) -> Option<u16> {
    let d = unsigned_digits(s);
    if d.len() > 0 && all_digits(d) && digits_value(d) <= u16::MAX {
        Some(digits_value(d) as u16)
    } else {
        None
    }
}

pub proof fn lemma_split_nonempty(s: Seq<char>, sep: char)
    ensures
        split_on(s, sep).len() >= 1,
    decreases s.len(),
{
    if s.len() > 0 {
        lemma_split_nonempty(s.drop_last(), sep);
    }
}

/// Extending the text never lowers the number of pieces.
pub proof fn lemma_split_len_grows(s: Seq<char>, k: int, sep: char)
    requires
        0 <= k <= s.len(),
    ensures
        split_on(s.take(k), sep).len() <= split_on(s, sep).len(),
    decreases s.len(),
{
    if k < s.len() {
        lemma_split_nonempty(s.drop_last(), sep);
        assert(s.drop_last().take(k) =~= s.take(k));
        lemma_split_len_grows(s.drop_last(), k, sep);
    } else {
        assert(s.take(k) =~= s);
    }
}

/// A prefix of digits never spells more than the whole.
proof fn lemma_digits_prefix_le(s: Seq<char>, k: int)
    requires
        0 <= k <= s.len(),
        all_digits(s),
    ensures
        digits_value(s.take(k)) <= digits_value(s),
    decreases s.len(),
{
    if k < s.len() {
        assert(s.drop_last().take(k) =~= s.take(k));
        assert(is_digit(s[s.len() - 1]));
        lemma_digits_prefix_le(s.drop_last(), k);
    } else {
        assert(s.take(k) =~= s);
    }
}

/// The value of the ASCII digit `c`, if it is one.
fn digit_of(c: char) -> (res: Option<u32>)
    ensures
        res is Some <==> is_digit(c),
        res matches Some(d) ==> d as int == (c as int) - ('0' as int),
{
    if c == '0' { Some(0) }
    else if c == '1' { Some(1) }
    else if c == '2' { Some(2) }
    else if c == '3' { Some(3) }
    else if c == '4' { Some(4) }
    else if c == '5' { Some(5) }
    else if c == '6' { Some(6) }
    else if c == '7' { Some(7) }
    else if c == '8' { Some(8) }
    else if c == '9' { Some(9) }
    else { None }
}

/// Reads `cs[from..to]` as `str::parse::<u16>` reads a string.
pub fn parse_u16_in(cs: &Vec<char>, from: usize, to: usize) -> (res: Option<u16>)
    requires
        from <= to <= cs@.len(),
    ensures
        res == spec_parse_u16(cs@.subrange(from as int, to as int)),
{
    let ghost s = cs@.subrange(from as int, to as int);
    let mut start = from;
    if start < to && cs[start] == '+' {
        start = start + 1;
    }
    let ghost d = cs@.subrange(start as int, to as int);
    assert(d =~= unsigned_digits(s));
    if start == to {
        return None;
    }
    let mut v: u32 = 0;
    let mut i = start;
    while i < to
        invariant
            start <= i <= to <= cs@.len(),
            start < to,
            s == cs@.subrange(from as int, to as int),
            d == cs@.subrange(start as int, to as int),
            d == unsigned_digits(s),
            all_digits(cs@.subrange(start as int, i as int)),
            v as nat == digits_value(cs@.subrange(start as int, i as int)),
            v <= 65535,
        decreases to - i,
    {
        let c = cs[i];
        let digit = digit_of(c);
        if digit.is_none() {
            assert(d[i - start] == c);
            assert(!is_digit(d[i - start]));
            assert(!all_digits(d));
            return None;
        }
        let ghost prev = cs@.subrange(start as int, i as int);
        v = v * 10 + digit.unwrap();
        i = i + 1;
        assert(cs@.subrange(start as int, i as int).last() == c);
        assert(is_digit(c));
        assert forall|j: int| 0 <= j < cs@.subrange(start as int, i as int).len() implies
            is_digit(#[trigger] cs@.subrange(start as int, i as int)[j]) by {
            if j < i - 1 - start {
                assert(cs@.subrange(start as int, i as int)[j] == prev[j]);
            }
        }
        assert(cs@.subrange(start as int, i as int).drop_last() =~= prev);
        if v > 65535 {
            proof {
                if all_digits(d) {
                    assert(d.take(i - start) =~= cs@.subrange(start as int, i as int));
                    lemma_digits_prefix_le(d, i - start);
                }
                assert(spec_parse_u16(s) is None);
            }
            return None;
        }
    }
    assert(cs@.subrange(start as int, i as int) =~= d);
    Some(v as u16)
}


/// The decimal text of a number is a non-empty run of digits that spells
/// that number.
pub proof fn lemma_decimal_digits(n: nat)
    ensures
        spec_decimal(n).len() > 0,
        all_digits(spec_decimal(n)),
        digits_value(spec_decimal(n)) == n,
    decreases n,
{
    let c = digit_char(n % 10);
    assert(c as int == '0' as int + n % 10);
    if n < 10 {
        assert(spec_decimal(n).drop_last() =~= Seq::<char>::empty());
        assert(spec_decimal(n).last() == c);
        assert(digits_value(spec_decimal(n).drop_last()) == 0);
        assert(digits_value(spec_decimal(n)) == n);
    } else {
        lemma_decimal_digits(n / 10);
        let s = spec_decimal(n);
        assert(s.drop_last() =~= spec_decimal(n / 10));
        assert(s.last() == c);
        assert(n == (n / 10) * 10 + n % 10);
        assert(digits_value(s) == digits_value(s.drop_last()) * 10 + ((s.last() as int) - ('0' as int)) as nat);
        assert(digits_value(s) == n);
        assert forall|i: int| 0 <= i < s.len() implies is_digit(#[trigger] s[i]) by {
            if i < s.len() - 1 {
                assert(s[i] == spec_decimal(n / 10)[i]);
            }
        }
    }
}

/// Reading back what `decimal` writes gives the number again, for every
/// number that fits in a `u16`.
pub proof fn lemma_parse_u16_of_decimal(n: u16)
    ensures
        spec_parse_u16(spec_decimal(n as nat)) == Some(n),
{
    lemma_decimal_digits(n as nat);
    let s = spec_decimal(n as nat);
    assert(is_digit(s[0]));
    assert(unsigned_digits(s) == s);
}


/// `n` zero digits.
pub open spec fn zeros(n: nat) -> Seq<char> {
    Seq::new(n, |i: int| '0')
}

proof fn lemma_digits_value_zeros(n: nat)
    ensures
        all_digits(zeros(n)),
        digits_value(zeros(n)) == 0,
    decreases n,
{
    if n > 0 {
        assert(zeros(n).drop_last() =~= zeros((n - 1) as nat));
        lemma_digits_value_zeros((n - 1) as nat);
    }
}

/// Leading zeros change neither that a text is made of digits nor the
/// number it spells.
pub proof fn lemma_padded_digits(p: nat, d: Seq<char>)
    requires
        all_digits(d),
    ensures
        all_digits(zeros(p) + d),
        digits_value(zeros(p) + d) == digits_value(d),
    decreases d.len(),
{
    let x = zeros(p) + d;
    if d.len() == 0 {
        assert(x =~= zeros(p));
        lemma_digits_value_zeros(p);
    } else {
        let d0 = d.drop_last();
        assert(all_digits(d0)) by {
            assert forall|i: int| 0 <= i < d0.len() implies is_digit(#[trigger] d0[i]) by {
                assert(d0[i] == d[i]);
            }
        }
        lemma_padded_digits(p, d0);
        assert(x.drop_last() =~= zeros(p) + d0);
        assert(x.last() == d.last());
        lemma_digits_value_zeros(p);
        assert forall|i: int| 0 <= i < x.len() implies is_digit(#[trigger] x[i]) by {
            if i < p {
                assert(x[i] == zeros(p)[i]);
            } else {
                assert(x[i] == d[i - p]);
            }
        }
    }
}

/// A number written in decimal after any count of leading zeros (such as
/// `"09"` or `"007"`) reads back as that number, for every `u16`.
pub proof fn lemma_parse_u16_of_padded_decimal(p: nat, n: u16)
    ensures
        spec_parse_u16(zeros(p) + spec_decimal(n as nat)) == Some(n),
{
    let d = spec_decimal(n as nat);
    lemma_decimal_digits(n as nat);
    lemma_padded_digits(p, d);
    let x = zeros(p) + d;
    assert(is_digit(x[0]));
    assert(unsigned_digits(x) == x);
}

} // verus!
