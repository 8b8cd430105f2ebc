//! Decimal digits: writing and reading unsigned integers.
use vstd::prelude::*;

verus! {

pub open spec fn is_digit(c: char) -> bool {
    '0' <= c && c <= '9'
}

pub open spec fn digit_value(c: char) -> nat {
    (c as int - '0' as int) as nat
}

pub open spec fn digit_char(d: nat) -> char {
    if d == 0 {
        '0'
    } else if d == 1 {
        '1'
    } else if d == 2 {
        '2'
    } else if d == 3 {
        '3'
    } else if d == 4 {
        '4'
    } else if d == 5 {
        '5'
    } else if d == 6 {
        '6'
    } else if d == 7 {
        '7'
    } else if d == 8 {
        '8'
    } else {
        '9'
    }
}

/// The decimal digits of `n`, without leading zeros.
pub open spec fn decimal(n: nat) -> Seq<char>
    decreases n,
{
    if n < 10 {
        seq![digit_char(n)]
    } else {
        decimal(n / 10).push(digit_char(n % 10))
    }
}

pub open spec fn all_digits(s: Seq<char>) -> bool {
    forall|i: int| 0 <= i < s.len() ==> is_digit(#[trigger] s[i])
}

/// The number that the digits of `s` stand for.
pub open spec fn digits_value(s: Seq<char>) -> nat
    decreases s.len(),
{
    if s.len() == 0 {
        0
    } else {
        digits_value(s.drop_last()) * 10 + digit_value(s.last())
    }
}

/// Digits without a leading zero, as `decimal` writes them.
pub open spec fn canonical(s: Seq<char>) -> bool {
    &&& s.len() > 0
    &&& all_digits(s)
    &&& (s[0] == '0' ==> s.len() == 1)
}

proof fn lemma_digit(d: nat)
    requires
        d < 10,
    ensures
        is_digit(digit_char(d)),
        digit_value(digit_char(d)) == d,
{
}

proof fn lemma_digit_char(c: char)
    requires
        is_digit(c),
    ensures
        digit_char(digit_value(c)) == c,
        digit_value(c) < 10,
{
}

/// `decimal` writes canonical digits that read back as the number.
pub proof fn lemma_decimal(n: nat)
    ensures
        canonical(decimal(n)),
        digits_value(decimal(n)) == n,
    decreases n,
{
    if n < 10 {
        lemma_digit(n);
        let s = decimal(n);
        assert(s.drop_last() =~= Seq::<char>::empty());
        assert(digits_value(s) == digits_value(s.drop_last()) * 10 + digit_value(s.last()));
    } else {
        let m = n / 10;
        lemma_decimal(m);
        lemma_digit(n % 10);
        let t = decimal(m);
        let s = decimal(n);
        assert(s == t.push(digit_char(n % 10)));
        assert(s.drop_last() =~= t);
        assert(n == m * 10 + n % 10);
        assert(digits_value(s) == n);
        assert(s[0] == t[0]);
        if t[0] == '0' {
            assert(t.len() == 1);
            assert(t.drop_last() =~= Seq::<char>::empty());
            assert(digits_value(t) == digits_value(t.drop_last()) * 10 + digit_value(t.last()));
            assert(digits_value(t) == 0);
        }
        assert forall|i: int| 0 <= i < s.len() implies is_digit(#[trigger] s[i]) by {
            if i < t.len() {
                assert(s[i] == t[i]);
            }
        }
    }
}

proof fn lemma_leading_nonzero(s: Seq<char>)
    requires
        s.len() > 0,
        all_digits(s),
        s[0] != '0',
    ensures
        digits_value(s) > 0,
    decreases s.len(),
{
    if s.len() > 1 {
        lemma_leading_nonzero(s.drop_last());
    }
}

/// Canonical digits are the decimal writing of their value.
pub proof fn lemma_canonical(s: Seq<char>)
    requires
        canonical(s),
    ensures
        decimal(digits_value(s)) == s,
    decreases s.len(),
{
    let c = s.last();
    lemma_digit_char(c);
    if s.len() == 1 {
        assert(s.drop_last() =~= Seq::<char>::empty());
        assert(digits_value(s) == digits_value(s.drop_last()) * 10 + digit_value(c));
        assert(digits_value(s) == digit_value(c));
        assert(seq![c] =~= s);
    } else {
        let t = s.drop_last();
        assert(t[0] == s[0]);
        lemma_leading_nonzero(t);
        lemma_canonical(t);
        let v = digits_value(t);
        let n = digits_value(s);
        assert(n == v * 10 + digit_value(c));
        assert(n >= 10);
        assert(n / 10 == v && n % 10 == digit_value(c)) by (nonlinear_arith)
            requires
                n == v * 10 + digit_value(c),
                digit_value(c) < 10,
        ;
        assert(decimal(n) =~= t.push(c));
        assert(t.push(c) =~= s);
    }
}

fn digit_str(d: u64) -> (r: &'static str)
    requires
        d < 10,
    ensures
        r@ == seq![digit_char(d as nat)],
{
    proof {
        reveal_strlit("0");
        reveal_strlit("1");
        reveal_strlit("2");
        reveal_strlit("3");
        reveal_strlit("4");
        reveal_strlit("5");
        reveal_strlit("6");
        reveal_strlit("7");
        reveal_strlit("8");
        reveal_strlit("9");
    }
    let r = if d == 0 {
        "0"
    } else if d == 1 {
        "1"
    } else if d == 2 {
        "2"
    } else if d == 3 {
        "3"
    } else if d == 4 {
        "4"
    } else if d == 5 {
        "5"
    } else if d == 6 {
        "6"
    } else if d == 7 {
        "7"
    } else if d == 8 {
        "8"
    } else {
        "9"
    };
    assert(r@ =~= seq![digit_char(d as nat)]);
    r
}

/// The decimal digits of `n`.
pub fn to_decimal(n: u64) -> (r: String)
    ensures
        r@ == decimal(n as nat),
    decreases n,
{
    if n < 10 {
        digit_str(n).to_string()
    } else {
        let mut s = to_decimal(n / 10);
        s.append(digit_str(n % 10));
        s
    }
}

fn char_digit(c: char) -> (r: Option<u64>)
    ensures
        r is Some <==> is_digit(c),
        r matches Some(d) ==> d == digit_value(c) && d < 10,
{
    if '0' <= c && c <= '9' {
        Some((c as u32 - '0' as u32) as u64)
    } else {
        None
    }
}

/// The value of `s` read as decimal digits: `None` if `s` is empty, holds
/// anything but digits, or stands for more than `u64::MAX`.
pub fn parse_digits(s: &str) -> (r: Option<u64>)
    ensures
        r is Some <==> s@.len() > 0 && all_digits(s@) && digits_value(s@) <= u64::MAX,
        r matches Some(v) ==> v == digits_value(s@),
{
    let n = s.unicode_len();
    if n == 0 {
        return None;
    }
    let mut acc: u64 = 0;
    let mut i: usize = 0;
    while i < n
        invariant
            n == s@.len(),
            i <= n,
            all_digits(s@.subrange(0, i as int)),
            acc == digits_value(s@.subrange(0, i as int)),
        decreases n - i,
    {
        let c = s.get_char(i);
        let ghost pre = s@.subrange(0, i as int);
        let ghost next = s@.subrange(0, i + 1);
        proof {
            assert(next.drop_last() =~= pre);
        }
        match char_digit(c) {
            None => {
                proof {
                    assert(!is_digit(next[i as int]));
                    lemma_not_all_digits(s@, i as int);
                }
                return None;
            },
            Some(d) => {
                if acc > (u64::MAX - d) / 10 {
                    proof {
                        assert(digits_value(next) == acc * 10 + d);
                        assert(acc * 10 + d > u64::MAX) by (nonlinear_arith)
                            requires
                                acc > (u64::MAX - d) / 10,
                                d < 10,
                        ;
                        if all_digits(s@) {
                            lemma_prefix_value_bound(s@, i + 1);
                        }
                    }
                    return None;
                }
                assert(acc * 10 + d <= u64::MAX) by (nonlinear_arith)
                    requires
                        acc <= (u64::MAX - d) / 10,
                        d < 10,
                ;
                acc = acc * 10 + d;
            },
        }
        i = i + 1;
    }
    assert(s@.subrange(0, n as int) =~= s@);
    Some(acc)
}

proof fn lemma_not_all_digits(s: Seq<char>, i: int)
    requires
        0 <= i < s.len(),
        !is_digit(s[i]),
    ensures
        !all_digits(s),
{
}

proof fn lemma_prefix_value_bound(s: Seq<char>, k: int)
    requires
        0 < k <= s.len(),
        all_digits(s),
    ensures
        digits_value(s) >= digits_value(s.subrange(0, k)),
    decreases s.len() - k,
{
    if k < s.len() {
        lemma_prefix_value_bound(s.drop_last(), k);
        assert(s.drop_last().subrange(0, k) =~= s.subrange(0, k));
        assert(all_digits(s.drop_last()));
    } else {
        assert(s.subrange(0, k) =~= s);
    }
}

} // verus!
