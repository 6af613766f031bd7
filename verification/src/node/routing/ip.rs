use vstd::arithmetic::div_mod::lemma_fundamental_div_mod_converse;
use vstd::prelude::*;

verus! {

broadcast use vstd::string::group_string_axioms;

/// The decimal digit `d`.
pub open spec fn digit_char(d: int) -> char {
    if d == 0 {
        '0'
    } else if d == 1 {
        '1'
    } else if d == 2 {
        '2'
    } else if d == 3 {
        '3'
    } else if d == 4 {
        '4'
    } else if d == 5 {
        '5'
    } else if d == 6 {
        '6'
    } else if d == 7 {
        '7'
    } else if d == 8 {
        '8'
    } else {
        '9'
    }
}

/// The value of the ASCII digit `c`, if it is one.
pub open spec fn digit_value(c: char) -> Option<int> {
    if c == '0' {
        Some(0)
    } else if c == '1' {
        Some(1)
    } else if c == '2' {
        Some(2)
    } else if c == '3' {
        Some(3)
    } else if c == '4' {
        Some(4)
    } else if c == '5' {
        Some(5)
    } else if c == '6' {
        Some(6)
    } else if c == '7' {
        Some(7)
    } else if c == '8' {
        Some(8)
    } else if c == '9' {
        Some(9)
    } else {
        None
    }
}

/// The decimal text of a byte, without leading zeros.
#[verifier::opaque]
pub open spec fn octet_text(n: u8) -> Seq<char> {
    if n < 10 {
        seq![digit_char(n as int)]
    } else if n < 100 {
        seq![digit_char((n / 10) as int), digit_char((n % 10) as int)]
    } else {
        seq![digit_char((n / 100) as int), digit_char(((n / 10) % 10) as int), digit_char((n % 10) as int)]
    }
}

/// The four bytes of an IPv4 address held in a `u32`, most significant
/// first.
pub open spec fn octets(ip: u32) -> (u8, u8, u8, u8) {
    (
        (ip / 0x100_0000) as u8,
        ((ip / 0x1_0000) % 0x100) as u8,
        ((ip / 0x100) % 0x100) as u8,
        (ip % 0x100) as u8,
    )
}

/// The address with the bytes `a.b.c.d`.
pub open spec fn ip_of(a: u8, b: u8, c: u8, d: u8) -> u32 {
    (a as int * 0x100_0000 + b as int * 0x1_0000 + c as int * 0x100 + d as int) as u32
}

/// The dotted decimal text of an IPv4 address, such as `10.0.0.1`.
pub open spec fn ip_text(ip: u32) -> Seq<char> {
    let (a, b, c, d) = octets(ip);
    octet_text(a) + seq!['.'] + octet_text(b) + seq!['.'] + octet_text(c) + seq!['.']
        + octet_text(d)
}

/// The decimal value of a sequence of ASCII digits.
pub open spec fn decimal_value(s: Seq<char>) -> int
    decreases s.len(),
{
    if s.len() == 0 {
        0
    } else {
        decimal_value(s.drop_last()) * 10 + digit_value(s.last()).unwrap_or(0)
    }
}

/// Every character of `s` is an ASCII digit.
pub open spec fn all_digits(s: Seq<char>) -> bool {
    forall|i: int| 0 <= i < s.len() ==> (#[trigger] digit_value(s[i])) is Some
}

/// What `str::parse::<u8>` gives: an optional `+`, then one or more ASCII
/// digits whose value is at most 255.
pub open spec fn parse_u8_text(s: Seq<char>) -> Option<u8> {
    let digits = if s.len() > 0 && s[0] == '+' {
        s.drop_first()
    } else {
        s
    };
    if digits.len() > 0 && all_digits(digits) && decimal_value(digits) <= 255 {
        Some(decimal_value(digits) as u8)
    } else {
        None
    }
}

pub proof fn lemma_ip_of_octets(a: u8, b: u8, c: u8, d: u8)
    ensures
        octets(ip_of(a, b, c, d)) == (a, b, c, d),
{
    let x = a as int * 0x100_0000 + b as int * 0x1_0000 + c as int * 0x100 + d as int;
    assert(0 <= x < 0x1_0000_0000);
    let ip = ip_of(a, b, c, d);
    assert(ip as int == x);
    lemma_fundamental_div_mod_converse(x, 0x100_0000, a as int, b as int * 0x1_0000 + c as int * 0x100 + d as int);
    lemma_fundamental_div_mod_converse(x, 0x1_0000, a as int * 0x100 + b as int, c as int * 0x100 + d as int);
    lemma_fundamental_div_mod_converse(a as int * 0x100 + b as int, 0x100, a as int, b as int);
    lemma_fundamental_div_mod_converse(x, 0x100, a as int * 0x1_0000 + b as int * 0x100 + c as int, d as int);
    lemma_fundamental_div_mod_converse(a as int * 0x1_0000 + b as int * 0x100 + c as int, 0x100, a as int * 0x100 + b as int, c as int);
}

pub proof fn lemma_octets_determine(x: u32, y: u32)
    requires
        octets(x) == octets(y),
    ensures
        x == y,
{
    assert(x == ip_of(octets(x).0, octets(x).1, octets(x).2, octets(x).3));
    assert(y == ip_of(octets(y).0, octets(y).1, octets(y).2, octets(y).3));
}

pub proof fn lemma_digit_char_injective(d: int, e: int)
    requires
        0 <= d < 10,
        0 <= e < 10,
        digit_char(d) == digit_char(e),
    ensures
        d == e,
{
}

pub proof fn lemma_octet_text_injective(m: u8, n: u8)
    requires
        octet_text(m) == octet_text(n),
    ensures
        m == n,
{
    reveal(octet_text);
    let s = octet_text(m);
    if m < 10 {
        assert(s.len() == 1);
        assert(n < 10);
        assert(octet_text(m)[0] == octet_text(n)[0]);
        lemma_digit_char_injective(m as int, n as int);
    } else if m < 100 {
        assert(s.len() == 2);
        assert(10 <= n < 100);
        assert(octet_text(m)[0] == octet_text(n)[0]);
        assert(octet_text(m)[1] == octet_text(n)[1]);
        lemma_digit_char_injective((m / 10) as int, (n / 10) as int);
        lemma_digit_char_injective((m % 10) as int, (n % 10) as int);
    } else {
        assert(s.len() == 3);
        assert(100 <= n);
        assert(octet_text(m)[0] == octet_text(n)[0]);
        assert(octet_text(m)[1] == octet_text(n)[1]);
        assert(octet_text(m)[2] == octet_text(n)[2]);
        lemma_digit_char_injective((m / 100) as int, (n / 100) as int);
        lemma_digit_char_injective(((m / 10) % 10) as int, ((n / 10) % 10) as int);
        lemma_digit_char_injective((m % 10) as int, (n % 10) as int);
    }
}

/// No octet text holds a dot.
pub proof fn lemma_octet_text_no_dot(n: u8)
    ensures
        octet_text(n).len() >= 1,
        forall|i: int| 0 <= i < octet_text(n).len() ==> octet_text(n)[i] != '.',
{
    reveal(octet_text);
}

/// Splitting `x + "." + y` at its first dot gives `x` back when `x` holds
/// no dot.
pub proof fn lemma_split_at_first_dot(x1: Seq<char>, y1: Seq<char>, x2: Seq<char>, y2: Seq<char>)
    requires
        forall|i: int| 0 <= i < x1.len() ==> x1[i] != '.',
        forall|i: int| 0 <= i < x2.len() ==> x2[i] != '.',
        x1 + seq!['.'] + y1 == x2 + seq!['.'] + y2,
    ensures
        x1 == x2,
        y1 == y2,
{
    let s = x1 + seq!['.'] + y1;
    if x1.len() < x2.len() {
        assert(s[x1.len() as int] == '.');
        assert((x2 + seq!['.'] + y2)[x1.len() as int] == x2[x1.len() as int]);
    } else if x2.len() < x1.len() {
        assert((x2 + seq!['.'] + y2)[x2.len() as int] == '.');
        assert(s[x2.len() as int] == x1[x2.len() as int]);
    }
    assert(x1.len() == x2.len());
    assert(x1 =~= s.take(x1.len() as int));
    assert(x2 =~= (x2 + seq!['.'] + y2).take(x2.len() as int));
    assert(y1 =~= s.skip(x1.len() as int + 1));
    assert(y2 =~= (x2 + seq!['.'] + y2).skip(x2.len() as int + 1));
}

/// Two addresses with the same text are the same address.
pub proof fn lemma_ip_text_injective(x: u32, y: u32)
    requires
        ip_text(x) == ip_text(y),
    ensures
        x == y,
{
    let (a1, b1, c1, d1) = octets(x);
    let (a2, b2, c2, d2) = octets(y);
    lemma_octet_text_no_dot(a1);
    lemma_octet_text_no_dot(a2);
    lemma_octet_text_no_dot(b1);
    lemma_octet_text_no_dot(b2);
    lemma_octet_text_no_dot(c1);
    lemma_octet_text_no_dot(c2);
    let r1 = octet_text(b1) + seq!['.'] + octet_text(c1) + seq!['.'] + octet_text(d1);
    let r2 = octet_text(b2) + seq!['.'] + octet_text(c2) + seq!['.'] + octet_text(d2);
    assert(ip_text(x) =~= octet_text(a1) + seq!['.'] + r1);
    assert(ip_text(y) =~= octet_text(a2) + seq!['.'] + r2);
    lemma_split_at_first_dot(octet_text(a1), r1, octet_text(a2), r2);
    let q1 = octet_text(c1) + seq!['.'] + octet_text(d1);
    let q2 = octet_text(c2) + seq!['.'] + octet_text(d2);
    assert(r1 =~= octet_text(b1) + seq!['.'] + q1);
    assert(r2 =~= octet_text(b2) + seq!['.'] + q2);
    lemma_split_at_first_dot(octet_text(b1), q1, octet_text(b2), q2);
    lemma_split_at_first_dot(octet_text(c1), octet_text(d1), octet_text(c2), octet_text(d2));
    lemma_octet_text_injective(a1, a2);
    lemma_octet_text_injective(b1, b2);
    lemma_octet_text_injective(c1, c2);
    lemma_octet_text_injective(d1, d2);
    lemma_octets_determine(x, y);
}

/// The text of the digit `d`.
pub(crate) fn digit_str(d: u8) -> (s: &'static str)
    requires
        d < 10,
    ensures
        s@ == seq![digit_char(d as int)],
{
    proof {
        reveal_strlit("0");
        reveal_strlit("1");
        reveal_strlit("2");
        reveal_strlit("3");
        reveal_strlit("4");
        reveal_strlit("5");
        reveal_strlit("6");
        reveal_strlit("7");
        reveal_strlit("8");
        reveal_strlit("9");
    }
    let s = match d {
        0 => "0",
        1 => "1",
        2 => "2",
        3 => "3",
        4 => "4",
        5 => "5",
        6 => "6",
        7 => "7",
        8 => "8",
        _ => "9",
    };
    assert(s@ =~= seq![digit_char(d as int)]);
    s
}

/// The decimal text of a byte.
pub fn octet_string(n: u8) -> (s: String)
    ensures
        s@ == octet_text(n),
{
    let s = if n < 10 {
        String::from_str(digit_str(n))
    } else if n < 100 {
        String::from_str(digit_str(n / 10)).concat(digit_str(n % 10))
    } else {
        String::from_str(digit_str(n / 100)).concat(digit_str((n / 10) % 10)).concat(
            digit_str(n % 10),
        )
    };
    assert(s@ =~= octet_text(n)) by {
        reveal(octet_text);
    }
    s
}

/// The dotted decimal text of an address (`Ipv4Addr::to_string`).
pub fn ip_string(ip: u32) -> (s: String)
    ensures
        s@ == ip_text(ip),
{
    proof {
        reveal_strlit(".");
    }
    let a = (ip / 0x100_0000) as u8;
    let b = ((ip / 0x1_0000) % 0x100) as u8;
    let c = ((ip / 0x100) % 0x100) as u8;
    let d = (ip % 0x100) as u8;
    let s = octet_string(a).concat(".").concat(octet_string(b).as_str()).concat(".").concat(
        octet_string(c).as_str(),
    ).concat(".").concat(octet_string(d).as_str());
    assert(s@ =~= ip_text(ip));
    s
}

/// The address with the bytes `a.b.c.d` (`Ipv4Addr::new`).
pub fn ipv4(a: u8, b: u8, c: u8, d: u8) -> (ip: u32)
    ensures
        ip == ip_of(a, b, c, d),
        octets(ip) == (a, b, c, d),
{
    proof {
        lemma_ip_of_octets(a, b, c, d);
    }
    a as u32 * 0x100_0000 + b as u32 * 0x1_0000 + c as u32 * 0x100 + d as u32
}

pub proof fn lemma_decimal_value_grows(s: Seq<char>, t: Seq<char>)
    requires
        all_digits(s + t),
    ensures
        decimal_value(s) <= decimal_value(s + t),
        decimal_value(s) >= 0,
    decreases t.len(),
{
    if t.len() == 0 {
        assert(s + t =~= s);
        lemma_decimal_value_nonneg(s);
    } else {
        let u = s + t.drop_last();
        assert((s + t).drop_last() =~= u);
        assert(all_digits(u)) by {
            assert forall|i: int| 0 <= i < u.len() implies (#[trigger] digit_value(u[i])) is Some by {
                assert(u[i] == (s + t)[i]);
            }
        }
        lemma_decimal_value_grows(s, t.drop_last());
        assert(u + seq![t.last()] =~= s + t);
        assert(decimal_value(s + t) == decimal_value(u) * 10 + digit_value(t.last()).unwrap_or(0));
        lemma_decimal_value_nonneg(u);
    }
}

pub proof fn lemma_decimal_value_nonneg(s: Seq<char>)
    ensures
        decimal_value(s) >= 0,
    decreases s.len(),
{
    if s.len() > 0 {
        lemma_decimal_value_nonneg(s.drop_last());
    }
}

pub proof fn lemma_digit_round_trip(d: int)
    requires
        0 <= d <= 9,
    ensures
        digit_value(digit_char(d)) == Some(d),
{
}

/// The decimal text of a byte parses back to the byte.
pub proof fn law_octet_text_parses_back(n: u8)
    ensures
        parse_u8_text(octet_text(n)) == Some(n),
{
    reveal(octet_text);
    let t = octet_text(n);
    let a = (n / 100) as int;
    let b = ((n / 10) % 10) as int;
    let c = (n % 10) as int;
    lemma_digit_round_trip(n as int % 10);
    if n < 10 {
        lemma_digit_round_trip(n as int);
        assert(t.drop_last().len() == 0);
        assert(decimal_value(t.drop_last()) == 0);
        assert(t.last() == digit_char(n as int));
        assert(decimal_value(t) == n);
    } else if n < 100 {
        lemma_digit_round_trip(n as int / 10);
        assert(t.drop_last() =~= seq![digit_char((n / 10) as int)]);
        assert(t.drop_last().drop_last().len() == 0);
        assert(decimal_value(t.drop_last().drop_last()) == 0);
        assert(t.drop_last().last() == digit_char((n / 10) as int));
        assert(decimal_value(t.drop_last()) == (n / 10) as int);
        assert(t.last() == digit_char(c));
        assert(decimal_value(t) == (n / 10) as int * 10 + c);
    } else {
        lemma_digit_round_trip(a);
        lemma_digit_round_trip(b);
        assert(t.drop_last() =~= seq![digit_char(a), digit_char(b)]);
        assert(t.drop_last().drop_last() =~= seq![digit_char(a)]);
        assert(t.drop_last().drop_last().drop_last().len() == 0);
        assert(decimal_value(t.drop_last().drop_last().drop_last()) == 0);
        assert(decimal_value(t.drop_last().drop_last()) == a);
        assert(decimal_value(t.drop_last()) == a * 10 + b);
        assert(t.last() == digit_char(c));
        assert(decimal_value(t) == (a * 10 + b) * 10 + c);
    }
    assert(all_digits(t));
}

/// `str::parse::<u8>`.
pub fn parse_u8(s: &str) -> (r: Option<u8>)
    ensures
        r == parse_u8_text(s@),
{
    let v = crate::text::chars_of(s);
    let start: usize = if v.len() > 0 && v[0] == '+' { 1 } else { 0 };
    let ghost digits = if s@.len() > 0 && s@[0] == '+' {
        s@.drop_first()
    } else {
        s@
    };
    assert(digits =~= s@.skip(start as int));
    assert(parse_u8_text(s@) == (if digits.len() > 0 && all_digits(digits) && decimal_value(digits)
        <= 255 {
        Some(decimal_value(digits) as u8)
    } else {
        None
    }));
    if start == v.len() {
        return None;
    }
    let mut acc: u32 = 0;
    let mut i = start;
    assert(s@.subrange(start as int, start as int) =~= Seq::<char>::empty());
    while i < v.len()
        invariant
            v@ == s@,
            start < v.len(),
            start <= i <= v.len(),
            digits == s@.skip(start as int),
            parse_u8_text(s@) == (if digits.len() > 0 && all_digits(digits) && decimal_value(
                digits,
            ) <= 255 {
                Some(decimal_value(digits) as u8)
            } else {
                None
            }),
            acc <= 255,
            acc == decimal_value(s@.subrange(start as int, i as int)),
            all_digits(s@.subrange(start as int, i as int)),
        decreases v.len() - i,
    {
        let c = v[i];
        let d: u32 = if c == '0' {
            0
        } else if c == '1' {
            1
        } else if c == '2' {
            2
        } else if c == '3' {
            3
        } else if c == '4' {
            4
        } else if c == '5' {
            5
        } else if c == '6' {
            6
        } else if c == '7' {
            7
        } else if c == '8' {
            8
        } else if c == '9' {
            9
        } else {
            assert(digits[i - start] == c);
            assert(digit_value(digits[i - start]) is None);
            assert(!all_digits(digits));
            assert(parse_u8_text(s@) is None);
            return None;
        };
        assert(digit_value(c) == Some(d as int));
        let ghost prefix = s@.subrange(start as int, i + 1);
        assert(prefix.drop_last() =~= s@.subrange(start as int, i as int));
        assert(all_digits(prefix)) by {
            assert forall|j: int| 0 <= j < prefix.len() implies (#[trigger] digit_value(prefix[j])) is Some by {
                if j < prefix.len() - 1 {
                    assert(prefix[j] == s@.subrange(start as int, i as int)[j]);
                }
            }
        }
        let next = acc * 10 + d;
        assert(prefix.last() == c);
        assert(decimal_value(prefix) == next);
        if next > 255 {
            proof {
                if all_digits(digits) {
                    assert(prefix + digits.skip(i + 1 - start) =~= digits);
                    lemma_decimal_value_grows(prefix, digits.skip(i + 1 - start));
                    assert(decimal_value(digits) > 255);
                }
                assert(parse_u8_text(s@) is None);
            }
            return None;
        }
        acc = next;
        i = i + 1;
    }
    assert(s@.subrange(start as int, v.len() as int) =~= digits);
    Some(acc as u8)
}

} // verus!
