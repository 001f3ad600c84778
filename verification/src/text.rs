//! Decimal and hexadecimal text for integers.

use vstd::prelude::*;

verus! {

/// The character of a digit value below 16 (lowercase for 10..15).
pub open spec fn digit_char(d: nat) -> char {
    if d == 0 { '0' }
    else if d == 1 { '1' }
    else if d == 2 { '2' }
    else if d == 3 { '3' }
    else if d == 4 { '4' }
    else if d == 5 { '5' }
    else if d == 6 { '6' }
    else if d == 7 { '7' }
    else if d == 8 { '8' }
    else if d == 9 { '9' }
    else if d == 10 { 'a' }
    else if d == 11 { 'b' }
    else if d == 12 { 'c' }
    else if d == 13 { 'd' }
    else if d == 14 { 'e' }
    else { 'f' }
}

/// The digits of `n` in base `base` (2..=16), most significant first, with no
/// leading zero (and the single digit `0` for zero).
pub open spec fn digits(n: nat, base: nat) -> Seq<char>
    decreases n,
{
    if base < 2 || n < base {
        seq![digit_char(n)]
    } else {
        proof {
            lemma_div_smaller(n, base);
        }
        digits(n / base, base).push(digit_char(n % base))
    }
}

/// `s` left-padded with `0` to at least `width` characters.
pub open spec fn zero_pad(s: Seq<char>, width: nat) -> Seq<char> {
    if s.len() >= width {
        s
    } else {
        Seq::new((width - s.len()) as nat, |i: int| '0') + s
    }
}

/// Dividing by a base of at least 2 makes a positive number smaller.
pub proof fn lemma_div_smaller(n: nat, base: nat)
    requires
        2 <= base <= n,
    ensures
        n / base < n,
{
    assert(n / base < n) by (nonlinear_arith)
        requires
            2 <= base <= n,
    ;
}

/// The decimal text of `n`.
pub open spec fn decimal(n: nat) -> Seq<char> {
    digits(n, 10)
}

/// The lowercase hexadecimal text of `n`.
pub open spec fn hex(n: nat) -> Seq<char> {
    digits(n, 16)
}

fn digit_str(d: u64) -> (r: &'static str)
    requires
        d < 16,
    ensures
        r@ == seq![digit_char(d as nat)],
{
    proof {
        reveal_strlit("0");
        reveal_strlit("1");
        reveal_strlit("2");
        reveal_strlit("3");
        reveal_strlit("4");
        reveal_strlit("5");
        reveal_strlit("6");
        reveal_strlit("7");
        reveal_strlit("8");
        reveal_strlit("9");
        reveal_strlit("a");
        reveal_strlit("b");
        reveal_strlit("c");
        reveal_strlit("d");
        reveal_strlit("e");
        reveal_strlit("f");
    }
    if d == 0 { "0" }
    else if d == 1 { "1" }
    else if d == 2 { "2" }
    else if d == 3 { "3" }
    else if d == 4 { "4" }
    else if d == 5 { "5" }
    else if d == 6 { "6" }
    else if d == 7 { "7" }
    else if d == 8 { "8" }
    else if d == 9 { "9" }
    else if d == 10 { "a" }
    else if d == 11 { "b" }
    else if d == 12 { "c" }
    else if d == 13 { "d" }
    else if d == 14 { "e" }
    else { "f" }
}

/// Append the digits of `n` in base `base` to `out`.
pub fn push_digits(out: &mut String, n: u64, base: u64)
    requires
        2 <= base <= 16,
    ensures
        final(out)@ == old(out)@ + digits(n as nat, base as nat),
    decreases n,
{
    if n < base {
        out.append(digit_str(n));
    } else {
        proof {
            lemma_div_smaller(n as nat, base as nat);
        }
        push_digits(out, n / base, base);
        out.append(digit_str(n % base));
        assert(digits(n as nat, base as nat) == digits((n / base) as nat, base as nat).push(
            digit_char((n % base) as nat),
        ));
        assert(final(out)@ =~= old(out)@ + digits(n as nat, base as nat));
    }
}

/// Append the digits of `n` in base `base`, left-padded with `0` to `width`.
pub fn push_padded_digits(out: &mut String, n: u64, base: u64, width: usize)
    requires
        2 <= base <= 16,
    ensures
        final(out)@ == old(out)@ + zero_pad(digits(n as nat, base as nat), width as nat),
{
    let mut body = String::new();
    push_digits(&mut body, n, base);
    assert(body@ =~= digits(n as nat, base as nat));
    let blen = collect_chars(body.as_str()).len();
    let ghost start = out@;
    if blen < width {
        let mut i: usize = 0;
        while i < width - blen
            invariant
                blen < width,
                i <= width - blen,
                out@ == start + Seq::new(i as nat, |j: int| '0'),
            decreases width - blen - i,
        {
            proof {
                reveal_strlit("0");
            }
            out.append("0");
            i = i + 1;
            assert(out@ =~= start + Seq::new(i as nat, |j: int| '0'));
        }
    }
    out.append(body.as_str());
    assert(final(out)@ =~= start + zero_pad(digits(n as nat, base as nat), width as nat));
}

/// The decimal text of `n`.
pub fn to_decimal(n: u64) -> (r: String)
    ensures
        r@ == decimal(n as nat),
{
    let mut s = String::new();
    push_digits(&mut s, n, 10);
    assert(s@ =~= decimal(n as nat));
    s
}

// ---------------------------------------------------------------------------
// Parsing
// ---------------------------------------------------------------------------

/// Whether `c` is an ASCII decimal digit.
pub open spec fn is_digit(c: char) -> bool {
    '0' <= c && c <= '9'
}

/// The value of the decimal digit string `t`.
pub open spec fn decimal_value(t: Seq<char>) -> nat
    decreases t.len(),
{
    if t.len() == 0 {
        0
    } else {
        decimal_value(t.drop_last()) * 10 + ((t.last() as nat) - ('0' as nat)) as nat
    }
}

/// The digits part of the text of an unsigned integer: the text without one
/// leading `+`, when something follows the sign.
pub open spec fn unsigned_digits(s: Seq<char>) -> Seq<char> {
    if s.len() > 1 && s[0] == '+' {
        s.drop_first()
    } else {
        s
    }
}

/// The value of `s` read as the decimal text of a `u64` (an optional leading
/// `+`, then one or more ASCII digits, with a value that fits a `u64`).
pub open spec fn parse_u64_spec(s: Seq<char>) -> Option<u64> {
    let t = unsigned_digits(s);
    if t.len() > 0 && (forall|i: int| 0 <= i < t.len() ==> is_digit(#[trigger] t[i]))
        && decimal_value(t) <= u64::MAX {
        Some(decimal_value(t) as u64)
    } else {
        None
    }
}

proof fn lemma_decimal_value_monotone(t: Seq<char>, k: int)
    requires
        0 <= k <= t.len(),
        forall|i: int| 0 <= i < t.len() ==> is_digit(#[trigger] t[i]),
    ensures
        decimal_value(t.subrange(0, k)) <= decimal_value(t),
    decreases t.len() - k,
{
    if k < t.len() {
        lemma_decimal_value_monotone(t, k + 1);
        let s = t.subrange(0, k + 1);
        assert(s.drop_last() =~= t.subrange(0, k));
        assert(s.last() == t[k]);
        assert(is_digit(t[k]));
        assert(decimal_value(s) == decimal_value(s.drop_last()) * 10 + ((s.last() as nat) - (
        '0' as nat)) as nat);
    } else {
        assert(t.subrange(0, k) =~= t);
    }
}

/// Parse `s` as the decimal text of a `u64`.
pub fn parse_u64(s: &str) -> (r: Option<u64>)
    ensures
        r == parse_u64_spec(s@),
{
    let chars: Vec<char> = collect_chars(s);
    assert(chars@.subrange(0, chars@.len() as int) =~= s@);
    parse_u64_prefix(&chars, chars.len())
}

/// Parse the first `end` characters of `chars` as the decimal text of a `u64`.
pub fn parse_u64_prefix(chars: &Vec<char>, end: usize) -> (r: Option<u64>)
    requires
        end <= chars@.len(),
    ensures
        r == parse_u64_spec(chars@.subrange(0, end as int)),
{
    let ghost u = chars@.subrange(0, end as int);
    let n = end;
    let mut start: usize = 0;
    if n > 1 && chars[0] == '+' {
        start = 1;
    }
    let ghost t = unsigned_digits(u);
    assert(t =~= chars@.subrange(start as int, n as int));
    if start == n {
        return None;
    }
    let mut acc: u64 = 0;
    let mut i: usize = start;
    while i < n
        invariant
            start <= i <= n,
            n == end,
            n <= chars@.len(),
            u == chars@.subrange(0, n as int),
            t == chars@.subrange(start as int, n as int),
            t == unsigned_digits(u),
            forall|j: int| start <= j < i ==> is_digit(#[trigger] chars@[j]),
            acc == decimal_value(chars@.subrange(start as int, i as int)),
        decreases n - i,
    {
        let c = chars[i];
        if !('0' <= c && c <= '9') {
            proof {
                assert(t[i - start] == c);
                assert(!is_digit(t[i - start]));
            }
            return None;
        }
        let d = (c as u64) - ('0' as u64);
        proof {
            let w = chars@.subrange(start as int, i + 1);
            assert(w.drop_last() =~= chars@.subrange(start as int, i as int));
            assert(w.last() == c);
        }
        if acc > (u64::MAX - d) / 10 {
            proof {
                let w = chars@.subrange(start as int, i + 1);
                assert(acc * 10 + d > u64::MAX) by (nonlinear_arith)
                    requires
                        acc > (u64::MAX - d) / 10,
                        d <= 9,
                ;
                assert(decimal_value(w) > u64::MAX);
                if forall|j: int| 0 <= j < t.len() ==> is_digit(#[trigger] t[j]) {
                    assert(w =~= t.subrange(0, i + 1 - start));
                    lemma_decimal_value_monotone(t, i + 1 - start);
                }
            }
            return None;
        }
        acc = acc * 10 + d;
        i = i + 1;
    }
    proof {
        assert(chars@.subrange(start as int, n as int) == t);
        assert forall|j: int| 0 <= j < t.len() implies is_digit(#[trigger] t[j]) by {
            assert(t[j] == chars@[j + start]);
        }
    }
    Some(acc)
}

/// The characters of `s`.
pub fn collect_chars(s: &str) -> (r: Vec<char>)
    ensures
        r@ == s@,
{
    broadcast use vstd::string::axiom_spec_iter;

    let mut out: Vec<char> = Vec::new();
    for c in it: s.chars()
        invariant
            it.seq() == s@,
            out@ == it.seq().subrange(0, it.index() as int),
    {
        out.push(c);
        assert(out@ =~= it.seq().subrange(0, it.index() + 1));
    }
    assert(out@ =~= s@);
    out
}


/// A digit below ten is a decimal digit character of that value.
pub proof fn lemma_digit_char(d: nat)
    requires
        d < 10,
    ensures
        is_digit(digit_char(d)),
        (digit_char(d) as nat) - ('0' as nat) == d,
{
}

/// The decimal text of `n` is made of decimal digits and has value `n`.
pub proof fn lemma_decimal_value_of_decimal(n: nat)
    ensures
        decimal(n).len() > 0,
        forall|i: int| 0 <= i < decimal(n).len() ==> is_digit(#[trigger] decimal(n)[i]),
        decimal_value(decimal(n)) == n,
    decreases n,
{
    if n < 10 {
        lemma_digit_char(n);
        assert(decimal(n).drop_last() =~= Seq::<char>::empty());
        assert(decimal_value(Seq::<char>::empty()) == 0);
    } else {
        lemma_div_smaller(n, 10);
        lemma_decimal_value_of_decimal(n / 10);
        lemma_digit_char(n % 10);
        let d = decimal(n);
        assert(d == decimal(n / 10).push(digit_char(n % 10)));
        assert(d.drop_last() =~= decimal(n / 10));
        assert forall|i: int| 0 <= i < d.len() implies is_digit(#[trigger] d[i]) by {
            if i < d.len() - 1 {
                assert(d[i] == decimal(n / 10)[i]);
            }
        }
        assert(decimal_value(d) == decimal_value(decimal(n / 10)) * 10 + ((d.last() as nat) - (
        '0' as nat)) as nat);
        assert(n == (n / 10) * 10 + n % 10);
    }
}

/// Leading zeros do not change the value of a decimal text.
pub proof fn lemma_decimal_value_leading_zeros(k: nat, t: Seq<char>)
    ensures
        decimal_value(Seq::new(k, |i: int| '0') + t) == decimal_value(t),
    decreases t.len(), k,
{
    let z = Seq::new(k, |i: int| '0');
    if t.len() == 0 {
        assert(z + t =~= z);
        if k > 0 {
            let z1 = Seq::new((k - 1) as nat, |i: int| '0');
            lemma_decimal_value_leading_zeros((k - 1) as nat, t);
            assert(z1 + t =~= z1);
            assert(z.drop_last() =~= z1);
        }
    } else {
        lemma_decimal_value_leading_zeros(k, t.drop_last());
        assert((z + t).drop_last() =~= z + t.drop_last());
        assert((z + t).last() == t.last());
    }
}

/// A zero-padded decimal text reads back as its value.
pub proof fn lemma_parse_zero_padded(n: u64, width: nat)
    ensures
        parse_u64_spec(zero_pad(decimal(n as nat), width)) == Some(n),
{
    let d = decimal(n as nat);
    lemma_decimal_value_of_decimal(n as nat);
    let p = zero_pad(d, width);
    if d.len() < width {
        let k = (width - d.len()) as nat;
        lemma_decimal_value_leading_zeros(k, d);
        assert forall|i: int| 0 <= i < p.len() implies is_digit(#[trigger] p[i]) by {
            if i >= k {
                assert(p[i] == d[i - k]);
            }
        }
    }
    assert(is_digit(p[0]));
    assert(unsigned_digits(p) == p);
}

/// Whether `c` is a lowercase hexadecimal digit.
pub open spec fn is_hex_digit(c: char) -> bool {
    ('0' <= c && c <= '9') || ('a' <= c && c <= 'f')
}

/// The value of a lowercase hexadecimal digit.
pub open spec fn hex_digit_value(c: char) -> nat {
    if '0' <= c && c <= '9' {
        ((c as nat) - ('0' as nat)) as nat
    } else {
        ((c as nat) - ('a' as nat) + 10) as nat
    }
}

/// The value of the hexadecimal digit string `t`.
pub open spec fn hex_value(t: Seq<char>) -> nat
    decreases t.len(),
{
    if t.len() == 0 {
        0
    } else {
        hex_value(t.drop_last()) * 16 + hex_digit_value(t.last())
    }
}

/// `16` to the power `k`.
pub open spec fn pow16(k: nat) -> nat
    decreases k,
{
    if k == 0 {
        1
    } else {
        16 * pow16((k - 1) as nat)
    }
}

/// A digit below sixteen is a hexadecimal digit character of that value.
proof fn lemma_hex_digit_char(d: nat)
    requires
        d < 16,
    ensures
        is_hex_digit(digit_char(d)),
        hex_digit_value(digit_char(d)) == d,
{
}

/// The hexadecimal text of `n` is made of hexadecimal digits, has value
/// `n`, and has at most `k` digits when `n` is below `16^k`.
proof fn lemma_hex_of(n: nat, k: nat)
    requires
        k >= 1,
        n < pow16(k),
    ensures
        1 <= hex(n).len() <= k,
        forall|i: int| 0 <= i < hex(n).len() ==> is_hex_digit(#[trigger] hex(n)[i]),
        hex_value(hex(n)) == n,
    decreases n,
{
    if n < 16 {
        lemma_hex_digit_char(n);
        assert(hex(n).drop_last() =~= Seq::<char>::empty());
        assert(hex_value(Seq::<char>::empty()) == 0);
    } else {
        lemma_div_smaller(n, 16);
        let q = n / 16;
        assert(k >= 2) by {
            if k == 1 {
                assert(pow16(1) == 16 * pow16(0));
            }
        }
        assert(q < pow16((k - 1) as nat)) by (nonlinear_arith)
            requires
                n < pow16(k),
                pow16(k) == 16 * pow16((k - 1) as nat),
                q == n / 16,
        ;
        lemma_hex_of(q, (k - 1) as nat);
        lemma_hex_digit_char(n % 16);
        let d = hex(n);
        assert(d == hex(q).push(digit_char(n % 16)));
        assert(d.drop_last() =~= hex(q));
        assert forall|i: int| 0 <= i < d.len() implies is_hex_digit(#[trigger] d[i]) by {
            if i < d.len() - 1 {
                assert(d[i] == hex(q)[i]);
            }
        }
        assert(hex_value(d) == hex_value(d.drop_last()) * 16 + hex_digit_value(d.last()));
        assert(n == q * 16 + n % 16);
    }
}

/// Leading zeros do not change the value of a hexadecimal text.
proof fn lemma_hex_value_leading_zeros(k: nat, t: Seq<char>)
    ensures
        hex_value(Seq::new(k, |i: int| '0') + t) == hex_value(t),
    decreases t.len(), k,
{
    let z = Seq::new(k, |i: int| '0');
    if t.len() == 0 {
        assert(z + t =~= z);
        if k > 0 {
            let z1 = Seq::new((k - 1) as nat, |i: int| '0');
            lemma_hex_value_leading_zeros((k - 1) as nat, t);
            assert(z1 + t =~= z1);
            assert(z.drop_last() =~= z1);
        }
    } else {
        lemma_hex_value_leading_zeros(k, t.drop_last());
        assert((z + t).drop_last() =~= z + t.drop_last());
        assert((z + t).last() == t.last());
    }
}

/// Law: the 16-digit zero-padded hexadecimal text of a `u64` has exactly 16
/// lowercase hexadecimal digits and reads back as the number.
pub proof fn lemma_hex16_round_trip(n: u64)
    ensures
        zero_pad(hex(n as nat), 16).len() == 16,
        forall|i: int| 0 <= i < 16 ==> is_hex_digit(#[trigger] zero_pad(hex(n as nat), 16)[i]),
        hex_value(zero_pad(hex(n as nat), 16)) == n,
{
    assert(pow16(16) == 0x1_0000_0000_0000_0000) by {
        reveal_with_fuel(pow16, 17);
    }
    lemma_hex_of(n as nat, 16);
    let d = hex(n as nat);
    let p = zero_pad(d, 16);
    if d.len() < 16 {
        let k = (16 - d.len()) as nat;
        lemma_hex_value_leading_zeros(k, d);
        assert forall|i: int| 0 <= i < 16 implies is_hex_digit(#[trigger] p[i]) by {
            if i >= k {
                assert(p[i] == d[i - k]);
            }
        }
    }
}

} // verus!
