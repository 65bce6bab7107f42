use vstd::prelude::*;

verus! {

/// The value of one ASCII hexadecimal digit, either case.
pub open spec fn hex_digit_value(b: u8) -> Option<nat> {
    if 48 <= b <= 57 {
        Some((b - 48) as nat)
    } else if 97 <= b <= 102 {
        Some((b - 87) as nat)
    } else if 65 <= b <= 70 {
        Some((b - 55) as nat)
    } else {
        None
    }
}

/// The value of a run of hexadecimal digits, most significant first; `None`
/// if any byte is not a digit.
pub open spec fn hex_value(digits: Seq<u8>) -> Option<nat>
    decreases digits.len(),
{
    if digits.len() == 0 {
        Some(0)
    } else {
        match (hex_value(digits.drop_last()), hex_digit_value(digits.last())) {
            (Some(high), Some(low)) => Some(high * 16 + low),
            _ => None,
        }
    }
}

/// A token read as an unsigned 64-bit hexadecimal number: an optional `+`,
/// then at least one digit, with a value below 2^64.
pub open spec fn parse_hex_spec(token: Seq<u8>) -> Option<u64> {
    let digits = if token.len() > 0 && token[0] == 43u8 {
        token.drop_first()
    } else {
        token
    };
    if digits.len() == 0 {
        None
    } else {
        fit_u64(hex_value(digits))
    }
}

pub open spec fn fit_u64(v: Option<nat>) -> Option<u64> {
    match v {
        Some(n) => if n <= u64::MAX {
            Some(n as u64)
        } else {
            None
        },
        None => None,
    }
}

/// The lower-case ASCII digit of a value below 16.
pub open spec fn hex_char(d: nat) -> u8 {
    if d < 10 {
        (48 + d) as u8
    } else {
        (87 + d) as u8
    }
}

/// The lowest `width` hexadecimal digits of `n`, most significant first.
pub open spec fn hex_width(n: nat, width: nat) -> Seq<u8>
    decreases width,
{
    if width == 0 {
        Seq::empty()
    } else {
        hex_width(n / 16, (width - 1) as nat).push(hex_char(n % 16))
    }
}

/// How many hexadecimal digits `n` has (one for zero).
pub open spec fn hex_digits_needed(n: nat) -> nat
    decreases n,
{
    if n < 16 {
        1
    } else {
        1 + hex_digits_needed(n / 16)
    }
}

/// `n` in lower-case hexadecimal, zero-padded to at least `width` digits.
pub open spec fn padded_hex(n: nat, width: nat) -> Seq<u8> {
    let needed = hex_digits_needed(n);
    hex_width(n, if needed > width { needed } else { width })
}

proof fn lemma_hex_value_prefix(s: Seq<u8>, j: int)
    requires
        hex_value(s) is Some,
        0 <= j <= s.len(),
    ensures
        hex_value(s.subrange(0, j)) is Some,
        hex_value(s.subrange(0, j))->Some_0 <= hex_value(s)->Some_0,
    decreases s.len(),
{
    if j == s.len() {
        assert(s.subrange(0, j) == s);
    } else {
        lemma_hex_value_prefix(s.drop_last(), j);
        assert(s.drop_last().subrange(0, j) == s.subrange(0, j));
    }
}

fn digit_value(b: u8) -> (r: Option<u64>)
    ensures
        r is Some <==> hex_digit_value(b) is Some,
        r is Some ==> r->Some_0 as nat == hex_digit_value(b)->Some_0 && r->Some_0 < 16,
{
    if 48 <= b && b <= 57 {
        Some((b - 48) as u64)
    } else if 97 <= b && b <= 102 {
        Some((b - 87) as u64)
    } else if 65 <= b && b <= 70 {
        Some((b - 55) as u64)
    } else {
        None
    }
}

/// Read `token` as an unsigned hexadecimal number, as `u64::from_str_radix`
/// does with radix 16.
pub fn parse_hex(token: &[u8]) -> (r: Option<u64>)
    ensures
        r == parse_hex_spec(token@),
{
    let start: usize = if token.len() > 0 && token[0] == 43u8 {
        1
    } else {
        0
    };
    let ghost digits = if token@.len() > 0 && token@[0] == 43u8 {
        token@.drop_first()
    } else {
        token@
    };
    assert(digits == token@.subrange(start as int, token@.len() as int));
    if start == token.len() {
        return None;
    }
    assert(parse_hex_spec(token@) == fit_u64(hex_value(digits)));
    let mut acc: u64 = 0;
    let mut i: usize = start;
    while i < token.len()
        invariant
            start <= i <= token@.len(),
            token@.len() == token.len(),
            digits == token@.subrange(start as int, token@.len() as int),
            parse_hex_spec(token@) == fit_u64(hex_value(digits)),
            hex_value(token@.subrange(start as int, i as int)) == Some(acc as nat),
        decreases token@.len() - i,
    {
        let ghost prefix = token@.subrange(start as int, i as int);
        let ghost next = token@.subrange(start as int, i + 1);
        assert(next.drop_last() =~= prefix);
        assert(next.last() == token@[i as int]);
        match digit_value(token[i]) {
            None => {
                assert(hex_value(next) is None);
                proof {
                    if hex_value(digits) is Some {
                        lemma_hex_value_prefix(digits, i + 1 - start);
                        assert(digits.subrange(0, i + 1 - start) =~= next);
                    }
                    assert(hex_value(digits) is None);
                }
                return None;
            },
            Some(d) => {
                if acc > (u64::MAX - d) / 16 {
                    assert(acc * 16 + d > u64::MAX) by (nonlinear_arith)
                        requires
                            acc > (u64::MAX - d) / 16,
                            d < 16,
                    ;
                    proof {
                        assert(hex_value(next) == Some((acc * 16 + d) as nat));
                        if hex_value(digits) is Some {
                            lemma_hex_value_prefix(digits, i + 1 - start);
                            assert(digits.subrange(0, i + 1 - start) =~= next);
                            assert(hex_value(digits)->Some_0 > u64::MAX);
                        }
                    }
                    return None;
                }
                assert(acc * 16 + d <= u64::MAX) by (nonlinear_arith)
                    requires
                        acc <= (u64::MAX - d) / 16,
                        d < 16,
                ;
                acc = acc * 16 + d;
            },
        }
        i = i + 1;
    }
    assert(token@.subrange(start as int, token@.len() as int) == digits);
    Some(acc)
}

fn hex_char_exec(d: u64) -> (r: u8)
    requires
        d < 16,
    ensures
        r == hex_char(d as nat),
{
    if d < 10 {
        (48 + d) as u8
    } else {
        (87 + d) as u8
    }
}

/// Append `n` in lower-case hexadecimal, zero-padded to at least `width`
/// digits, as the `{:0width$x}` format does.
pub fn push_padded_hex(out: &mut Vec<u8>, n: u64, width: usize)
    requires
        width <= 64,
    ensures
        final(out)@ == old(out)@ + padded_hex(n as nat, width as nat),
{
    let mut needed: usize = 1;
    let mut x: u64 = n;
    assert(pow16(0) == 1);
    assert(x as nat * pow16(0) <= n as nat) by (nonlinear_arith)
        requires
            pow16(0) == 1,
            x == n,
    ;
    while x >= 16
        invariant
            1 <= needed <= 16,
            x as nat * pow16((needed - 1) as nat) <= n as nat,
            hex_digits_needed(n as nat) == needed - 1 + hex_digits_needed(x as nat),
        decreases x,
    {
        proof {
            lemma_pow16_step((needed - 1) as nat);
            assert((x / 16) as nat * pow16(needed as nat) <= x as nat * pow16((needed - 1) as nat)) by (nonlinear_arith)
                requires
                    pow16(needed as nat) == 16 * pow16((needed - 1) as nat),
            ;
            if needed == 16 {
                lemma_pow16_16();
                assert(x as nat * pow16(15) >= 16 * pow16(15)) by (nonlinear_arith)
                    requires
                        x >= 16,
                ;
            }
        }
        x = x / 16;
        needed = needed + 1;
    }
    let m: usize = if needed > width {
        needed
    } else {
        width
    };
    let mut buf: Vec<u8> = Vec::new();
    let mut k: usize = 0;
    while k < m
        invariant
            k <= m,
            buf@.len() == k,
        decreases m - k,
    {
        buf.push(48u8);
        k = k + 1;
    }
    let mut idx: usize = m;
    let mut y: u64 = n;
    while idx > 0
        invariant
            idx <= m,
            buf@.len() == m,
            hex_width(n as nat, m as nat) == hex_width(y as nat, idx as nat) + buf@.subrange(
                idx as int,
                m as int,
            ),
        decreases idx,
    {
        let ghost rest = buf@.subrange(idx as int, m as int);
        let c = hex_char_exec(y % 16);
        idx = idx - 1;
        buf.set(idx, c);
        assert(buf@.subrange(idx as int, m as int) == seq![c] + rest);
        assert(hex_width(y as nat, (idx + 1) as nat) == hex_width((y / 16) as nat, idx as nat).push(c));
        y = y / 16;
    }
    assert(buf@ == buf@.subrange(0, m as int));
    let mut j: usize = 0;
    let ghost start = out@;
    while j < m
        invariant
            j <= m,
            buf@.len() == m,
            out@ == start + buf@.subrange(0, j as int),
        decreases m - j,
    {
        out.push(buf[j]);
        assert(buf@.subrange(0, j + 1) == buf@.subrange(0, j as int).push(buf@[j as int]));
        j = j + 1;
    }
}

pub open spec fn pow16(k: nat) -> nat
    decreases k,
{
    if k == 0 {
        1
    } else {
        16 * pow16((k - 1) as nat)
    }
}

proof fn lemma_pow16_step(k: nat)
    ensures
        pow16(k + 1) == 16 * pow16(k),
{
}

proof fn lemma_pow16_16()
    ensures
        pow16(15) * 16 == 0x1_0000_0000_0000_0000,
{
    reveal_with_fuel(pow16, 16);
}

} // verus!

verus! {

pub proof fn lemma_hex_width_len(n: nat, width: nat)
    ensures
        hex_width(n, width).len() == width,
    decreases width,
{
    if width > 0 {
        lemma_hex_width_len(n / 16, (width - 1) as nat);
    }
}

pub proof fn lemma_digits_needed_bound(n: nat, k: nat)
    requires
        k >= 1,
        n < pow16(k),
    ensures
        hex_digits_needed(n) <= k,
    decreases k,
{
    if n >= 16 {
        assert(k >= 2) by {
            if k == 1 {
                reveal_with_fuel(pow16, 2);
            }
        }
        assert(n / 16 < pow16((k - 1) as nat)) by (nonlinear_arith)
            requires
                n < pow16(k),
                pow16(k) == 16 * pow16((k - 1) as nat),
        ;
        lemma_digits_needed_bound(n / 16, (k - 1) as nat);
    }
}

pub proof fn lemma_pow16_values()
    ensures
        pow16(8) == 0x1_0000_0000,
        pow16(16) == 0x1_0000_0000_0000_0000,
{
    reveal_with_fuel(pow16, 17);
}

/// A value below `16^width` padded to `width` digits takes exactly `width`
/// digits.
pub proof fn lemma_padded_hex_len(n: nat, width: nat)
    requires
        width >= 1,
        n < pow16(width),
    ensures
        padded_hex(n, width).len() == width,
{
    lemma_digits_needed_bound(n, width);
    lemma_hex_width_len(n, width);
}

} // verus!

verus! {

/// Every byte of `hex_width` is a lower-case hexadecimal digit.
pub proof fn lemma_hex_width_digits(n: nat, width: nat)
    ensures
        forall|j: int|
            0 <= j < hex_width(n, width).len() ==> {
                let c = #[trigger] hex_width(n, width)[j];
                (48 <= c <= 57 || 97 <= c <= 102)
            },
    decreases width,
{
    lemma_hex_width_len(n, width);
    if width > 0 {
        lemma_hex_width_digits(n / 16, (width - 1) as nat);
        lemma_hex_width_len(n / 16, (width - 1) as nat);
        let prev = hex_width(n / 16, (width - 1) as nat);
        assert forall|j: int| 0 <= j < hex_width(n, width).len() implies {
            let c = #[trigger] hex_width(n, width)[j];
            (48 <= c <= 57 || 97 <= c <= 102)
        } by {
            if j < prev.len() {
                assert(hex_width(n, width)[j] == prev[j]);
            }
        }
    }
}

/// The digits of `hex_width(n, width)` read back as `n` modulo `16^width`.
pub proof fn lemma_hex_value_width(n: nat, width: nat)
    ensures
        hex_value(hex_width(n, width)) == Some(n % pow16(width)),
    decreases width,
{
    if width == 0 {
        assert(n % 1 == 0);
    } else {
        let w1 = (width - 1) as nat;
        lemma_hex_value_width(n / 16, w1);
        let s = hex_width(n, width);
        assert(s.drop_last() == hex_width(n / 16, w1));
        assert(hex_digit_value(hex_char(n % 16)) == Some(n % 16));
        assert(pow16(width) == 16 * pow16(w1));
        assert(pow16(w1) > 0) by {
            lemma_pow16_positive(w1);
        }
        vstd::arithmetic::div_mod::lemma_mod_breakdown(n as int, 16, pow16(w1) as int);
        assert(((n / 16) % pow16(w1)) * 16 + n % 16 == n % pow16(width)) by (nonlinear_arith)
            requires
                n % (16 * pow16(w1)) == 16 * ((n / 16) % pow16(w1)) + n % 16,
                pow16(width) == 16 * pow16(w1),
        ;
    }
}

pub proof fn lemma_pow16_positive(k: nat)
    ensures
        pow16(k) > 0,
    decreases k,
{
    if k > 0 {
        lemma_pow16_positive((k - 1) as nat);
    }
}

/// A value below `16^width`, padded to `width` digits, parses back.
pub proof fn lemma_parse_padded_hex(n: u64, width: nat)
    requires
        width >= 1,
        n < pow16(width),
    ensures
        padded_hex(n as nat, width) == hex_width(n as nat, width),
        parse_hex_spec(padded_hex(n as nat, width)) == Some(n),
{
    lemma_digits_needed_bound(n as nat, width);
    lemma_hex_width_len(n as nat, width);
    lemma_hex_width_digits(n as nat, width);
    lemma_hex_value_width(n as nat, width);
    let s = hex_width(n as nat, width);
    assert(s[0] != 43u8);
    assert((n as nat) % pow16(width) == n) by (nonlinear_arith)
        requires
            n < pow16(width),
    ;
}

} // verus!
