use vstd::prelude::*;

verus! {

/// The value of a hexadecimal digit of either case, or -1 for any other char.
pub open spec fn hex_digit_value(c: char) -> int {
    let u = c as u32;
    if 48 <= u <= 57 {
        u - 48
    } else if 97 <= u <= 102 {
        u - 87
    } else if 65 <= u <= 70 {
        u - 55
    } else {
        -1
    }
}

pub open spec fn all_hex_digits(s: Seq<char>) -> bool {
    forall|i: int| 0 <= i < s.len() ==> hex_digit_value(#[trigger] s[i]) >= 0
}

/// The number that a string of hexadecimal digits denotes, most significant digit first.
pub open spec fn hex_value(s: Seq<char>) -> nat
    decreases s.len(),
{
    if s.len() == 0 {
        0
    } else {
        hex_value(s.drop_last()) * 16 + hex_digit_value(s.last()) as nat
    }
}

/// The digits that radix-16 parsing of an unsigned integer reads: an optional
/// leading `+` is skipped.
pub open spec fn radix16_digits(s: Seq<char>) -> Seq<char> {
    if s.len() > 0 && s[0] == '+' {
        s.drop_first()
    } else {
        s
    }
}

/// Radix-16 parsing of an unsigned integer below `bound`: an optional `+`, then at
/// least one hexadecimal digit of either case, and nothing else.
pub open spec fn parse_radix16(s: Seq<char>, bound: nat) -> Option<nat> {
    let d = radix16_digits(s);
    if d.len() > 0 && all_hex_digits(d) && hex_value(d) < bound {
        Some(hex_value(d))
    } else {
        None
    }
}

pub open spec fn pow16(n: nat) -> nat
    decreases n,
{
    if n == 0 {
        1
    } else {
        16 * pow16((n - 1) as nat)
    }
}

/// The lower-case hexadecimal digit for `d < 16`.
pub open spec fn hex_char(d: nat) -> char {
    if d < 10 {
        ((48 + d) as u32) as char
    } else {
        ((87 + d) as u32) as char
    }
}

/// The last `width` hexadecimal digits of `v`, lower case, zero padded.
pub open spec fn hex_fixed(v: nat, width: nat) -> Seq<char>
    decreases width,
{
    if width == 0 {
        seq![]
    } else {
        hex_fixed(v / 16, (width - 1) as nat).push(hex_char(v % 16))
    }
}

pub fn hex_digit(c: char) -> (r: Option<u8>)
    ensures
        match r {
            Some(v) => hex_digit_value(c) == v as int && v < 16,
            None => hex_digit_value(c) < 0,
        },
{
    let u = c as u32;
    if 48 <= u && u <= 57 {
        Some((u - 48) as u8)
    } else if 97 <= u && u <= 102 {
        Some((u - 87) as u8)
    } else if 65 <= u && u <= 70 {
        Some((u - 55) as u8)
    } else {
        None
    }
}

pub fn hex_char_exec(d: u8) -> (c: char)
    requires
        d < 16,
    ensures
        c == hex_char(d as nat),
{
    if d < 10 {
        let b: u8 = 48 + d;
        let c = b as char;
        assert(c == hex_char(d as nat));
        c
    } else {
        let b: u8 = 87 + d;
        let c = b as char;
        assert(c == hex_char(d as nat));
        c
    }
}

proof fn lemma_hex_value_step(s: Seq<char>, k: int)
    requires
        0 <= k < s.len(),
    ensures
        hex_value(s.take(k + 1)) == hex_value(s.take(k)) * 16 + hex_digit_value(s[k]) as nat,
{
    assert(s.take(k + 1).drop_last() =~= s.take(k));
}

proof fn lemma_hex_value_mono(s: Seq<char>, i: int, j: int)
    requires
        0 <= i <= j <= s.len(),
        all_hex_digits(s),
    ensures
        hex_value(s.take(i)) <= hex_value(s.take(j)),
    decreases j - i,
{
    if i < j {
        lemma_hex_value_mono(s, i, j - 1);
        lemma_hex_value_step(s, j - 1);
        assert(hex_digit_value(s[j - 1]) >= 0);
    }
}

/// Radix-16 parsing of a `u128`, the way `u128::from_str_radix(s, 16)` reads `s`.
pub fn parse_hex_u128(s: &Vec<char>) -> (r: Option<u128>)
    ensures
        match parse_radix16(s@, u128::MAX as nat + 1) {
            Some(v) => r == Some(v as u128),
            None => r is None,
        },
{
    let n = s.len();
    let mut start: usize = 0;
    if n > 0 && s[0] == '+' {
        start = 1;
    }
    let ghost d = radix16_digits(s@);
    assert(d =~= s@.subrange(start as int, n as int));
    if start == n {
        return None;
    }
    let mut acc: u128 = 0;
    let mut i: usize = start;
    while i < n
        invariant
            start <= i <= n,
            n == s.len(),
            start < n,
            d == s@.subrange(start as int, n as int),
            d == radix16_digits(s@),
            acc as nat == hex_value(d.take(i - start)),
            all_hex_digits(d.take(i - start)),
        decreases n - i,
    {
        let k: usize = i - start;
        assert(d[k as int] == s@[i as int]);
        let dv = hex_digit(s[i]);
        match dv {
            None => {
                assert(!all_hex_digits(d));
                return None;
            },
            Some(x) => {
                proof {
                    lemma_hex_value_step(d, k as int);
                }
                match acc.checked_mul(16) {
                    None => {
                        proof {
                            if all_hex_digits(d) {
                                lemma_hex_value_mono(d, k + 1, d.len() as int);
                                assert(d.take(d.len() as int) =~= d);
                            }
                        }
                        return None;
                    },
                    Some(m) => match m.checked_add(x as u128) {
                        None => {
                            proof {
                                if all_hex_digits(d) {
                                    lemma_hex_value_mono(d, k + 1, d.len() as int);
                                    assert(d.take(d.len() as int) =~= d);
                                }
                            }
                            return None;
                        },
                        Some(a) => {
                            acc = a;
                            assert forall|j: int| 0 <= j < k + 1 implies hex_digit_value(
                                #[trigger] d.take(k + 1)[j],
                            ) >= 0 by {
                                if j < k {
                                    assert(d.take(k + 1)[j] == d.take(k as int)[j]);
                                }
                            }
                        },
                    },
                }
            },
        }
        i = i + 1;
    }
    assert(d.take(n - start) =~= d);
    Some(acc)
}

pub proof fn lemma_hex_fixed_shape(v: nat, w: nat)
    ensures
        hex_fixed(v, w).len() == w,
        all_hex_digits(hex_fixed(v, w)),
        forall|i: int| 0 <= i < w ==> (#[trigger] hex_fixed(v, w)[i] as u32) < 128,
        forall|i: int| 0 <= i < w ==> #[trigger] hex_fixed(v, w)[i] != '_',
        forall|i: int| 0 <= i < w ==> #[trigger] hex_fixed(v, w)[i] != '+',
    decreases w,
{
    if w > 0 {
        lemma_hex_fixed_shape(v / 16, (w - 1) as nat);
        let d = v % 16;
        assert(hex_digit_value(hex_char(d)) == d);
        assert forall|i: int| 0 <= i < w implies (#[trigger] hex_fixed(v, w)[i] as u32) < 128
            && hex_fixed(v, w)[i] != '_' && hex_fixed(v, w)[i] != '+'
            && hex_digit_value(hex_fixed(v, w)[i]) >= 0 by {
            if i < w - 1 {
                assert(hex_fixed(v, w)[i] == hex_fixed(v / 16, (w - 1) as nat)[i]);
            }
        }
    }
}

pub proof fn lemma_hex_fixed_value(v: nat, w: nat)
    ensures
        hex_value(hex_fixed(v, w)) == v % pow16(w),
    decreases w,
{
    if w == 0 {
    } else {
        lemma_hex_fixed_value(v / 16, (w - 1) as nat);
        let d = v % 16;
        assert(hex_digit_value(hex_char(d)) == d);
        assert(hex_fixed(v, w).drop_last() =~= hex_fixed(v / 16, (w - 1) as nat));
        let p = pow16((w - 1) as nat);
        assert(p > 0) by {
            lemma_pow16_pos((w - 1) as nat);
        }
        vstd::arithmetic::div_mod::lemma_breakdown(v as int, 16, p as int);
        assert(pow16(w) == 16 * p);
        assert((16 * p) == (16 as int) * (p as int));
    }
}

pub proof fn lemma_pow16_pos(n: nat)
    ensures
        pow16(n) > 0,
    decreases n,
{
    if n > 0 {
        lemma_pow16_pos((n - 1) as nat);
    }
}

pub proof fn lemma_pow16_values()
    ensures
        pow16(8) == 0x1_0000_0000,
        pow16(16) == 0x1_0000_0000_0000_0000,
        pow16(32) == u128::MAX as nat + 1,
{
    reveal_with_fuel(pow16, 33);
}

/// Appends the last `width` lower-case hexadecimal digits of `v`, zero padded.
pub fn push_hex_fixed(out: &mut Vec<char>, v: u128, width: usize)
    ensures
        final(out)@ == old(out)@ + hex_fixed(v as nat, width as nat),
    decreases width,
{
    if width > 0 {
        push_hex_fixed(out, v / 16, width - 1);
        let c = hex_char_exec((v % 16) as u8);
        out.push(c);
    } else {
        assert(old(out)@ + hex_fixed(v as nat, 0) =~= old(out)@);
    }
    proof {
        if width > 0 {
            assert(hex_fixed(v as nat, width as nat) =~= hex_fixed((v / 16) as nat, (width - 1) as nat).push(hex_char((v % 16) as nat)));
        }
    }
}

} // verus!
