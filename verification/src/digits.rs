//! ASCII bytes of the wire grammar and the decimal form of integers:
//! specification of the canonical digit string of a number, executable
//! printers and parsers, and the lemmas that make the two inverse.

use vstd::prelude::*;

verus! {

// ASCII bytes used by the wire grammar.
pub const NL: u8 = 10;  // '\n'
pub const SPACE: u8 = 32;  // ' '
pub const QUOTE: u8 = 34;  // '"'
pub const COMMA: u8 = 44;  // ','
pub const MINUS: u8 = 45;  // '-'
pub const COLON: u8 = 58;  // ':'
pub const LBRACK: u8 = 91;  // '['
pub const RBRACK: u8 = 93;  // ']'
pub const LBRACE: u8 = 123;  // '{'
pub const RBRACE: u8 = 125;  // '}'
pub const D0: u8 = 48;  // '0'
pub const D9: u8 = 57;  // '9'
pub const LC_A: u8 = 97;
pub const LC_B: u8 = 98;
pub const LC_C: u8 = 99;
pub const LC_D: u8 = 100;
pub const LC_E: u8 = 101;
pub const LC_G: u8 = 103;
pub const LC_H: u8 = 104;
pub const LC_I: u8 = 105;
pub const LC_L: u8 = 108;
pub const LC_M: u8 = 109;
pub const LC_N: u8 = 110;
pub const LC_O: u8 = 111;
pub const LC_P: u8 = 112;
pub const LC_R: u8 = 114;
pub const LC_S: u8 = 115;
pub const LC_T: u8 = 116;
pub const LC_W: u8 = 119;
pub const LC_X: u8 = 120;
pub const LC_Y: u8 = 121;

pub open spec fn is_digit(b: u8) -> bool {
    D0 <= b <= D9
}

/// The canonical decimal digit string of a natural number: no sign, no
/// leading zero except for the single digit of zero itself.
pub open spec fn digits_u64(n: nat) -> Seq<u8>
    decreases n,
{
    if n < 10 {
        seq![(D0 + n) as u8]
    } else {
        digits_u64(n / 10).push((D0 + n % 10) as u8)
    }
}

/// The canonical decimal form of a signed number: a minus sign before the
/// digits of the magnitude exactly when the number is negative.
pub open spec fn digits_i32(x: int) -> Seq<u8> {
    if x < 0 {
        seq![MINUS] + digits_u64((-x) as nat)
    } else {
        digits_u64(x as nat)
    }
}

/// The number a digit string denotes.
pub open spec fn digits_val(s: Seq<u8>) -> int
    decreases s.len(),
{
    if s.len() == 0 {
        0
    } else {
        digits_val(s.drop_last()) * 10 + (s.last() - D0)
    }
}

pub open spec fn all_digits(s: Seq<u8>) -> bool {
    forall|k: int| 0 <= k < s.len() ==> is_digit(s[k])
}

/// Position `j` does not continue a digit run in `s`.
pub open spec fn boundary(s: Seq<u8>, j: int) -> bool {
    j == s.len() || !is_digit(s[j])
}

/// The digit string of a number is non-empty, made of digits, starts with
/// '0' only for zero itself, and denotes the number it was made from.
pub proof fn lemma_digits_shape(n: nat)
    ensures
        digits_u64(n).len() >= 1,
        all_digits(digits_u64(n)),
        (digits_u64(n)[0] == D0 <==> n == 0),
        digits_val(digits_u64(n)) == n,
    decreases n,
{
    if n < 10 {
        let s = digits_u64(n);
        assert(s == seq![(D0 + n) as u8]);
        assert(s.drop_last() =~= Seq::<u8>::empty());
        assert(digits_val(Seq::<u8>::empty()) == 0);
        assert(digits_val(s) == digits_val(s.drop_last()) * 10 + (s.last() - D0));
        assert(digits_val(s) == 0 * 10 + ((D0 + n) as u8 - D0));
    } else {
        lemma_digits_shape(n / 10);
        let t = digits_u64(n / 10);
        let d = (D0 + n % 10) as u8;
        let s = t.push(d);
        assert(s.drop_last() =~= t);
        assert(s.last() == d);
        assert(digits_val(s) == digits_val(t) * 10 + (d - D0));
        assert(digits_val(s) == (n / 10) * 10 + n % 10);
        assert((n / 10) * 10 + n % 10 == n) by {
            vstd::arithmetic::div_mod::lemma_fundamental_div_mod(n as int, 10);
        }
        assert(s[0] == t[0]);
        assert(n / 10 != 0);
        assert(forall|k: int| 0 <= k < s.len() ==> is_digit(#[trigger] s[k]));
    }
}

/// A digit string that does not start with '0' denotes a positive number.
pub proof fn lemma_digits_val_pos(s: Seq<u8>)
    requires
        all_digits(s),
        s.len() >= 1,
        s[0] != D0,
    ensures
        digits_val(s) >= 1,
    decreases s.len(),
{
    if s.len() == 1 {
        assert(digits_val(s) == digits_val(s.drop_last()) * 10 + (s.last() - D0));
        assert(s.drop_last().len() == 0);
        assert(s.last() == s[0]);
    } else {
        let t = s.drop_last();
        assert(t[0] == s[0]);
        lemma_digits_val_pos(t);
        assert(digits_val(s) == digits_val(t) * 10 + (s.last() - D0));
    }
}

pub proof fn lemma_digits_val_nonneg(s: Seq<u8>)
    requires
        all_digits(s),
    ensures
        digits_val(s) >= 0,
    decreases s.len(),
{
    if s.len() > 0 {
        let t = s.drop_last();
        assert(all_digits(t));
        lemma_digits_val_nonneg(t);
    }
}

/// A non-empty digit string without a leading zero is the canonical digit
/// string of the number it denotes.
pub proof fn lemma_digits_complete(s: Seq<u8>)
    requires
        all_digits(s),
        s.len() >= 1,
        s[0] != D0 || s.len() == 1,
    ensures
        digits_val(s) >= 0,
        digits_u64(digits_val(s) as nat) == s,
    decreases s.len(),
{
    lemma_digits_val_nonneg(s);
    if s.len() == 1 {
        assert(s.drop_last().len() == 0);
        assert(digits_val(s.drop_last()) == 0);
        assert(digits_val(s) == digits_val(s.drop_last()) * 10 + (s.last() - D0));
        assert(s.last() == s[0]);
        assert(digits_val(s) == s[0] - D0);
        assert(digits_val(s) < 10);
        assert(digits_u64(digits_val(s) as nat) =~= s);
    } else {
        let t = s.drop_last();
        let d = s.last();
        assert(t[0] == s[0]);
        lemma_digits_complete(t);
        lemma_digits_val_pos(t);
        let v = digits_val(s);
        assert(v == digits_val(t) * 10 + (d - D0));
        assert(v >= 10);
        assert(v / 10 == digits_val(t) && v % 10 == d - D0) by (nonlinear_arith)
            requires
                v == digits_val(t) * 10 + (d - D0),
                digits_val(t) >= 1,
                D0 <= d <= D9,
        ;
        assert(digits_u64(v as nat) == digits_u64((v as nat) / 10).push(
            (D0 + (v as nat) % 10) as u8,
        ));
        assert((v as nat) / 10 == digits_val(t));
        assert(digits_u64(v as nat) == t.push(d));
        assert(t.push(d) =~= s);
    }
}

/// Extending a digit string on the right never shrinks its value.
pub proof fn lemma_digits_val_take_le(s: Seq<u8>, k: int)
    requires
        all_digits(s),
        0 <= k <= s.len(),
    ensures
        digits_val(s.take(k)) <= digits_val(s),
    decreases s.len() - k,
{
    if k == s.len() {
        assert(s.take(k) =~= s);
    } else {
        lemma_digits_val_take_le(s, k + 1);
        let u = s.take(k + 1);
        assert(u.drop_last() =~= s.take(k));
        assert(u.last() == s[k]);
        assert(all_digits(s.take(k)));
        lemma_digits_val_nonneg(s.take(k));
        assert(digits_val(u) == digits_val(s.take(k)) * 10 + (s[k] - D0));
    }
}

/// Writes the canonical decimal digits of `n` after the bytes already in
/// `buf`.
pub fn push_u64(buf: &mut Vec<u8>, n: u64)
    ensures
        final(buf)@ == old(buf)@ + digits_u64(n as nat),
    decreases n,
{
    if n >= 10 {
        push_u64(buf, n / 10);
    }
    buf.push(D0 + (n % 10) as u8);
    proof {
        if n < 10 {
            assert(buf@ =~= old(buf)@ + digits_u64(n as nat));
        } else {
            assert(buf@ =~= old(buf)@ + digits_u64(n as nat));
        }
    }
}

/// Writes the canonical decimal form of `x`, minus sign included when
/// negative.
pub fn push_i32(buf: &mut Vec<u8>, x: i32)
    ensures
        final(buf)@ == old(buf)@ + digits_i32(x as int),
{
    if x < 0 {
        buf.push(MINUS);
        let m: u64 = (-(x as i64)) as u64;
        assert(m as nat == (-(x as int)) as nat);
        push_u64(buf, m);
        proof {
            assert(buf@ =~= old(buf)@ + digits_i32(x as int));
        }
    } else {
        push_u64(buf, x as u64);
    }
}

/// Reads a maximal digit run starting at `i` as a number.  Succeeds on
/// exactly the canonical digit strings: it rejects an empty run, a leading
/// zero before further digits, and a value above `u64::MAX`.
pub fn parse_u64(s: &[u8], i: usize) -> (r: Option<(u64, usize)>)
    requires
        i <= s@.len(),
    ensures
        r matches Some(v) ==> i < v.1 <= s@.len() && s@.subrange(i as int, v.1 as int)
            == digits_u64(v.0 as nat) && boundary(s@, v.1 as int),
        forall|n: u64, j: usize|
            #![trigger s@.subrange(i as int, j as int), digits_u64(n as nat)]
            i < j <= s@.len() && s@.subrange(i as int, j as int) == digits_u64(n as nat)
                && boundary(s@, j as int) ==> r == Some((n, j)),
{
    let ghost sv = s@;
    let mut j: usize = i;
    let mut acc: u64 = 0;
    while j < s.len() && s[j] >= D0 && s[j] <= D9
        invariant
            i <= j <= sv.len(),
            sv == s@,
            all_digits(sv.subrange(i as int, j as int)),
            acc == digits_val(sv.subrange(i as int, j as int)),
        decreases sv.len() - j,
    {
        let d: u8 = s[j] - D0;
        let ghost pre = sv.subrange(i as int, j as int);
        let ghost cur = sv.subrange(i as int, j + 1);
        proof {
            assert(cur.drop_last() =~= pre);
            assert(cur.last() == sv[j as int]);
            lemma_digits_val_nonneg(pre);
            assert(digits_val(cur) == digits_val(pre) * 10 + (sv[j as int] - D0));
        }
        if acc > (u64::MAX - (d as u64)) / 10 {
            proof {
                assert(acc * 10 + d > u64::MAX) by (nonlinear_arith)
                    requires
                        acc > (u64::MAX - (d as u64)) / 10,
                        0 <= d <= 9,
                        acc >= 0,
                ;
                assert(digits_val(cur) > u64::MAX);
                assert(forall|k: int| i <= k <= j ==> is_digit(#[trigger] sv[k])) by {
                    assert(forall|k: int| i <= k < j ==> pre[k - i] == #[trigger] sv[k]);
                }
                assert forall|n: u64, jj: usize|
                    i < jj <= sv.len() && sv.subrange(i as int, jj as int) == digits_u64(n as nat)
                        && boundary(sv, jj as int) implies false by {
                    lemma_digits_shape(n as nat);
                    let run = sv.subrange(i as int, jj as int);
                    assert(all_digits(run));
                    assert(forall|k: int| i <= k < jj ==> #[trigger] sv[k] == run[k - i]);
                    // every byte at i..=j is a digit, so jj cannot stop there
                    assert(jj > j) by {
                        if jj <= j {
                            assert(is_digit(sv[jj as int]));
                            assert(!boundary(sv, jj as int));
                        }
                    }
                    lemma_digits_val_take_le(run, j + 1 - i);
                    assert(run.take(j + 1 - i) =~= sv.subrange(i as int, j + 1));
                    assert(digits_val(run) >= digits_val(cur));
                    assert(digits_val(run) == n as int);
                }
            }
            return None;
        }
        proof {
            assert(acc * 10 + d <= u64::MAX) by (nonlinear_arith)
                requires
                    acc <= (u64::MAX - (d as u64)) / 10,
                    0 <= d <= 9,
                    acc >= 0,
            ;
        }
        acc = acc * 10 + (d as u64);
        j = j + 1;
    }
    proof {
        assert(forall|k: int| i <= k < j ==> is_digit(#[trigger] sv[k])) by {
            assert(forall|k: int|
                i <= k < j ==> sv.subrange(i as int, j as int)[k - i] == #[trigger] sv[k]);
        }
    }
    if j == i {
        proof {
            assert forall|n: u64, jj: usize|
                i < jj <= sv.len() && sv.subrange(i as int, jj as int) == digits_u64(n as nat)
                    && boundary(sv, jj as int) implies false by {
                lemma_digits_shape(n as nat);
                assert(sv.subrange(i as int, jj as int)[0] == sv[i as int]);
                assert(is_digit(sv[i as int]));
            }
        }
        return None;
    }
    if s[i] == D0 && j > i + 1 {
        proof {
            assert forall|n: u64, jj: usize|
                i < jj <= sv.len() && sv.subrange(i as int, jj as int) == digits_u64(n as nat)
                    && boundary(sv, jj as int) implies false by {
                lemma_digits_shape(n as nat);
                let run = sv.subrange(i as int, jj as int);
                assert(forall|k: int| i <= k < jj ==> sv[k] == #[trigger] run[k - i]);
                assert(jj == j) by {
                    if jj < j {
                        assert(is_digit(sv[jj as int]));
                        assert(!boundary(sv, jj as int));
                    }
                    if jj > j {
                        assert(j < sv.len());
                        assert(run[j - i] == sv[j as int]);
                        assert(is_digit(sv[j as int]));
                        assert(!(j < s.len() && sv[j as int] >= D0 && sv[j as int] <= D9));
                    }
                }
                assert(run[0] == sv[i as int]);
                assert(run[0] == D0);
                assert(n == 0);
                assert(run.len() == 1);
            }
        }
        return None;
    }
    let ghost run = sv.subrange(i as int, j as int);
    proof {
        lemma_digits_complete(run);
        assert(digits_u64(acc as nat) == run);
        assert(boundary(sv, j as int));
        assert forall|n: u64, jj: usize|
            i < jj <= sv.len() && sv.subrange(i as int, jj as int) == digits_u64(n as nat)
                && boundary(sv, jj as int) implies Some((acc, j)) == Some((n, jj)) by {
            lemma_digits_shape(n as nat);
            let other = sv.subrange(i as int, jj as int);
            assert(forall|k: int| i <= k < jj ==> sv[k] == #[trigger] other[k - i]);
            assert(jj == j) by {
                if jj < j {
                    assert(is_digit(sv[jj as int]));
                    assert(!boundary(sv, jj as int));
                }
                if jj > j {
                    assert(j < sv.len());
                    assert(other[j - i] == sv[j as int]);
                    assert(is_digit(sv[j as int]));
                    assert(!(j < s.len() && sv[j as int] >= D0 && sv[j as int] <= D9));
                }
            }
            assert(other == run);
            assert(digits_val(other) == n as int);
        }
    }
    Some((acc, j))
}

/// Reads the canonical decimal form of an `i32` starting at `i`: an
/// optional minus sign before a maximal digit run, rejecting `-0`, any
/// leading zero, and values outside the `i32` range.
pub fn parse_i32(s: &[u8], i: usize) -> (r: Option<(i32, usize)>)
    requires
        i <= s@.len(),
    ensures
        r matches Some(v) ==> i < v.1 <= s@.len() && s@.subrange(i as int, v.1 as int)
            == digits_i32(v.0 as int) && boundary(s@, v.1 as int),
        forall|x: i32, j: usize|
            #![trigger s@.subrange(i as int, j as int), digits_i32(x as int)]
            i < j <= s@.len() && s@.subrange(i as int, j as int) == digits_i32(x as int)
                && boundary(s@, j as int) ==> r == Some((x, j)),
{
    let ghost sv = s@;
    if i < s.len() && s[i] == MINUS {
        proof {
            // a negative form starts with '-', a non-negative one with a digit
            assert forall|x: i32, j: usize|
                i < j <= sv.len() && sv.subrange(i as int, j as int) == digits_i32(x as int)
                    && boundary(sv, j as int) implies x < 0 by {
                if x >= 0 {
                    lemma_digits_shape(x as nat);
                    assert(sv.subrange(i as int, j as int)[0] == sv[i as int]);
                }
            }
        }
        let r0 = parse_u64(s, i + 1);
        match r0 {
            Some((v, j)) => {
                if 1 <= v && v <= 0x8000_0000u64 {
                    let x: i32 = (-(v as i64)) as i32;
                    proof {
                        assert(x as int == -(v as int));
                        assert(seq![MINUS] + digits_u64(v as nat) =~= sv.subrange(
                            i as int,
                            j as int,
                        )) by {
                            assert(sv.subrange(i + 1, j as int) == digits_u64(v as nat));
                            assert(forall|k: int|
                                i + 1 <= k < j ==> #[trigger] sv[k] == digits_u64(v as nat)[k - i
                                    - 1]);
                        }
                        assert(digits_i32(x as int) == seq![MINUS] + digits_u64(v as nat));
                        assert forall|x2: i32, j2: usize|
                            i < j2 <= sv.len() && sv.subrange(i as int, j2 as int) == digits_i32(
                                x2 as int,
                            ) && boundary(sv, j2 as int) implies Some((x, j)) == Some(
                            (x2, j2),
                        ) by {
                            assert(x2 < 0);
                            let m = digits_u64((-x2) as nat);
                            assert(sv.subrange(i as int, j2 as int) == seq![MINUS] + m);
                            assert(sv.subrange(i + 1, j2 as int) =~= m) by {
                                assert(forall|k: int|
                                    i <= k < j2 ==> #[trigger] sv[k] == (seq![MINUS] + m)[k - i]);
                            }
                            // parse_u64's completeness pins (-x2, j2)
                            assert(r0 == Some(((-(x2 as i64)) as u64, j2)));
                        }
                    }
                    Some((x, j))
                } else {
                    proof {
                        assert forall|x2: i32, j2: usize|
                            i < j2 <= sv.len() && sv.subrange(i as int, j2 as int) == digits_i32(
                                x2 as int,
                            ) && boundary(sv, j2 as int) implies false by {
                            assert(x2 < 0);
                            let m = digits_u64((-x2) as nat);
                            assert(sv.subrange(i as int, j2 as int) == seq![MINUS] + m);
                            assert(sv.subrange(i + 1, j2 as int) =~= m) by {
                                assert(forall|k: int|
                                    i <= k < j2 ==> #[trigger] sv[k] == (seq![MINUS] + m)[k - i]);
                            }
                            assert(r0 == Some(((-(x2 as i64)) as u64, j2)));
                            assert(1 <= (-(x2 as i64)) as u64 <= 0x8000_0000u64);
                        }
                    }
                    None
                }
            },
            None => {
                proof {
                    assert forall|x2: i32, j2: usize|
                        i < j2 <= sv.len() && sv.subrange(i as int, j2 as int) == digits_i32(
                            x2 as int,
                        ) && boundary(sv, j2 as int) implies false by {
                        assert(x2 < 0);
                        let m = digits_u64((-x2) as nat);
                        assert(sv.subrange(i as int, j2 as int) == seq![MINUS] + m);
                        assert(sv.subrange(i + 1, j2 as int) =~= m) by {
                            assert(forall|k: int|
                                i <= k < j2 ==> #[trigger] sv[k] == (seq![MINUS] + m)[k - i]);
                        }
                        assert(r0 == Some(((-(x2 as i64)) as u64, j2)));
                    }
                }
                None
            },
        }
    } else {
        proof {
            // no minus sign in front, so only a non-negative form can match
            assert forall|x: i32, j: usize|
                i < j <= sv.len() && sv.subrange(i as int, j as int) == digits_i32(x as int)
                    && boundary(sv, j as int) implies x >= 0 by {
                if x < 0 {
                    assert(sv.subrange(i as int, j as int)[0] == sv[i as int]);
                    assert((seq![MINUS] + digits_u64((-x) as nat))[0] == MINUS);
                }
            }
        }
        let r0 = parse_u64(s, i);
        match r0 {
            Some((v, j)) => {
                if v <= 0x7fff_ffffu64 {
                    proof {
                        assert(digits_i32(v as int) == digits_u64(v as nat));
                        assert forall|x2: i32, j2: usize|
                            i < j2 <= sv.len() && sv.subrange(i as int, j2 as int) == digits_i32(
                                x2 as int,
                            ) && boundary(sv, j2 as int) implies Some(((v as i32), j)) == Some(
                            (x2, j2),
                        ) by {
                            assert(x2 >= 0);
                            assert(r0 == Some(((x2 as u64), j2)));
                        }
                    }
                    Some((v as i32, j))
                } else {
                    proof {
                        assert forall|x2: i32, j2: usize|
                            i < j2 <= sv.len() && sv.subrange(i as int, j2 as int) == digits_i32(
                                x2 as int,
                            ) && boundary(sv, j2 as int) implies false by {
                            assert(x2 >= 0);
                            assert(r0 == Some(((x2 as u64), j2)));
                        }
                    }
                    None
                }
            },
            None => {
                proof {
                    assert forall|x2: i32, j2: usize|
                        i < j2 <= sv.len() && sv.subrange(i as int, j2 as int) == digits_i32(
                            x2 as int,
                        ) && boundary(sv, j2 as int) implies false by {
                        assert(x2 >= 0);
                        assert(r0 == Some(((x2 as u64), j2)));
                    }
                }
                None
            },
        }
    }
}

} // verus!
