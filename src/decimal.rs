//! ASCII decimal numerals: their meaning, their canonical form, and the
//! executable reader and writer used by the bencode codec and the tracker URL.
use vstd::prelude::*;

verus! {

pub open spec fn is_digit(c: u8) -> bool {
    48 <= c <= 57
}

pub open spec fn all_digits(s: Seq<u8>) -> bool {
    forall|i: int| 0 <= i < s.len() ==> is_digit(#[trigger] s[i])
}

/// The canonical decimal numeral of `n`: no sign, no leading zero ("0" for zero).
pub open spec fn decimal(n: nat) -> Seq<u8>
    decreases n,
{
    if n < 10 {
        seq![(n + 48) as u8]
    } else {
        decimal(n / 10).push((n % 10 + 48) as u8)
    }
}

/// The number that a string of ASCII digits denotes.
pub open spec fn digits_value(s: Seq<u8>) -> nat
    decreases s.len(),
{
    if s.len() == 0 {
        0
    } else {
        digits_value(s.drop_last()) * 10 + (s.last() - 48) as nat
    }
}

/// A numeral in canonical form: digits only, and no leading zero unless it is "0".
pub open spec fn canonical_digits(s: Seq<u8>) -> bool {
    &&& s.len() > 0
    &&& all_digits(s)
    &&& (s[0] == 48 ==> s.len() == 1)
}

/// `s` holds the numeral of `n` at `p`, and no further digit follows it.
pub open spec fn decimal_at(n: nat, s: Seq<u8>, p: int) -> bool {
    let d = decimal(n);
    &&& 0 <= p
    &&& p + d.len() <= s.len()
    &&& s.subrange(p, p + d.len()) == d
    &&& (p + d.len() == s.len() || !is_digit(s[p + d.len()]))
}

pub proof fn lemma_decimal(n: nat)
    ensures
        canonical_digits(decimal(n)),
        digits_value(decimal(n)) == n,
        decimal(n)[0] == 48 ==> n == 0,
    decreases n,
{
    if n < 10 {
        assert(decimal(n).drop_last() =~= Seq::<u8>::empty());
        assert(digits_value(Seq::<u8>::empty()) == 0);
        assert(digits_value(decimal(n)) == n);
    } else {
        lemma_decimal(n / 10);
        let d = decimal(n);
        assert(d.drop_last() =~= decimal(n / 10));
        assert(n == (n / 10) * 10 + n % 10) by (nonlinear_arith);
        assert(d.last() == (n % 10 + 48) as u8);
        assert(digits_value(d) == digits_value(decimal(n / 10)) * 10 + (d.last() - 48) as nat);
        assert(d[0] == decimal(n / 10)[0]);
        assert forall|i: int| 0 <= i < d.len() implies is_digit(#[trigger] d[i]) by {
            if i < d.len() - 1 {
                assert(d[i] == decimal(n / 10)[i]);
            }
        }
    }
}

/// A longer run of digits never denotes a smaller number.
pub proof fn lemma_digits_value_prefix(s: Seq<u8>, k: int)
    requires
        all_digits(s),
        0 <= k <= s.len(),
    ensures
        digits_value(s.subrange(0, k)) <= digits_value(s),
    decreases s.len(),
{
    if k < s.len() {
        let t = s.drop_last();
        assert(all_digits(t)) by {
            assert forall|i: int| 0 <= i < t.len() implies is_digit(#[trigger] t[i]) by {
                assert(t[i] == s[i]);
            }
        }
        lemma_digits_value_prefix(t, k);
        assert(t.subrange(0, k) =~= s.subrange(0, k));
        assert(is_digit(s[s.len() - 1]));
    } else {
        assert(s.subrange(0, k) =~= s);
    }
}

/// A canonical numeral is the decimal form of the number it denotes.
pub proof fn lemma_canonical_is_decimal(s: Seq<u8>)
    requires
        canonical_digits(s),
    ensures
        decimal(digits_value(s)) == s,
    decreases s.len(),
{
    let v = digits_value(s);
    if s.len() == 1 {
        assert(s.drop_last() =~= Seq::<u8>::empty());
        assert(v == (s[0] - 48) as nat);
        assert(decimal(v) =~= s);
    } else {
        let t = s.drop_last();
        assert(t[0] == s[0]);
        assert(all_digits(t)) by {
            assert forall|i: int| 0 <= i < t.len() implies is_digit(#[trigger] t[i]) by {
                assert(t[i] == s[i]);
            }
        }
        lemma_canonical_is_decimal(t);
        lemma_digits_value_prefix(t, 1);
        assert(t.subrange(0, 1).drop_last() =~= Seq::<u8>::empty());
        assert(digits_value(Seq::<u8>::empty()) == 0);
        assert(digits_value(t.subrange(0, 1)) == (t[0] - 48) as nat);
        let c = s.last();
        assert(is_digit(c));
        let w = digits_value(t);
        assert(w >= 1);
        assert(v == w * 10 + (c - 48) as nat);
        assert(v / 10 == w && v % 10 == (c - 48) as nat) by (nonlinear_arith)
            requires
                v == w * 10 + (c - 48) as nat,
                0 <= (c - 48) < 10,
        ;
        assert(decimal(v) =~= decimal(w).push(c));
        assert(t.push(c) =~= s);
    }
}

/// Appends the decimal numeral of `n` to `out`.
pub fn push_decimal(out: &mut Vec<u8>, n: u64)
    ensures
        final(out)@ == old(out)@ + decimal(n as nat),
    decreases n,
{
    if n < 10 {
        out.push(n as u8 + 48);
        assert(final(out)@ =~= old(out)@ + decimal(n as nat));
    } else {
        push_decimal(out, n / 10);
        out.push((n % 10) as u8 + 48);
        assert(final(out)@ =~= old(out)@ + decimal(n as nat));
    }
}

/// Reads a canonical numeral at `p` whose value is at most `limit`, and
/// returns that value with the position just past its last digit.
/// Succeeds exactly when such a numeral stands there.
pub fn scan_decimal(b: &[u8], p: usize, limit: u64) -> (r: Option<(u64, usize)>)
    requires
        p <= b@.len(),
    ensures
        r matches Some((m, q)) ==> {
            &&& p < q <= b@.len()
            &&& canonical_digits(b@.subrange(p as int, q as int))
            &&& (q == b@.len() || !is_digit(b@[q as int]))
            &&& m == digits_value(b@.subrange(p as int, q as int))
            &&& m <= limit
        },
        forall|n: nat|
            n <= limit && #[trigger] decimal_at(n, b@, p as int) ==> r == Some(
                (n as u64, (p + decimal(n).len()) as usize),
            ),
{
    let mut q: usize = p;
    let mut mag: u128 = 0;
    while q < b.len() && 48 <= b[q] && b[q] <= 57
        invariant
            p <= q <= b@.len(),
            all_digits(b@.subrange(p as int, q as int)),
            mag == digits_value(b@.subrange(p as int, q as int)),
            mag <= limit,
            q >= p + 2 ==> b@[p as int] != 48,
            forall|n: nat|
                n <= limit && #[trigger] decimal_at(n, b@, p as int) ==> q <= p + decimal(n).len(),
        decreases b@.len() - q,
    {
        if q == p + 1 && b[p] == 48 {
            proof {
                assert forall|n: nat| n <= limit && #[trigger] decimal_at(n, b@, p as int) implies false by {
                    lemma_decimal(n);
                    let d = decimal(n);
                    assert(d[0] == b@[p as int]);
                    assert(d.len() == 1);
                }
            }
            return None;
        }
        let c = b[q];
        let next: u128 = mag * 10 + (c - 48) as u128;
        proof {
            let s1 = b@.subrange(p as int, q + 1);
            assert(s1.drop_last() =~= b@.subrange(p as int, q as int));
            assert(digits_value(s1) == next);
            assert(all_digits(s1)) by {
                assert forall|i: int| 0 <= i < s1.len() implies is_digit(#[trigger] s1[i]) by {
                    if i < s1.len() - 1 {
                        assert(s1[i] == b@.subrange(p as int, q as int)[i]);
                    }
                }
            }
            assert forall|n: nat| n <= limit && #[trigger] decimal_at(n, b@, p as int) implies q + 1 <= p + decimal(n).len() && next <= n by {
                lemma_decimal(n);
                let d = decimal(n);
                let e = p + d.len();
                if e <= q {
                    if e < q {
                        assert(b@[e] == b@.subrange(p as int, q as int)[e - p]);
                    }
                    assert(is_digit(b@[e]));
                }
                assert(s1 =~= d.subrange(0, q + 1 - p)) by {
                    assert forall|i: int| 0 <= i < s1.len() implies s1[i] == d.subrange(0, q + 1 - p)[i] by {
                        assert(d[i] == b@.subrange(p as int, e)[i]);
                    }
                }
                lemma_digits_value_prefix(d, q + 1 - p);
            }
        }
        if next > limit as u128 {
            return None;
        }
        mag = next;
        q = q + 1;
    }
    if q == p {
        proof {
            assert forall|n: nat| n <= limit && #[trigger] decimal_at(n, b@, p as int) implies false by {
                lemma_decimal(n);
                assert(decimal(n)[0] == b@[p as int]);
                assert(is_digit(decimal(n)[0]));
            }
        }
        return None;
    }
    proof {
        let s = b@.subrange(p as int, q as int);
        assert forall|n: nat| n <= limit && #[trigger] decimal_at(n, b@, p as int) implies n == mag && decimal(n).len() == q - p by {
            lemma_decimal(n);
            let d = decimal(n);
            let e = p + d.len();
            if e > q {
                assert(b@[q as int] == d[q - p]);
                assert(is_digit(d[q - p]));
            }
            assert(s =~= d);
        }
    }
    Some((mag as u64, q))
}

} // verus!
