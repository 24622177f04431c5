//! Canonical decimal rendering and strict parsing for the integer fields of
//! the token payload (`exp`, `user_id`).
use vstd::prelude::*;
use vstd::arithmetic::div_mod::{lemma_fundamental_div_mod, lemma_fundamental_div_mod_converse};

verus! {

/// Decimal digits of a non-negative integer, most significant first.
pub open spec fn dec_of(n: nat) -> Seq<u8>
    decreases n,
{
    if n < 10 {
        seq![(48 + n) as u8]
    } else {
        dec_of(n / 10) + seq![(48 + n % 10) as u8]
    }
}

/// Decimal digits of a signed integer: a minus sign before the magnitude.
pub open spec fn int_dec_of(n: int) -> Seq<u8> {
    if n < 0 {
        seq![45u8] + dec_of((-n) as nat)
    } else {
        dec_of(n as nat)
    }
}

pub open spec fn is_digit(b: u8) -> bool {
    48 <= b <= 57
}

/// The integer value of a digit string (most significant first).
pub open spec fn dec_val(s: Seq<u8>) -> int
    decreases s.len(),
{
    if s.len() == 0 {
        0
    } else {
        dec_val(s.drop_last()) * 10 + (s.last() - 48)
    }
}

/// A canonical decimal: non-empty, all digits, no leading zero.
pub open spec fn is_canon_dec(s: Seq<u8>) -> bool {
    &&& s.len() >= 1
    &&& forall|i: int| 0 <= i < s.len() ==> is_digit(s[i])
    &&& (s.len() > 1 ==> s[0] != 48)
}

pub proof fn lemma_dec_of_canon(n: nat)
    ensures
        is_canon_dec(dec_of(n)),
        dec_of(n)[0] == 48 <==> n == 0,
    decreases n,
{
    if n < 10 {
    } else {
        lemma_dec_of_canon(n / 10);
        let s = dec_of(n);
        let f = dec_of(n / 10);
        assert(forall|i: int| 0 <= i < s.len() ==> is_digit(#[trigger] s[i])) by {
            assert(forall|i: int| 0 <= i < f.len() ==> s[i] == f[i]);
        }
        assert(s[0] == f[0]);
    }
}

pub proof fn lemma_dec_val_of(n: nat)
    ensures
        dec_val(dec_of(n)) == n,
    decreases n,
{
    if n < 10 {
        assert(dec_of(n).drop_last() =~= Seq::<u8>::empty());
        assert(dec_val(Seq::<u8>::empty()) == 0);
        assert(dec_val(dec_of(n)) == 0 * 10 + ((48 + n) as u8 - 48));
    } else {
        lemma_dec_val_of(n / 10);
        let s = dec_of(n);
        assert(s.drop_last() =~= dec_of(n / 10));
        assert(s.last() == (48 + n % 10) as u8);
        lemma_fundamental_div_mod(n as int, 10);
    }
}

pub proof fn lemma_dec_val_pos(s: Seq<u8>)
    requires
        s.len() >= 1,
        forall|i: int| 0 <= i < s.len() ==> is_digit(s[i]),
        s[0] != 48,
    ensures
        dec_val(s) >= 1,
    decreases s.len(),
{
    if s.len() == 1 {
        assert(dec_val(s.drop_last()) == 0);
        assert(dec_val(s) == 0 * 10 + (s[0] - 48));
    } else {
        let f = s.drop_last();
        assert(forall|i: int| 0 <= i < f.len() ==> is_digit(#[trigger] f[i]));
        lemma_dec_val_pos(f);
        assert(dec_val(s) == dec_val(f) * 10 + (s.last() - 48));
        assert(dec_val(f) * 10 >= 10) by (nonlinear_arith)
            requires
                dec_val(f) >= 1,
        ;
    }
}

pub proof fn lemma_dec_val_nonneg(s: Seq<u8>)
    requires
        forall|i: int| 0 <= i < s.len() ==> is_digit(s[i]),
    ensures
        dec_val(s) >= 0,
    decreases s.len(),
{
    if s.len() > 0 {
        let f = s.drop_last();
        assert(forall|i: int| 0 <= i < f.len() ==> is_digit(#[trigger] f[i]));
        lemma_dec_val_nonneg(f);
    }
}

/// A canonical digit string is the rendering of its value: decimal
/// representations are unique.
pub proof fn lemma_dec_canon_unique(s: Seq<u8>)
    requires
        is_canon_dec(s),
    ensures
        dec_val(s) >= 0,
        dec_of(dec_val(s) as nat) == s,
    decreases s.len(),
{
    lemma_dec_val_nonneg(s);
    if s.len() == 1 {
        assert(dec_val(s.drop_last()) == 0);
        assert(dec_val(s) == 0 * 10 + (s[0] - 48));
        assert(dec_of(dec_val(s) as nat) =~= s);
    } else {
        let f = s.drop_last();
        let d = (s.last() - 48) as int;
        assert(forall|i: int| 0 <= i < f.len() ==> is_digit(#[trigger] f[i]));
        assert(f[0] == s[0]);
        lemma_dec_val_pos(f);
        lemma_dec_canon_unique(f);
        let v = dec_val(s);
        assert(v == dec_val(f) * 10 + d);
        lemma_fundamental_div_mod_converse(v, 10, dec_val(f), d);
        assert(v >= 10) by {
            assert(dec_val(f) * 10 >= 10) by (nonlinear_arith)
                requires
                    dec_val(f) >= 1,
            ;
        }
        assert(dec_of(v as nat) == dec_of((v / 10) as nat) + seq![(48 + (v as nat) % 10) as u8]);
        assert(dec_of(v as nat) =~= s);
    }
}

/// Appending digits never shrinks the value.
pub proof fn lemma_dec_val_extend(s: Seq<u8>, k: int)
    requires
        0 <= k <= s.len(),
        forall|i: int| 0 <= i < s.len() ==> is_digit(s[i]),
    ensures
        dec_val(s.take(k)) <= dec_val(s),
    decreases s.len() - k,
{
    if k < s.len() {
        lemma_dec_val_extend(s, k + 1);
        let a = s.take(k);
        let b = s.take(k + 1);
        assert(b.drop_last() =~= a);
        assert(forall|i: int| 0 <= i < a.len() ==> is_digit(#[trigger] a[i]));
        lemma_dec_val_nonneg(a);
        assert(dec_val(b) == dec_val(a) * 10 + (s[k] - 48));
        assert(dec_val(a) * 10 >= dec_val(a)) by (nonlinear_arith)
            requires
                dec_val(a) >= 0,
        ;
    } else {
        assert(s.take(k) =~= s);
    }
}

/// Renders a `u64` in canonical decimal.
pub fn dec_u64(n: u64) -> (r: Vec<u8>)
    ensures
        r@ == dec_of(n as nat),
{
    let mut tmp: Vec<u8> = Vec::new();
    let mut m: u64 = n;
    proof {
        assert(dec_of(n as nat) =~= dec_of(m as nat) + tmp@.reverse());
    }
    while m >= 10
        invariant
            dec_of(n as nat) == dec_of(m as nat) + tmp@.reverse(),
        decreases m,
    {
        let ghost pre = tmp@;
        tmp.push((m % 10) as u8 + 48);
        proof {
            assert(tmp@.reverse() =~= seq![(48 + (m as nat) % 10) as u8] + pre.reverse());
            assert(dec_of(m as nat) == dec_of((m as nat) / 10) + seq![(48 + (m as nat) % 10) as u8]);
            assert(dec_of(n as nat) =~= dec_of(((m / 10) as u64) as nat) + tmp@.reverse());
        }
        m = m / 10;
    }
    let ghost pre = tmp@;
    tmp.push(m as u8 + 48);
    proof {
        assert(tmp@.reverse() =~= seq![(48 + (m as nat)) as u8] + pre.reverse());
        assert(dec_of(n as nat) =~= tmp@.reverse());
    }
    let mut out: Vec<u8> = Vec::new();
    let mut k: usize = 0;
    while k < tmp.len()
        invariant
            0 <= k <= tmp@.len(),
            out@.len() == k,
            forall|i: int| 0 <= i < k ==> out@[i] == tmp@[tmp@.len() - 1 - i],
        decreases tmp@.len() - k,
    {
        out.push(tmp[tmp.len() - 1 - k]);
        k += 1;
    }
    proof {
        assert(out@ =~= tmp@.reverse());
    }
    out
}

/// Renders an `i64` in canonical decimal with an optional minus sign.
pub fn dec_i64(n: i64) -> (r: Vec<u8>)
    ensures
        r@ == int_dec_of(n as int),
{
    if n >= 0 {
        dec_u64(n as u64)
    } else {
        let mag: u64 = ((-(n + 1)) as u64) + 1;
        proof {
            assert(mag as int == -(n as int));
        }
        let mut out: Vec<u8> = Vec::new();
        out.push(45);
        let mut digits = dec_u64(mag);
        out.append(&mut digits);
        proof {
            assert(out@ =~= int_dec_of(n as int));
        }
        out
    }
}

/// Length of the digit run at the front of `s`.
pub open spec fn digits_len(s: Seq<u8>) -> int
    decreases s.len(),
{
    if s.len() == 0 || !is_digit(s[0]) {
        0
    } else {
        1 + digits_len(s.skip(1))
    }
}

pub proof fn lemma_digits_len_bounds(s: Seq<u8>)
    ensures
        0 <= digits_len(s) <= s.len(),
        forall|i: int| 0 <= i < digits_len(s) ==> is_digit(s[i]),
        digits_len(s) < s.len() ==> !is_digit(s[digits_len(s)]),
    decreases s.len(),
{
    if s.len() > 0 && is_digit(s[0]) {
        lemma_digits_len_bounds(s.skip(1));
        let k = digits_len(s);
        assert forall|i: int| 0 <= i < k implies is_digit(s[i]) by {
            if i >= 1 {
                assert(is_digit(s.skip(1)[i - 1]));
                assert(s.skip(1)[i - 1] == s[i]);
            }
        }
        if k < s.len() {
            assert(s.skip(1)[k - 1] == s[k]);
        }
    }
}

/// The digit run of a canonical rendering followed by a non-digit is exactly
/// the rendering.
pub proof fn lemma_digits_len_concat(d: Seq<u8>, rest: Seq<u8>)
    requires
        forall|i: int| 0 <= i < d.len() ==> is_digit(d[i]),
        rest.len() > 0 ==> !is_digit(rest[0]),
    ensures
        digits_len(d + rest) == d.len(),
    decreases d.len(),
{
    if d.len() == 0 {
        assert(d + rest =~= rest);
    } else {
        let s = d + rest;
        assert(s[0] == d[0]);
        assert(s.skip(1) =~= d.skip(1) + rest);
        assert(forall|i: int| 0 <= i < d.skip(1).len() ==> is_digit(#[trigger] d.skip(1)[i])) by {
            assert(forall|i: int| 0 <= i < d.len() - 1 ==> d.skip(1)[i] == d[i + 1]);
        }
        lemma_digits_len_concat(d.skip(1), rest);
    }
}

/// Strict decimal scan: `Some((v, k))` when a canonical decimal of value `v`
/// and length `k` that fits in a `u64` sits at the front of `s`.
pub open spec fn scan_dec(s: Seq<u8>) -> Option<(u64, int)> {
    let k = digits_len(s);
    if k == 0 {
        None
    } else if k > 1 && s[0] == 48 {
        None
    } else if dec_val(s.take(k)) > u64::MAX {
        None
    } else {
        Some((dec_val(s.take(k)) as u64, k))
    }
}

/// What a successful strict scan says about the input.
pub proof fn lemma_scan_dec_sound(s: Seq<u8>)
    ensures
        scan_dec(s) matches Some(p) ==> {
            let (v, k) = p;
            &&& 0 < k <= s.len()
            &&& s.take(k) == dec_of(v as nat)
            &&& (k < s.len() ==> !is_digit(s[k]))
        },
{
    lemma_digits_len_bounds(s);
    if scan_dec(s) is Some {
        let k = digits_len(s);
        let t = s.take(k);
        assert(forall|i: int| 0 <= i < k ==> is_digit(#[trigger] t[i])) by {
            assert(forall|i: int| 0 <= i < k ==> t[i] == s[i]);
        }
        assert(t[0] == s[0]);
        lemma_dec_canon_unique(t);
    }
}

/// A canonical rendering followed by a non-digit scans back to its value.
pub proof fn lemma_scan_dec_complete(n: u64, rest: Seq<u8>)
    requires
        rest.len() > 0 ==> !is_digit(rest[0]),
    ensures
        scan_dec(dec_of(n as nat) + rest) == Some((n, dec_of(n as nat).len() as int)),
{
    let d = dec_of(n as nat);
    let s = d + rest;
    lemma_dec_of_canon(n as nat);
    lemma_digits_len_concat(d, rest);
    assert(s.take(d.len() as int) =~= d);
    lemma_dec_val_of(n as nat);
    assert(s[0] == d[0]);
}

/// Scans a canonical decimal at index `i`; returns the value and the index
/// just past the digits.
#[verifier::loop_isolation(false)]
pub fn scan_dec_at(p: &Vec<u8>, i: usize) -> (r: Option<(u64, usize)>)
    requires
        i <= p@.len(),
    ensures
        r matches Some(pr) ==> scan_dec(p@.skip(i as int)) == Some((pr.0, pr.1 - i as int)) && i
            < pr.1 <= p@.len(),
        r is None ==> scan_dec(p@.skip(i as int)) is None,
{
    let ghost s = p@.skip(i as int);
    proof {
        lemma_digits_len_bounds(s);
    }
    let ghost k = digits_len(s);
    // find the end of the digit run
    let mut j: usize = i;
    while j < p.len() && 48 <= p[j] && p[j] <= 57
        invariant
            i <= j <= p@.len(),
            j - i <= k,
            forall|t: int| 0 <= t < j - i ==> is_digit(s[t]),
        decreases p@.len() - j,
    {
        proof {
            assert(s[j - i as int] == p@[j as int]);
            if j - i == k {
                assert(!is_digit(s[k]));
                assert(false);
            }
        }
        j += 1;
    }
    proof {
        if j < p.len() {
            assert(s[j - i as int] == p@[j as int]);
            assert(!is_digit(s[j - i as int]));
        }
        assert(j - i == k) by {
            if j - i < k {
                assert(is_digit(s[j - i as int]));
            }
        }
    }
    if j == i {
        return None;
    }
    if j - i > 1 && p[i] == 48 {
        proof {
            assert(s[0] == p@[i as int]);
        }
        return None;
    }
    // accumulate the value, watching for 64-bit overflow
    let mut acc: u64 = 0;
    let mut t: usize = i;
    proof {
        assert(s.take(0) =~= Seq::<u8>::empty());
    }
    while t < j
        invariant
            i <= t <= j <= p@.len(),
            k == j - i,
            forall|q: int| 0 <= q < k ==> is_digit(s[q]),
            acc as int == dec_val(s.take(t - i as int)),
        decreases j - t,
    {
        proof {
            assert(s[t - i as int] == p@[t as int]);
            assert(is_digit(s[t - i as int]));
        }
        let d = p[t] - 48;
        proof {
            assert(s.take(t - i as int + 1).drop_last() =~= s.take(t - i as int));
            assert(dec_val(s.take(t - i as int + 1)) == acc as int * 10 + d);
        }
        if acc > (u64::MAX - (d as u64)) / 10 {
            // the full digit run can only be larger
            proof {
                assert(acc as int * 10 + d > u64::MAX) by (nonlinear_arith)
                    requires
                        acc as int > (u64::MAX - d) / 10,
                        0 <= d <= 9,
                        acc as int <= u64::MAX,
                ;
                lemma_dec_val_extend(s.take(k), t - i as int + 1);
                assert(s.take(k).take(t - i as int + 1) =~= s.take(t - i as int + 1));
                assert(forall|q: int| 0 <= q < k ==> is_digit(#[trigger] s.take(k)[q]));
            }
            return None;
        }
        proof {
            assert(acc as int * 10 + d <= u64::MAX) by (nonlinear_arith)
                requires
                    acc as int <= (u64::MAX - d) / 10,
                    0 <= d <= 9,
                    0 <= acc as int,
            ;
        }
        acc = acc * 10 + (d as u64);
        t += 1;
    }
    proof {
        assert(s.take(k) =~= s.take(j - i as int));
    }
    Some((acc, j))
}

} // verus!
