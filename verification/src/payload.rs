//! The token payload's JSON form: a single flat object
//! `{"sub":...,"user_id":...,"is_admin":...,"exp":...}` in one canonical
//! rendering, with a strict parser that accepts exactly that rendering.
use crate::claims::ClaimsView;
use crate::num::{dec_i64, dec_of, dec_u64, int_dec_of, is_digit, scan_dec, scan_dec_at};
use vstd::prelude::*;
use vstd::string::StrSliceExecFns;
use vstd::utf8::{decode_utf8, encode_utf8, valid_utf8};

verus! {

/// `s` begins with `pre`.
pub open spec fn starts_with(s: Seq<u8>, pre: Seq<u8>) -> bool {
    s.len() >= pre.len() && s.take(pre.len() as int) == pre
}

/// The lowercase hex character of a value below 16.
pub open spec fn hex_lo_char(v: int) -> u8 {
    if v < 10 {
        (48 + v) as u8
    } else {
        (87 + v) as u8
    }
}

/// The value of a lowercase hex character.
pub open spec fn hex_val_of(b: u8) -> Option<u8> {
    if 48 <= b <= 57 {
        Some((b - 48) as u8)
    } else if 97 <= b <= 102 {
        Some((b - 87) as u8)
    } else {
        None
    }
}

pub proof fn lemma_hex_char_val(v: int)
    requires
        0 <= v < 16,
    ensures
        hex_val_of(hex_lo_char(v)) == Some(v as u8),
{
}

pub proof fn lemma_hex_val_char(b: u8)
    ensures
        hex_val_of(b) matches Some(v) ==> v < 16 && hex_lo_char(v as int) == b,
{
}

/// JSON string escaping of one byte: quote and backslash get a backslash,
/// control bytes a `\u00xx` escape, everything else stands as itself.
pub open spec fn esc_byte(b: u8) -> Seq<u8> {
    if b == 34 {
        seq![92u8, 34u8]
    } else if b == 92 {
        seq![92u8, 92u8]
    } else if b < 32 {
        seq![92u8, 117u8, 48u8, 48u8, (48 + b / 16) as u8, hex_lo_char((b % 16) as int)]
    } else {
        seq![b]
    }
}

/// JSON string escaping of a byte sequence.
pub open spec fn esc_str(s: Seq<u8>) -> Seq<u8>
    decreases s.len(),
{
    if s.len() == 0 {
        Seq::empty()
    } else {
        esc_byte(s[0]) + esc_str(s.skip(1))
    }
}

pub proof fn lemma_esc_str_concat(a: Seq<u8>, b: Seq<u8>)
    ensures
        esc_str(a + b) == esc_str(a) + esc_str(b),
    decreases a.len(),
{
    if a.len() == 0 {
        assert(a + b =~= b);
        assert(esc_str(a) + esc_str(b) =~= esc_str(b));
    } else {
        assert((a + b).skip(1) =~= a.skip(1) + b);
        lemma_esc_str_concat(a.skip(1), b);
        assert((a + b)[0] == a[0]);
        assert(esc_byte(a[0]) + (esc_str(a.skip(1)) + esc_str(b)) =~= (esc_byte(a[0]) + esc_str(
            a.skip(1),
        )) + esc_str(b));
    }
}

/// Strict scan of an escaped string up to and including its closing quote:
/// the decoded bytes and the count of input bytes consumed.
pub open spec fn scan_str(s: Seq<u8>) -> Option<(Seq<u8>, int)>
    decreases s.len(),
{
    if s.len() == 0 {
        None
    } else if s[0] == 34 {
        Some((Seq::empty(), 1))
    } else if s[0] == 92 {
        if s.len() >= 2 && (s[1] == 34 || s[1] == 92) {
            match scan_str(s.skip(2)) {
                Some(dn) => Some((seq![s[1]] + dn.0, 2 + dn.1)),
                None => None,
            }
        } else if s.len() >= 6 && s[1] == 117 && s[2] == 48 && s[3] == 48 && (s[4] == 48 || s[4]
            == 49) && hex_val_of(s[5]) is Some {
            let v = ((s[4] - 48) * 16 + hex_val_of(s[5]).unwrap()) as u8;
            match scan_str(s.skip(6)) {
                Some(dn) => Some((seq![v] + dn.0, 6 + dn.1)),
                None => None,
            }
        } else {
            None
        }
    } else if s[0] < 32 {
        None
    } else {
        match scan_str(s.skip(1)) {
            Some(dn) => Some((seq![s[0]] + dn.0, 1 + dn.1)),
            None => None,
        }
    }
}

/// A successful scan consumed exactly the escaped form of its result plus the
/// closing quote.
pub proof fn lemma_scan_str_sound(s: Seq<u8>)
    ensures
        scan_str(s) matches Some(dn) ==> 1 <= dn.1 <= s.len() && s.take(dn.1) == esc_str(dn.0)
            + seq![34u8],
    decreases s.len(),
{
    if scan_str(s) is Some {
        let (d, n) = scan_str(s).unwrap();
        if s[0] == 34 {
            assert(s.take(1) =~= esc_str(d) + seq![34u8]);
        } else if s[0] == 92 {
            if s.len() >= 2 && (s[1] == 34 || s[1] == 92) {
                lemma_scan_str_sound(s.skip(2));
                let (d2, n2) = scan_str(s.skip(2)).unwrap();
                assert(s.take(n) =~= s.take(2) + s.skip(2).take(n2));
                assert(d =~= seq![s[1]] + d2);
                assert(d.skip(1) =~= d2);
                assert(esc_byte(s[1]) =~= s.take(2));
                assert(esc_str(d) + seq![34u8] =~= esc_byte(s[1]) + (esc_str(d2) + seq![34u8]));
                assert(s.take(n) =~= esc_str(d) + seq![34u8]);
            } else {
                let v = ((s[4] - 48) * 16 + hex_val_of(s[5]).unwrap()) as u8;
                lemma_scan_str_sound(s.skip(6));
                let (d2, n2) = scan_str(s.skip(6)).unwrap();
                assert(s.take(n) =~= s.take(6) + s.skip(6).take(n2));
                assert(d =~= seq![v] + d2);
                assert(d.skip(1) =~= d2);
                lemma_hex_val_char(s[5]);
                assert(v < 32) by {
                    assert(hex_val_of(s[5]).unwrap() < 16);
                }
                assert(v / 16 == s[4] - 48 && v % 16 == hex_val_of(s[5]).unwrap()) by {
                    vstd::arithmetic::div_mod::lemma_fundamental_div_mod_converse(
                        v as int,
                        16,
                        (s[4] - 48) as int,
                        hex_val_of(s[5]).unwrap() as int,
                    );
                }
                assert(esc_byte(v) =~= s.take(6));
                assert(esc_str(d) + seq![34u8] =~= esc_byte(v) + (esc_str(d2) + seq![34u8]));
                assert(s.take(n) =~= esc_str(d) + seq![34u8]);
            }
        } else {
            lemma_scan_str_sound(s.skip(1));
            let (d2, n2) = scan_str(s.skip(1)).unwrap();
            assert(s.take(n) =~= s.take(1) + s.skip(1).take(n2));
            assert(d =~= seq![s[0]] + d2);
            assert(d.skip(1) =~= d2);
            assert(esc_byte(s[0]) =~= s.take(1));
            assert(esc_str(d) + seq![34u8] =~= esc_byte(s[0]) + (esc_str(d2) + seq![34u8]));
            assert(s.take(n) =~= esc_str(d) + seq![34u8]);
        }
    }
}

/// An escaped string followed by its closing quote scans back to the
/// original bytes.
pub proof fn lemma_scan_str_complete(d: Seq<u8>, rest: Seq<u8>)
    ensures
        scan_str(esc_str(d) + seq![34u8] + rest) == Some((d, esc_str(d).len() + 1 as int)),
    decreases d.len(),
{
    let s = esc_str(d) + seq![34u8] + rest;
    if d.len() == 0 {
        assert(s[0] == 34);
        assert(d =~= Seq::<u8>::empty());
    } else {
        let b = d[0];
        let e = esc_byte(b);
        lemma_scan_str_complete(d.skip(1), rest);
        let s2 = esc_str(d.skip(1)) + seq![34u8] + rest;
        assert(esc_str(d) =~= e + esc_str(d.skip(1)));
        assert(forall|i: int| 0 <= i < e.len() ==> s[i] == e[i]);
        assert(s.skip(e.len() as int) =~= s2);
        if b == 34 || b == 92 {
            assert(s[0] == 92 && s[1] == b);
            assert(seq![s[1]] + d.skip(1) =~= d);
        } else if b < 32 {
            assert(s[0] == 92 && s[1] == 117 && s[2] == 48 && s[3] == 48);
            assert(s[4] == (48 + b / 16) as u8 && s[5] == hex_lo_char((b % 16) as int));
            assert(b / 16 <= 1);
            lemma_hex_char_val((b % 16) as int);
            assert(hex_val_of(s[5]) == Some((b % 16) as u8));
            assert(((s[4] - 48) * 16 + hex_val_of(s[5]).unwrap()) as u8 == b) by {
                vstd::arithmetic::div_mod::lemma_fundamental_div_mod(b as int, 16);
            }
            assert(seq![b] + d.skip(1) =~= d);
        } else {
            assert(s[0] == b && b != 34 && b != 92 && b >= 32);
            assert(seq![s[0]] + d.skip(1) =~= d);
        }
    }
}

/// Literal pieces of the canonical payload object.
pub open spec fn lit_sub() -> Seq<u8> {
    seq![123u8, 34u8, 115u8, 117u8, 98u8, 34u8, 58u8, 34u8]
}

pub open spec fn lit_uid() -> Seq<u8> {
    seq![44u8, 34u8, 117u8, 115u8, 101u8, 114u8, 95u8, 105u8, 100u8, 34u8, 58u8]
}

pub open spec fn lit_adm() -> Seq<u8> {
    seq![44u8, 34u8, 105u8, 115u8, 95u8, 97u8, 100u8, 109u8, 105u8, 110u8, 34u8, 58u8]
}

pub open spec fn lit_exp() -> Seq<u8> {
    seq![44u8, 34u8, 101u8, 120u8, 112u8, 34u8, 58u8]
}

pub open spec fn lit_null() -> Seq<u8> {
    seq![110u8, 117u8, 108u8, 108u8]
}

pub open spec fn lit_true() -> Seq<u8> {
    seq![116u8, 114u8, 117u8, 101u8]
}

pub open spec fn lit_false() -> Seq<u8> {
    seq![102u8, 97u8, 108u8, 115u8, 101u8]
}

/// The `user_id` field's rendering: `null` or a canonical decimal.
pub open spec fn uid_bytes(u: Option<i64>) -> Seq<u8> {
    match u {
        Some(n) => int_dec_of(n as int),
        None => lit_null(),
    }
}

pub open spec fn bool_bytes(b: bool) -> Seq<u8> {
    if b {
        lit_true()
    } else {
        lit_false()
    }
}

/// The canonical JSON rendering of a claims value.
pub open spec fn json_of(c: ClaimsView) -> Seq<u8> {
    lit_sub() + (esc_str(encode_utf8(c.sub)) + (seq![34u8] + (lit_uid() + (uid_bytes(c.user_id) + (
    lit_adm() + (bool_bytes(c.is_admin) + (lit_exp() + (dec_of(c.exp as nat) + seq![125u8]))))))))
}

/// Splitting a concatenation at the seam returns its parts.
pub proof fn lemma_take_concat<T>(a: Seq<T>, b: Seq<T>)
    ensures
        (a + b).take(a.len() as int) == a,
        (a + b).skip(a.len() as int) == b,
{
    assert((a + b).take(a.len() as int) =~= a);
    assert((a + b).skip(a.len() as int) =~= b);
}

/// Concatenation is associative.
pub proof fn lemma_concat_assoc<T>(a: Seq<T>, b: Seq<T>, c: Seq<T>)
    ensures
        (a + b) + c == a + (b + c),
{
    assert((a + b) + c =~= a + (b + c));
}

/// A sequence is its prefix and the rest.
pub proof fn lemma_take_skip<T>(s: Seq<T>, k: int)
    requires
        0 <= k <= s.len(),
    ensures
        s == s.take(k) + s.skip(k),
{
    assert(s =~= s.take(k) + s.skip(k));
}

/// Skipping twice skips the sum.
pub proof fn lemma_skip_skip<T>(s: Seq<T>, a: int, b: int)
    requires
        0 <= a,
        0 <= b,
        a + b <= s.len(),
    ensures
        s.skip(a).skip(b) == s.skip(a + b),
{
    assert(s.skip(a).skip(b) =~= s.skip(a + b));
}

/// Strict scan of the `user_id` value: `null` or a decimal fitting an `i64`.
pub open spec fn scan_uid(s: Seq<u8>) -> Option<(Option<i64>, int)> {
    if starts_with(s, lit_null()) {
        Some((None, 4))
    } else if s.len() >= 1 && s[0] == 45 {
        match scan_dec(s.skip(1)) {
            Some(vk) => if 1 <= vk.0 <= 0x8000000000000000u64 {
                Some((Some((-(vk.0 as int)) as i64), 1 + vk.1))
            } else {
                None
            },
            None => None,
        }
    } else {
        match scan_dec(s) {
            Some(vk) => if vk.0 <= 0x7fffffffffffffffu64 {
                Some((Some(vk.0 as i64), vk.1))
            } else {
                None
            },
            None => None,
        }
    }
}

/// Strict scan of the `is_admin` value.
pub open spec fn scan_bool(s: Seq<u8>) -> Option<(bool, int)> {
    if starts_with(s, lit_true()) {
        Some((true, 4))
    } else if starts_with(s, lit_false()) {
        Some((false, 5))
    } else {
        None
    }
}

/// First stage of the payload parse: the opening literal and the subject
/// string. Yields the subject and the index just past its closing quote.
pub open spec fn parse_stage_sub(p: Seq<u8>) -> Option<(Seq<char>, int)> {
    if !starts_with(p, lit_sub()) {
        None
    } else {
        match scan_str(p.skip(lit_sub().len() as int)) {
            None => None,
            Some(sn) => if valid_utf8(sn.0) {
                Some((decode_utf8(sn.0), lit_sub().len() + sn.1))
            } else {
                None
            },
        }
    }
}

/// Second stage: the `user_id` field at index `i`.
pub open spec fn parse_stage_uid(p: Seq<u8>, i: int) -> Option<(Option<i64>, int)> {
    if !(0 <= i <= p.len() && starts_with(p.skip(i), lit_uid())) {
        None
    } else {
        match scan_uid(p.skip(i + lit_uid().len())) {
            None => None,
            Some(un) => Some((un.0, i + lit_uid().len() + un.1)),
        }
    }
}

/// Third stage: the `is_admin` field at index `i`.
pub open spec fn parse_stage_adm(p: Seq<u8>, i: int) -> Option<(bool, int)> {
    if !(0 <= i <= p.len() && starts_with(p.skip(i), lit_adm())) {
        None
    } else {
        match scan_bool(p.skip(i + lit_adm().len())) {
            None => None,
            Some(bn) => Some((bn.0, i + lit_adm().len() + bn.1)),
        }
    }
}

/// Fourth stage: the `exp` field at index `i`.
pub open spec fn parse_stage_exp(p: Seq<u8>, i: int) -> Option<(u64, int)> {
    if !(0 <= i <= p.len() && starts_with(p.skip(i), lit_exp())) {
        None
    } else {
        match scan_dec(p.skip(i + lit_exp().len())) {
            None => None,
            Some(en) => Some((en.0, i + lit_exp().len() + en.1)),
        }
    }
}

/// Last stage: only the closing brace remains at index `i`.
pub open spec fn parse_stage_end(p: Seq<u8>, i: int) -> bool {
    0 <= i <= p.len() && p.skip(i) == seq![125u8]
}

/// Strict parse of the whole payload object: `Some` exactly on canonical
/// renderings, returning the claims they render.
pub open spec fn payload_parse(p: Seq<u8>) -> Option<ClaimsView> {
    match parse_stage_sub(p) {
        None => None,
        Some(sn) => match parse_stage_uid(p, sn.1) {
            None => None,
            Some(un) => match parse_stage_adm(p, un.1) {
                None => None,
                Some(bn) => match parse_stage_exp(p, bn.1) {
                    None => None,
                    Some(en) => if parse_stage_end(p, en.1) {
                        Some(ClaimsView { sub: sn.0, user_id: un.0, is_admin: bn.0, exp: en.0 })
                    } else {
                        None
                    },
                },
            },
        },
    }
}

proof fn lemma_scan_uid_sound(s: Seq<u8>)
    ensures
        scan_uid(s) matches Some(un) ==> 0 < un.1 <= s.len() && s.take(un.1) == uid_bytes(un.0),
{
    if scan_uid(s) is Some {
        let (u, n) = scan_uid(s).unwrap();
        if starts_with(s, lit_null()) {
            assert(s.take(4) =~= uid_bytes(None));
        } else if s.len() >= 1 && s[0] == 45 {
            crate::num::lemma_scan_dec_sound(s.skip(1));
            let (v, k) = scan_dec(s.skip(1)).unwrap();
            assert(s.take(1 + k) =~= seq![45u8] + s.skip(1).take(k));
            assert(uid_bytes(u) =~= seq![45u8] + dec_of(v as nat));
        } else {
            crate::num::lemma_scan_dec_sound(s);
            let (v, k) = scan_dec(s).unwrap();
            assert(uid_bytes(u) == dec_of(v as nat));
        }
    }
}

proof fn lemma_scan_uid_complete(u: Option<i64>, rest: Seq<u8>)
    requires
        rest.len() > 0 ==> !is_digit(rest[0]),
    ensures
        scan_uid(uid_bytes(u) + rest) == Some((u, uid_bytes(u).len() as int)),
{
    let s = uid_bytes(u) + rest;
    match u {
        None => {
            assert(s.take(4) =~= lit_null());
        },
        Some(n) => {
            if n < 0 {
                let mag = (-n) as u64;
                assert(uid_bytes(u) =~= seq![45u8] + dec_of(mag as nat));
                assert(s[0] == 45);
                assert(!starts_with(s, lit_null())) by {
                    if starts_with(s, lit_null()) {
                        assert(s.take(4)[0] == s[0]);
                    }
                }
                assert(s.skip(1) =~= dec_of(mag as nat) + rest);
                crate::num::lemma_scan_dec_complete(mag, rest);
                crate::num::lemma_dec_of_canon(mag as nat);
                assert(1 <= mag <= 0x8000000000000000u64) by {
                    assert(mag as int == -(n as int));
                }
                assert((-(mag as int)) as i64 == n);
            } else {
                let v = n as u64;
                assert(uid_bytes(u) =~= dec_of(v as nat));
                crate::num::lemma_scan_dec_complete(v, rest);
                crate::num::lemma_dec_of_canon(v as nat);
                assert(is_digit(s[0])) by {
                    assert(s[0] == dec_of(v as nat)[0]);
                }
                assert(!starts_with(s, lit_null())) by {
                    if starts_with(s, lit_null()) {
                        assert(s.take(4)[0] == s[0]);
                    }
                }
                assert(s[0] != 45);
                assert(v <= 0x7fffffffffffffffu64);
                assert(v as i64 == n);
            }
        },
    }
}

proof fn lemma_scan_bool_sound(s: Seq<u8>)
    ensures
        scan_bool(s) matches Some(bn) ==> 0 < bn.1 <= s.len() && s.take(bn.1) == bool_bytes(bn.0),
{
}

proof fn lemma_scan_bool_complete(b: bool, rest: Seq<u8>)
    ensures
        scan_bool(bool_bytes(b) + rest) == Some((b, bool_bytes(b).len() as int)),
{
    let s = bool_bytes(b) + rest;
    if b {
        assert(s.take(4) =~= lit_true());
    } else {
        assert(s.take(5) =~= lit_false());
        assert(!starts_with(s, lit_true())) by {
            if starts_with(s, lit_true()) {
                assert(s.take(4)[0] == s[0]);
                assert(lit_false()[0] == s[0]);
            }
        }
    }
}

/// A parsed payload is exactly the canonical rendering of its claims.
#[verifier::rlimit(100)]
pub proof fn lemma_payload_sound(p: Seq<u8>)
    ensures
        payload_parse(p) matches Some(cv) ==> p == json_of(cv),
{
    if payload_parse(p) is Some {
        let cv = payload_parse(p).unwrap();
        let l0 = lit_sub().len() as int;
        let (sb, n1) = scan_str(p.skip(l0)).unwrap();
        lemma_scan_str_sound(p.skip(l0));
        let i1 = l0 + n1;
        let (u, n3) = scan_uid(p.skip(i1 + lit_uid().len())).unwrap();
        lemma_scan_uid_sound(p.skip(i1 + lit_uid().len()));
        let i2 = i1 + lit_uid().len() + n3;
        let (bo, n5) = scan_bool(p.skip(i2 + lit_adm().len())).unwrap();
        lemma_scan_bool_sound(p.skip(i2 + lit_adm().len()));
        let i3 = i2 + lit_adm().len() + n5;
        let (ex, n7) = scan_dec(p.skip(i3 + lit_exp().len())).unwrap();
        crate::num::lemma_scan_dec_sound(p.skip(i3 + lit_exp().len()));
        let i4 = i3 + lit_exp().len() + n7;
        vstd::utf8::decode_utf8_encode_utf8(sb);
        assert(encode_utf8(cv.sub) == sb);
        // stitch the input back together from the back
        lemma_take_skip(p.skip(i3 + lit_exp().len()), n7);
        lemma_skip_skip(p, i3 + lit_exp().len(), n7);
        assert(p.skip(i3 + lit_exp().len()) == dec_of(ex as nat) + p.skip(i4));
        lemma_take_skip(p.skip(i3), lit_exp().len() as int);
        lemma_skip_skip(p, i3, lit_exp().len() as int);
        assert(p.skip(i3) == lit_exp() + (dec_of(ex as nat) + p.skip(i4)));
        lemma_take_skip(p.skip(i2 + lit_adm().len()), n5);
        lemma_skip_skip(p, i2 + lit_adm().len(), n5);
        assert(p.skip(i2 + lit_adm().len()) == bool_bytes(bo) + p.skip(i3));
        lemma_take_skip(p.skip(i2), lit_adm().len() as int);
        lemma_skip_skip(p, i2, lit_adm().len() as int);
        assert(p.skip(i2) == lit_adm() + (bool_bytes(bo) + p.skip(i3)));
        lemma_take_skip(p.skip(i1 + lit_uid().len()), n3);
        lemma_skip_skip(p, i1 + lit_uid().len(), n3);
        assert(p.skip(i1 + lit_uid().len()) == uid_bytes(u) + p.skip(i2));
        lemma_take_skip(p.skip(i1), lit_uid().len() as int);
        lemma_skip_skip(p, i1, lit_uid().len() as int);
        assert(p.skip(i1) == lit_uid() + (uid_bytes(u) + p.skip(i2)));
        lemma_take_skip(p.skip(l0), n1);
        lemma_skip_skip(p, l0, n1);
        lemma_concat_assoc(esc_str(sb), seq![34u8], p.skip(i1));
        assert(p.skip(l0) == esc_str(sb) + (seq![34u8] + p.skip(i1)));
        lemma_take_skip(p, l0);
        assert(p == lit_sub() + p.skip(l0));
        assert(p.skip(i4) == seq![125u8]);
        assert(p == json_of(cv));
    }
}

/// Every canonical rendering parses back to its claims.
#[verifier::rlimit(100)]
pub proof fn lemma_payload_complete(cv: ClaimsView)
    ensures
        payload_parse(json_of(cv)) == Some(cv),
{
    let p = json_of(cv);
    let sb = encode_utf8(cv.sub);
    let r8 = dec_of(cv.exp as nat) + seq![125u8];
    let r7 = lit_exp() + r8;
    let r6 = bool_bytes(cv.is_admin) + r7;
    let r5 = lit_adm() + r6;
    let r4 = uid_bytes(cv.user_id) + r5;
    let r3 = lit_uid() + r4;
    let r2 = seq![34u8] + r3;
    let r1 = esc_str(sb) + r2;
    let l0 = lit_sub().len() as int;
    assert(p == lit_sub() + r1);
    lemma_take_concat(lit_sub(), r1);
    assert(p.skip(l0) == r1);
    lemma_concat_assoc(esc_str(sb), seq![34u8], r3);
    assert(p.skip(l0) == (esc_str(sb) + seq![34u8]) + r3);
    lemma_scan_str_complete(sb, r3);
    let n1 = esc_str(sb).len() + 1;
    assert(scan_str(p.skip(l0)) == Some((sb, n1 as int)));
    vstd::utf8::encode_utf8_valid_utf8(cv.sub);
    vstd::utf8::encode_utf8_decode_utf8(cv.sub);
    assert(parse_stage_sub(p) == Some((cv.sub, l0 + n1)));
    let i1 = l0 + n1;
    lemma_take_concat(esc_str(sb) + seq![34u8], r3);
    assert((esc_str(sb) + seq![34u8]).len() == n1);
    lemma_skip_skip(p, l0, n1 as int);
    assert(p.skip(i1) == r3);
    lemma_take_concat(lit_uid(), r4);
    lemma_skip_skip(p, i1, lit_uid().len() as int);
    assert(p.skip(i1 + lit_uid().len()) == r4);
    lemma_scan_uid_complete(cv.user_id, r5);
    assert(scan_uid(p.skip(i1 + lit_uid().len())) == Some(
        (cv.user_id, uid_bytes(cv.user_id).len() as int),
    ));
    assert(parse_stage_uid(p, i1) == Some(
        (cv.user_id, i1 + lit_uid().len() + uid_bytes(cv.user_id).len()),
    ));
    let i2 = i1 + lit_uid().len() + uid_bytes(cv.user_id).len();
    lemma_take_concat(uid_bytes(cv.user_id), r5);
    lemma_skip_skip(p, i1 + lit_uid().len(), uid_bytes(cv.user_id).len() as int);
    assert(p.skip(i2) == r5);
    lemma_take_concat(lit_adm(), r6);
    lemma_skip_skip(p, i2, lit_adm().len() as int);
    assert(p.skip(i2 + lit_adm().len()) == r6);
    lemma_scan_bool_complete(cv.is_admin, r7);
    assert(parse_stage_adm(p, i2) == Some(
        (cv.is_admin, i2 + lit_adm().len() + bool_bytes(cv.is_admin).len()),
    ));
    let i3 = i2 + lit_adm().len() + bool_bytes(cv.is_admin).len();
    lemma_take_concat(bool_bytes(cv.is_admin), r7);
    lemma_skip_skip(p, i2 + lit_adm().len(), bool_bytes(cv.is_admin).len() as int);
    assert(p.skip(i3) == r7);
    lemma_take_concat(lit_exp(), r8);
    lemma_skip_skip(p, i3, lit_exp().len() as int);
    assert(p.skip(i3 + lit_exp().len()) == r8);
    crate::num::lemma_scan_dec_complete(cv.exp, seq![125u8]);
    assert(scan_dec(p.skip(i3 + lit_exp().len())) == Some(
        (cv.exp, dec_of(cv.exp as nat).len() as int),
    ));
    assert(parse_stage_exp(p, i3) == Some(
        (cv.exp, i3 + lit_exp().len() + dec_of(cv.exp as nat).len()),
    ));
    let i4 = i3 + lit_exp().len() + dec_of(cv.exp as nat).len();
    lemma_take_concat(dec_of(cv.exp as nat), seq![125u8]);
    lemma_skip_skip(p, i3 + lit_exp().len(), dec_of(cv.exp as nat).len() as int);
    assert(p.skip(i4) == seq![125u8]);
    assert(parse_stage_end(p, i4));
}

/// Canonical renderings are distinct for distinct claims.
pub proof fn lemma_json_of_injective(a: ClaimsView, b: ClaimsView)
    ensures
        json_of(a) == json_of(b) ==> a == b,
{
    if json_of(a) == json_of(b) {
        lemma_payload_complete(a);
        lemma_payload_complete(b);
    }
}

pub(crate) fn push_all(out: &mut Vec<u8>, bytes: &Vec<u8>)
    ensures
        final(out)@ == old(out)@ + bytes@,
{
    let mut j: usize = 0;
    while j < bytes.len()
        invariant
            0 <= j <= bytes@.len(),
            out@ == old(out)@ + bytes@.take(j as int),
        decreases bytes@.len() - j,
    {
        out.push(bytes[j]);
        proof {
            assert(old(out)@ + bytes@.take(j as int) + seq![bytes@[j as int]] =~= old(out)@
                + bytes@.take(j + 1));
        }
        j += 1;
    }
    proof {
        assert(bytes@.take(bytes@.len() as int) =~= bytes@);
    }
}

fn lit_sub_vec() -> (r: Vec<u8>)
    ensures
        r@ == lit_sub(),
{
    let mut v: Vec<u8> = Vec::new();
    v.push(123);
    v.push(34);
    v.push(115);
    v.push(117);
    v.push(98);
    v.push(34);
    v.push(58);
    v.push(34);
    proof {
        assert(v@ =~= lit_sub());
    }
    v
}

fn lit_uid_vec() -> (r: Vec<u8>)
    ensures
        r@ == lit_uid(),
{
    let mut v: Vec<u8> = Vec::new();
    v.push(44);
    v.push(34);
    v.push(117);
    v.push(115);
    v.push(101);
    v.push(114);
    v.push(95);
    v.push(105);
    v.push(100);
    v.push(34);
    v.push(58);
    proof {
        assert(v@ =~= lit_uid());
    }
    v
}

fn lit_adm_vec() -> (r: Vec<u8>)
    ensures
        r@ == lit_adm(),
{
    let mut v: Vec<u8> = Vec::new();
    v.push(44);
    v.push(34);
    v.push(105);
    v.push(115);
    v.push(95);
    v.push(97);
    v.push(100);
    v.push(109);
    v.push(105);
    v.push(110);
    v.push(34);
    v.push(58);
    proof {
        assert(v@ =~= lit_adm());
    }
    v
}

fn lit_exp_vec() -> (r: Vec<u8>)
    ensures
        r@ == lit_exp(),
{
    let mut v: Vec<u8> = Vec::new();
    v.push(44);
    v.push(34);
    v.push(101);
    v.push(120);
    v.push(112);
    v.push(34);
    v.push(58);
    proof {
        assert(v@ =~= lit_exp());
    }
    v
}

fn lit_null_vec() -> (r: Vec<u8>)
    ensures
        r@ == lit_null(),
{
    let mut v: Vec<u8> = Vec::new();
    v.push(110);
    v.push(117);
    v.push(108);
    v.push(108);
    proof {
        assert(v@ =~= lit_null());
    }
    v
}

fn lit_true_vec() -> (r: Vec<u8>)
    ensures
        r@ == lit_true(),
{
    let mut v: Vec<u8> = Vec::new();
    v.push(116);
    v.push(114);
    v.push(117);
    v.push(101);
    proof {
        assert(v@ =~= lit_true());
    }
    v
}

fn lit_false_vec() -> (r: Vec<u8>)
    ensures
        r@ == lit_false(),
{
    let mut v: Vec<u8> = Vec::new();
    v.push(102);
    v.push(97);
    v.push(108);
    v.push(115);
    v.push(101);
    proof {
        assert(v@ =~= lit_false());
    }
    v
}

/// Whether `lit` sits at index `i` of `p`.
#[verifier::loop_isolation(false)]
pub(crate) fn match_lit(p: &Vec<u8>, i: usize, lit: &Vec<u8>) -> (r: bool)
    requires
        i <= p@.len(),
    ensures
        r == starts_with(p@.skip(i as int), lit@),
        r ==> i + lit@.len() <= p@.len() && i + lit@.len() <= usize::MAX,
{
    if p.len() - i < lit.len() {
        return false;
    }
    proof {
        assert(i + lit@.len() <= p@.len());
    }
    let mut j: usize = 0;
    while j < lit.len()
        invariant
            0 <= j <= lit@.len(),
            forall|t: int| 0 <= t < j ==> p@.skip(i as int)[t] == lit@[t],
        decreases lit@.len() - j,
    {
        if p[i + j] != lit[j] {
            proof {
                assert(p@.skip(i as int)[j as int] == p@[i + j]);
                assert(p@.skip(i as int).take(lit@.len() as int)[j as int] != lit@[j as int]);
            }
            return false;
        }
        proof {
            assert(p@.skip(i as int)[j as int] == p@[i + j]);
        }
        j += 1;
    }
    proof {
        assert(p@.skip(i as int).take(lit@.len() as int) =~= lit@);
    }
    true
}

/// Renders the claims as the canonical payload object.
#[verifier::loop_isolation(false)]
#[verifier::rlimit(100)]
pub fn payload_json(c: &crate::claims::Claims) -> (r: Vec<u8>)
    ensures
        r@ == json_of(c@),
{
    let mut out = lit_sub_vec();
    let sb = c.sub.as_str().as_bytes_vec();
    let ghost start = out@;
    let mut i: usize = 0;
    proof {
        assert(esc_str(sb@.take(0)) =~= Seq::<u8>::empty());
        assert(start + Seq::<u8>::empty() =~= start);
    }
    while i < sb.len()
        invariant
            0 <= i <= sb@.len(),
            out@ == start + esc_str(sb@.take(i as int)),
        decreases sb@.len() - i,
    {
        let b = sb[i];
        proof {
            assert(sb@.take(i + 1) =~= sb@.take(i as int) + seq![b]);
            lemma_esc_str_concat(sb@.take(i as int), seq![b]);
            assert(seq![b].skip(1) =~= Seq::<u8>::empty());
            assert(esc_str(Seq::<u8>::empty()) =~= Seq::<u8>::empty());
            assert(esc_str(seq![b]) == esc_byte(b) + esc_str(Seq::<u8>::empty()));
            assert(esc_byte(b) + Seq::<u8>::empty() =~= esc_byte(b));
        }
        if b == 34 {
            out.push(92);
            out.push(34);
        } else if b == 92 {
            out.push(92);
            out.push(92);
        } else if b < 32 {
            out.push(92);
            out.push(117);
            out.push(48);
            out.push(48);
            out.push(48 + b / 16);
            let lo = b % 16;
            if lo < 10 {
                out.push(48 + lo);
            } else {
                out.push(87 + lo);
            }
        } else {
            out.push(b);
        }
        proof {
            assert(out@ =~= start + esc_str(sb@.take(i + 1)));
        }
        i += 1;
    }
    proof {
        assert(sb@.take(sb@.len() as int) =~= sb@);
    }
    out.push(34);
    let luid = lit_uid_vec();
    push_all(&mut out, &luid);
    match &c.user_id {
        Some(n) => {
            let d = dec_i64(*n);
            push_all(&mut out, &d);
        },
        None => {
            let d = lit_null_vec();
            push_all(&mut out, &d);
        },
    }
    let ladm = lit_adm_vec();
    push_all(&mut out, &ladm);
    if c.is_admin {
        let d = lit_true_vec();
        push_all(&mut out, &d);
    } else {
        let d = lit_false_vec();
        push_all(&mut out, &d);
    }
    let lexp = lit_exp_vec();
    push_all(&mut out, &lexp);
    let d = dec_u64(c.exp);
    push_all(&mut out, &d);
    out.push(125);
    proof {
        assert(out@ =~= json_of(c@));
    }
    out
}

/// Scans an escaped string (through its closing quote) at index `i`.
#[verifier::loop_isolation(false)]
fn scan_string_at(p: &Vec<u8>, i: usize) -> (r: Option<(Vec<u8>, usize)>)
    requires
        i <= p@.len(),
    ensures
        r matches Some(dj) ==> i < dj.1 <= p@.len() && scan_str(p@.skip(i as int)) == Some(
            (dj.0@, dj.1 - i as int),
        ),
        r is None ==> scan_str(p@.skip(i as int)) is None,
{
    let mut out: Vec<u8> = Vec::new();
    let mut k: usize = i;
    proof {
        if scan_str(p@.skip(i as int)) is Some {
            let dn = scan_str(p@.skip(i as int)).unwrap();
            assert(out@ + dn.0 =~= dn.0);
        }
    }
    loop
        invariant
            i <= k <= p@.len(),
            scan_str(p@.skip(i as int)) == (match scan_str(p@.skip(k as int)) {
                Some(dn) => Some((out@ + dn.0, (k - i) + dn.1)),
                None => None::<(Seq<u8>, int)>,
            }),
        decreases p@.len() - k,
    {
        if k >= p.len() {
            proof {
                assert(p@.skip(k as int).len() == 0);
            }
            return None;
        }
        let b = p[k];
        proof {
            assert(p@.skip(k as int)[0] == b);
        }
        if b == 34 {
            proof {
                assert(scan_str(p@.skip(k as int)) == Some((Seq::<u8>::empty(), 1int)));
                assert(out@ + Seq::<u8>::empty() =~= out@);
            }
            return Some((out, k + 1));
        } else if b == 92 {
            if p.len() - k < 2 {
                proof {
                    assert(p@.skip(k as int).len() < 2);
                }
                return None;
            }
            let e = p[k + 1];
            proof {
                assert(p@.skip(k as int)[1] == e);
            }
            if e == 34 || e == 92 {
                let ghost prev = out@;
                out.push(e);
                proof {
                    assert(p@.skip(k as int).skip(2) =~= p@.skip(k + 2));
                    if scan_str(p@.skip(k + 2)) is Some {
                        let dn = scan_str(p@.skip(k + 2)).unwrap();
                        assert(prev + (seq![e] + dn.0) =~= out@ + dn.0);
                    }
                }
                k = k + 2;
            } else if e == 117 {
                if p.len() - k < 6 {
                    proof {
                        assert(p@.skip(k as int).len() < 6);
                    }
                    return None;
                }
                let h2 = p[k + 2];
                let h3 = p[k + 3];
                let h4 = p[k + 4];
                let h5 = p[k + 5];
                proof {
                    assert(p@.skip(k as int)[2] == h2 && p@.skip(k as int)[3] == h3 && p@.skip(
                        k as int,
                    )[4] == h4 && p@.skip(k as int)[5] == h5);
                }
                if !(h2 == 48 && h3 == 48 && (h4 == 48 || h4 == 49)) {
                    return None;
                }
                let lov: u8;
                if 48 <= h5 && h5 <= 57 {
                    lov = h5 - 48;
                } else if 97 <= h5 && h5 <= 102 {
                    lov = h5 - 87;
                } else {
                    proof {
                        assert(hex_val_of(h5) is None);
                    }
                    return None;
                }
                proof {
                    assert(hex_val_of(h5) == Some(lov));
                }
                let v = (h4 - 48) * 16 + lov;
                let ghost prev = out@;
                out.push(v);
                proof {
                    assert(p@.skip(k as int).skip(6) =~= p@.skip(k + 6));
                    if scan_str(p@.skip(k + 6)) is Some {
                        let dn = scan_str(p@.skip(k + 6)).unwrap();
                        assert(prev + (seq![v] + dn.0) =~= out@ + dn.0);
                    }
                }
                k = k + 6;
            } else {
                return None;
            }
        } else if b < 32 {
            return None;
        } else {
            let ghost prev = out@;
            out.push(b);
            proof {
                assert(p@.skip(k as int).skip(1) =~= p@.skip(k + 1));
                if scan_str(p@.skip(k + 1)) is Some {
                    let dn = scan_str(p@.skip(k + 1)).unwrap();
                    assert(prev + (seq![b] + dn.0) =~= out@ + dn.0);
                }
            }
            k = k + 1;
        }
    }
}


/// Scans the `user_id` value at index `i`: `null` or a decimal fitting an
/// `i64`.
#[verifier::rlimit(60)]
fn scan_uid_at(p: &Vec<u8>, i: usize) -> (r: Option<(Option<i64>, usize)>)
    requires
        i <= p@.len(),
    ensures
        r matches Some(ui) ==> scan_uid(p@.skip(i as int)) == Some((ui.0, ui.1 - i as int)) && i
            <= ui.1 <= p@.len(),
        r is None ==> scan_uid(p@.skip(i as int)) is None,
{
    let lnull = lit_null_vec();
    if match_lit(p, i, &lnull) {
        proof {
            assert(scan_uid(p@.skip(i as int)) == Some((None::<i64>, 4int)));
        }
        return Some((None, i + lnull.len()));
    }
    if i < p.len() && p[i] == 45 {
        proof {
            assert(p@.skip(i as int)[0] == 45);
            lemma_skip_skip(p@, i as int, 1);
        }
        let (v, e) = match scan_dec_at(p, i + 1) {
            Some(ve) => ve,
            None => {
                proof {
                    assert(scan_uid(p@.skip(i as int)) is None);
                }
                return None;
            },
        };
        if !(v >= 1 && v <= 0x8000000000000000u64) {
            proof {
                assert(scan_uid(p@.skip(i as int)) is None);
            }
            return None;
        }
        let id: i64 = if v == 0x8000000000000000u64 {
            i64::MIN
        } else {
            -(v as i64)
        };
        proof {
            assert(id as int == -(v as int));
            assert(scan_uid(p@.skip(i as int)) == Some((Some(id), e - i as int)));
        }
        Some((Some(id), e))
    } else {
        let (v, e) = match scan_dec_at(p, i) {
            Some(ve) => ve,
            None => {
                proof {
                    assert(scan_uid(p@.skip(i as int)) is None);
                }
                return None;
            },
        };
        if !(v <= 0x7fffffffffffffffu64) {
            proof {
                assert(scan_uid(p@.skip(i as int)) is None);
            }
            return None;
        }
        proof {
            assert(scan_uid(p@.skip(i as int)) == Some((Some(v as i64), e - i as int)));
        }
        Some((Some(v as i64), e))
    }
}

/// Parses the canonical payload object; rejects anything else.
#[verifier::loop_isolation(false)]
#[verifier::rlimit(100)]
pub fn parse_payload(p: &Vec<u8>) -> (r: Option<crate::claims::Claims>)
    ensures
        r matches Some(c) ==> payload_parse(p@) == Some(c@),
        r is None ==> payload_parse(p@) is None,
{
    proof {
        assert(p@.skip(0) =~= p@);
    }
    let lsub = lit_sub_vec();
    if !match_lit(p, 0, &lsub) {
        proof {
            assert(parse_stage_sub(p@) is None);
        }
        return None;
    }
    let i1 = lsub.len();
    let (sub_bytes, j) = match scan_string_at(p, i1) {
        Some(dj) => dj,
        None => {
            proof {
                assert(parse_stage_sub(p@) is None);
            }
            return None;
        },
    };
    let ghost sb = sub_bytes@;
    let sub = match String::from_utf8(sub_bytes) {
        Ok(s) => s,
        Err(_) => {
            proof {
                assert(parse_stage_sub(p@) is None);
            }
            return None;
        },
    };
    proof {
        assert(parse_stage_sub(p@) == Some((sub@, j as int)));
    }
    let luid = lit_uid_vec();
    if !match_lit(p, j, &luid) {
        proof {
            assert(parse_stage_uid(p@, j as int) is None);
        }
        return None;
    }
    let i3 = j + luid.len();
    proof {
        lemma_skip_skip(p@, j as int, lit_uid().len() as int);
    }
    let (user_id, i4) = match scan_uid_at(p, i3) {
        Some(ui) => ui,
        None => {
            proof {
                assert(parse_stage_uid(p@, j as int) is None);
            }
            return None;
        },
    };
    proof {
        assert(parse_stage_uid(p@, j as int) == Some((user_id, i4 as int)));
    }
    let ladm = lit_adm_vec();
    if !match_lit(p, i4, &ladm) {
        proof {
            assert(parse_stage_adm(p@, i4 as int) is None);
        }
        return None;
    }
    let i5 = i4 + ladm.len();
    proof {
        lemma_skip_skip(p@, i4 as int, lit_adm().len() as int);
    }
    let ltrue = lit_true_vec();
    let lfalse = lit_false_vec();
    let is_admin: bool;
    let i6: usize;
    if match_lit(p, i5, &ltrue) {
        is_admin = true;
        i6 = i5 + ltrue.len();
    } else if match_lit(p, i5, &lfalse) {
        is_admin = false;
        i6 = i5 + lfalse.len();
    } else {
        proof {
            assert(scan_bool(p@.skip(i5 as int)) is None);
            assert(parse_stage_adm(p@, i4 as int) is None);
        }
        return None;
    }
    proof {
        assert(scan_bool(p@.skip(i5 as int)) == Some((is_admin, i6 - i5 as int)));
        assert(parse_stage_adm(p@, i4 as int) == Some((is_admin, i6 as int)));
    }
    let lexp = lit_exp_vec();
    if !match_lit(p, i6, &lexp) {
        proof {
            assert(parse_stage_exp(p@, i6 as int) is None);
        }
        return None;
    }
    let i7 = i6 + lexp.len();
    proof {
        lemma_skip_skip(p@, i6 as int, lit_exp().len() as int);
    }
    let (exp, i8) = match scan_dec_at(p, i7) {
        Some(ve) => ve,
        None => {
            proof {
                assert(parse_stage_exp(p@, i6 as int) is None);
            }
            return None;
        },
    };
    proof {
        assert(parse_stage_exp(p@, i6 as int) == Some((exp, i8 as int)));
    }
    if !(i8 < p.len() && p[i8] == 125 && i8 + 1 == p.len()) {
        proof {
            if p@.skip(i8 as int) == seq![125u8] {
                assert(p@.skip(i8 as int).len() == 1);
                assert(p@.skip(i8 as int)[0] == 125);
                assert(p@[i8 as int] == 125);
            }
            assert(!parse_stage_end(p@, i8 as int));
        }
        return None;
    }
    proof {
        assert(p@.skip(i8 as int) =~= seq![125u8]);
        assert(parse_stage_end(p@, i8 as int));
    }
    Some(crate::claims::Claims { sub, user_id, is_admin, exp })
}

} // verus!
