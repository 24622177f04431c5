//! Base64url codec (URL-safe alphabet, no padding) used for the token's
//! payload segment. The decoder is strict: it accepts exactly the strings
//! that the encoder produces, so a decoded value re-encodes to the input.
use vstd::prelude::*;

verus! {

/// The base64url character for a 6-bit value.
pub open spec fn b64_char_of(v: u8) -> u8 {
    if v < 26 {
        (65 + v) as u8
    } else if v < 52 {
        (97 + (v - 26)) as u8
    } else if v < 62 {
        (48 + (v - 52)) as u8
    } else if v == 62 {
        45
    } else {
        95
    }
}

/// The 6-bit value of a base64url character, or None if the byte is not in
/// the alphabet.
pub open spec fn b64_val_of(b: u8) -> Option<u8> {
    if 65 <= b <= 90 {
        Some((b - 65) as u8)
    } else if 97 <= b <= 122 {
        Some((b - 97 + 26) as u8)
    } else if 48 <= b <= 57 {
        Some((b - 48 + 52) as u8)
    } else if b == 45 {
        Some(62u8)
    } else if b == 95 {
        Some(63u8)
    } else {
        None
    }
}

/// A full 3-byte group encoded as four 6-bit values.
pub open spec fn enc3(a: u8, b: u8, c: u8) -> (u8, u8, u8, u8) {
    ((a >> 2), (((a & 3) << 4) | (b >> 4)), (((b & 15) << 2) | (c >> 6)), (c & 63))
}

/// Four 6-bit values decoded back to a 3-byte group.
pub open spec fn dec4(w: u8, x: u8, y: u8, z: u8) -> (u8, u8, u8) {
    (((w << 2) | (x >> 4)), ((x << 4) | (y >> 2)), ((y << 6) | z))
}

/// Base64url encoding of a byte sequence, without padding.
pub open spec fn b64_of(s: Seq<u8>) -> Seq<u8>
    decreases s.len(),
{
    if s.len() == 0 {
        Seq::empty()
    } else if s.len() == 1 {
        let a = s[0];
        seq![b64_char_of(a >> 2), b64_char_of((a & 3) << 4)]
    } else if s.len() == 2 {
        let (w, x, y, _) = enc3(s[0], s[1], 0);
        seq![b64_char_of(w), b64_char_of(x), b64_char_of(y)]
    } else {
        let (w, x, y, z) = enc3(s[0], s[1], s[2]);
        seq![b64_char_of(w), b64_char_of(x), b64_char_of(y), b64_char_of(z)] + b64_of(s.skip(3))
    }
}

/// Strict base64url decoding: `Some(s)` exactly when the input is `b64_of(s)`.
pub open spec fn b64_decode_of(t: Seq<u8>) -> Option<Seq<u8>>
    decreases t.len(),
{
    if t.len() == 0 {
        Some(Seq::empty())
    } else if t.len() == 1 {
        None
    } else if t.len() == 2 {
        match (b64_val_of(t[0]), b64_val_of(t[1])) {
            (Some(w), Some(x)) => {
                if x & 15 == 0 {
                    Some(seq![(w << 2) | (x >> 4)])
                } else {
                    None
                }
            },
            _ => None,
        }
    } else if t.len() == 3 {
        match (b64_val_of(t[0]), b64_val_of(t[1]), b64_val_of(t[2])) {
            (Some(w), Some(x), Some(y)) => {
                if y & 3 == 0 {
                    let (a, b, _) = dec4(w, x, y, 0);
                    Some(seq![a, b])
                } else {
                    None
                }
            },
            _ => None,
        }
    } else {
        match (b64_val_of(t[0]), b64_val_of(t[1]), b64_val_of(t[2]), b64_val_of(t[3])) {
            (Some(w), Some(x), Some(y), Some(z)) => {
                match b64_decode_of(t.skip(4)) {
                    Some(rest) => {
                        let (a, b, c) = dec4(w, x, y, z);
                        Some(seq![a, b, c] + rest)
                    },
                    None => None,
                }
            },
            _ => None,
        }
    }
}

/// The alphabet maps 6-bit values to distinct non-dot bytes, and `b64_val_of`
/// inverts it.
pub proof fn lemma_char_val(v: u8)
    requires
        v < 64,
    ensures
        b64_val_of(b64_char_of(v)) == Some(v),
        b64_char_of(v) != 46,
        b64_char_of(v) < 128,
{
}

/// Every byte accepted by `b64_val_of` is the character of its value.
pub proof fn lemma_val_char(b: u8)
    ensures
        b64_val_of(b) matches Some(v) ==> v < 64 && b64_char_of(v) == b,
{
}

proof fn lemma_enc3_values(a: u8, b: u8, c: u8)
    ensures
        ({
            let (w, x, y, z) = enc3(a, b, c);
            w < 64 && x < 64 && y < 64 && z < 64 && dec4(w, x, y, z) == (a, b, c) && (c == 0 ==> z
                == 0 && y & 3 == 0) && (b == 0 && c == 0 ==> y == 0 && x & 15 == 0)
        }),
{
    let (w, x, y, z) = enc3(a, b, c);
    assert((a >> 2) < 64 && (((a & 3) << 4) | (b >> 4)) < 64 && ((((b & 15) << 2) | (c >> 6)) < 64)
        && (c & 63) < 64 && ((a >> 2) << 2) | ((((a & 3) << 4) | (b >> 4)) >> 4) == a && ((((a & 3)
        << 4) | (b >> 4)) << 4) | ((((b & 15) << 2) | (c >> 6)) >> 2) == b && (((((b & 15) << 2) | (
    c >> 6)) << 6) | (c & 63)) == c && (c == 0 ==> (c & 63) == 0 && ((((b & 15) << 2) | (c >> 6)) &
        3) == 0) && (b == 0 && c == 0 ==> (((b & 15) << 2) | (c >> 6)) == 0 && ((((a & 3) << 4) | (b
        >> 4)) & 15) == 0)) by (bit_vector);
}

proof fn lemma_dec4_values(w: u8, x: u8, y: u8, z: u8)
    requires
        w < 64,
        x < 64,
        y < 64,
        z < 64,
    ensures
        ({
            let (a, b, c) = dec4(w, x, y, z);
            enc3(a, b, c) == (w, x, y, z)
        }),
{
    assert(w < 64 && x < 64 && y < 64 && z < 64 ==> (((w << 2) | (x >> 4)) >> 2) == w && ((((w << 2)
        | (x >> 4)) & 3) << 4) | (((x << 4) | (y >> 2)) >> 4) == x && ((((x << 4) | (y >> 2)) & 15)
        << 2) | (((y << 6) | z) >> 6) == y && (((y << 6) | z) & 63) == z) by (bit_vector);
}

proof fn lemma_dec2_tail(w: u8, x: u8)
    requires
        w < 64,
        x < 64,
        x & 15 == 0,
    ensures
        ({
            let a = (w << 2) | (x >> 4);
            (a >> 2) == w && ((a & 3) << 4) == x
        }),
{
    assert(w < 64 && x < 64 && x & 15 == 0 ==> (((w << 2) | (x >> 4)) >> 2) == w && ((((w << 2) | (x
        >> 4)) & 3) << 4) == x) by (bit_vector);
}

proof fn lemma_dec3_tail(w: u8, x: u8, y: u8)
    requires
        w < 64,
        x < 64,
        y < 64,
        y & 3 == 0,
    ensures
        ({
            let (a, b, _) = dec4(w, x, y, 0);
            enc3(a, b, 0) == (w, x, y, (0 & 63) as u8)
        }),
{
    assert(w < 64 && x < 64 && y < 64 && y & 3 == 0 ==> (((w << 2) | (x >> 4)) >> 2) == w && ((((w
        << 2) | (x >> 4)) & 3) << 4) | (((x << 4) | (y >> 2)) >> 4) == x && ((((x << 4) | (y >> 2))
        & 15) << 2) | ((0u8 >> 6)) == y && (((x << 4) | (y >> 2)) & 15) << 2 == y) by (bit_vector);
}

proof fn lemma_enc1_tail(a: u8)
    ensures
        (a >> 2) < 64,
        ((a & 3) << 4) < 64,
        ((a & 3) << 4) & 15 == 0,
        ((a >> 2) << 2) | (((a & 3) << 4) >> 4) == a,
{
    assert((a >> 2) < 64 && ((a & 3) << 4) < 64 && (((a & 3) << 4) & 15) == 0 && (((a >> 2) << 2) | (
    ((a & 3) << 4) >> 4)) == a) by (bit_vector);
}

/// Decoding inverts encoding.
pub proof fn lemma_b64_roundtrip(s: Seq<u8>)
    ensures
        b64_decode_of(b64_of(s)) == Some(s),
    decreases s.len(),
{
    if s.len() == 0 {
        assert(b64_decode_of(b64_of(s)) =~= Some(s));
    } else if s.len() == 1 {
        let a = s[0];
        lemma_enc1_tail(a);
        lemma_char_val(a >> 2);
        lemma_char_val((a & 3) << 4);
        assert(b64_decode_of(b64_of(s)).unwrap() =~= s);
    } else if s.len() == 2 {
        let (w, x, y, _) = enc3(s[0], s[1], 0);
        lemma_enc3_values(s[0], s[1], 0);
        lemma_char_val(w);
        lemma_char_val(x);
        lemma_char_val(y);
        assert(b64_decode_of(b64_of(s)).unwrap() =~= s);
    } else {
        let (w, x, y, z) = enc3(s[0], s[1], s[2]);
        lemma_enc3_values(s[0], s[1], s[2]);
        lemma_char_val(w);
        lemma_char_val(x);
        lemma_char_val(y);
        lemma_char_val(z);
        lemma_b64_roundtrip(s.skip(3));
        let t = b64_of(s);
        let head = seq![
            b64_char_of(w),
            b64_char_of(x),
            b64_char_of(y),
            b64_char_of(z),
        ];
        assert(t == head + b64_of(s.skip(3)));
        assert(t.len() >= 4);
        assert(t.skip(4) =~= b64_of(s.skip(3)));
        assert(b64_decode_of(t).unwrap() =~= s);
    }
}

/// A strictly decoded string is the encoding of its result.
pub proof fn lemma_b64_decode_sound(t: Seq<u8>)
    ensures
        b64_decode_of(t) matches Some(s) ==> t == b64_of(s),
    decreases t.len(),
{
    if b64_decode_of(t) is Some {
        let s = b64_decode_of(t).unwrap();
        if t.len() == 0 {
            assert(t =~= b64_of(s));
        } else if t.len() == 2 {
            let w = b64_val_of(t[0]).unwrap();
            let x = b64_val_of(t[1]).unwrap();
            lemma_val_char(t[0]);
            lemma_val_char(t[1]);
            lemma_dec2_tail(w, x);
            assert(t =~= b64_of(s));
        } else if t.len() == 3 {
            let w = b64_val_of(t[0]).unwrap();
            let x = b64_val_of(t[1]).unwrap();
            let y = b64_val_of(t[2]).unwrap();
            lemma_val_char(t[0]);
            lemma_val_char(t[1]);
            lemma_val_char(t[2]);
            lemma_dec3_tail(w, x, y);
            assert(t =~= b64_of(s));
        } else {
            let w = b64_val_of(t[0]).unwrap();
            let x = b64_val_of(t[1]).unwrap();
            let y = b64_val_of(t[2]).unwrap();
            let z = b64_val_of(t[3]).unwrap();
            lemma_val_char(t[0]);
            lemma_val_char(t[1]);
            lemma_val_char(t[2]);
            lemma_val_char(t[3]);
            lemma_dec4_values(w, x, y, z);
            lemma_b64_decode_sound(t.skip(4));
            let rest = b64_decode_of(t.skip(4)).unwrap();
            let (a, b, c) = dec4(w, x, y, z);
            assert(s == seq![a, b, c] + rest);
            assert(s.len() >= 3);
            assert(s.skip(3) =~= rest);
            assert(t =~= b64_of(s));
        }
    }
}

/// Encodings never contain a dot (so the token's segment structure is
/// unambiguous) and hold only ASCII.
pub proof fn lemma_b64_no_dot(s: Seq<u8>)
    ensures
        forall|i: int| 0 <= i < b64_of(s).len() ==> b64_of(s)[i] != 46 && b64_of(s)[i] < 128,
    decreases s.len(),
{
    if s.len() == 0 {
    } else if s.len() == 1 {
        lemma_enc1_tail(s[0]);
        lemma_char_val(s[0] >> 2);
        lemma_char_val((s[0] & 3) << 4);
    } else if s.len() == 2 {
        let (w, x, y, _) = enc3(s[0], s[1], 0);
        lemma_enc3_values(s[0], s[1], 0);
        lemma_char_val(w);
        lemma_char_val(x);
        lemma_char_val(y);
    } else {
        let (w, x, y, z) = enc3(s[0], s[1], s[2]);
        lemma_enc3_values(s[0], s[1], s[2]);
        lemma_char_val(w);
        lemma_char_val(x);
        lemma_char_val(y);
        lemma_char_val(z);
        lemma_b64_no_dot(s.skip(3));
        assert forall|i: int| 0 <= i < b64_of(s).len() implies b64_of(s)[i] != 46 && b64_of(s)[i]
            < 128 by {
            if i >= 4 {
                assert(b64_of(s)[i] == b64_of(s.skip(3))[i - 4]);
            }
        }
    }
}

fn b64_char(v: u8) -> (r: u8)
    requires
        v < 64,
    ensures
        r == b64_char_of(v),
{
    if v < 26 {
        65 + v
    } else if v < 52 {
        97 + (v - 26)
    } else if v < 62 {
        48 + (v - 52)
    } else if v == 62 {
        45
    } else {
        95
    }
}

fn b64_val(b: u8) -> (r: Option<u8>)
    ensures
        r == b64_val_of(b),
{
    if 65 <= b && b <= 90 {
        Some(b - 65)
    } else if 97 <= b && b <= 122 {
        Some(b - 97 + 26)
    } else if 48 <= b && b <= 57 {
        Some(b - 48 + 52)
    } else if b == 45 {
        Some(62)
    } else if b == 95 {
        Some(63)
    } else {
        None
    }
}

proof fn lemma_skip_skip<T>(s: Seq<T>, a: int, b: int)
    requires
        0 <= a,
        0 <= b,
        a + b <= s.len(),
    ensures
        s.skip(a).skip(b) =~= s.skip(a + b),
{
}

/// Encodes a byte vector as base64url without padding.
pub fn b64_encode(s: &Vec<u8>) -> (r: Vec<u8>)
    ensures
        r@ == b64_of(s@),
{
    let mut out: Vec<u8> = Vec::new();
    let mut i: usize = 0;
    proof {
        assert(s@.skip(0) =~= s@);
        assert(out@ + b64_of(s@) =~= b64_of(s@));
    }
    while s.len() - i >= 3
        invariant
            0 <= i <= s.len(),
            i % 3 == 0,
            b64_of(s@) == out@ + b64_of(s@.skip(i as int)),
        decreases s.len() - i,
    {
        let a = s[i];
        let b = s[i + 1];
        let c = s[i + 2];
        proof {
            lemma_enc3_values(a, b, c);
            lemma_skip_skip(s@, i as int, 3);
            assert(s@.skip(i as int)[0] == a && s@.skip(i as int)[1] == b && s@.skip(i as int)[2]
                == c);
        }
        let ghost prev = out@;
        out.push(b64_char(a >> 2));
        out.push(b64_char(((a & 3) << 4) | (b >> 4)));
        out.push(b64_char(((b & 15) << 2) | (c >> 6)));
        out.push(b64_char(c & 63));
        proof {
            let (w, x, y, z) = enc3(a, b, c);
            assert(out@ =~= prev + seq![
                b64_char_of(w),
                b64_char_of(x),
                b64_char_of(y),
                b64_char_of(z),
            ]);
            assert(b64_of(s@) =~= out@ + b64_of(s@.skip(i + 3)));
        }
        i += 3;
    }
    if s.len() - i == 1 {
        let a = s[i];
        proof {
            lemma_enc1_tail(a);
            assert(s@.skip(i as int)[0] == a);
            assert(s@.skip(i as int).len() == 1);
        }
        out.push(b64_char(a >> 2));
        out.push(b64_char((a & 3) << 4));
        proof {
            assert(out@ =~= b64_of(s@));
        }
    } else if s.len() - i == 2 {
        let a = s[i];
        let b = s[i + 1];
        proof {
            lemma_enc3_values(a, b, 0);
            assert(((b & 15) << 2) | (0u8 >> 6) == ((b & 15) << 2)) by (bit_vector);
            assert(s@.skip(i as int)[0] == a && s@.skip(i as int)[1] == b);
            assert(s@.skip(i as int).len() == 2);
        }
        out.push(b64_char(a >> 2));
        out.push(b64_char(((a & 3) << 4) | (b >> 4)));
        out.push(b64_char((b & 15) << 2));
        proof {
            let (w, x, y, _) = enc3(a, b, 0);
            assert(((b & 15) << 2) | (0u8 >> 6) == ((b & 15) << 2)) by (bit_vector);
            assert(out@ =~= b64_of(s@));
        }
    } else {
        proof {
            assert(s@.skip(i as int).len() == 0);
            assert(out@ =~= b64_of(s@));
        }
    }
    out
}

/// Strictly decodes base64url; returns None on anything the encoder would
/// not produce.
pub fn b64_decode(t: &Vec<u8>) -> (r: Option<Vec<u8>>)
    ensures
        r matches Some(v) ==> b64_decode_of(t@) == Some(v@),
        r is None ==> b64_decode_of(t@) is None,
{
    let mut out: Vec<u8> = Vec::new();
    let mut i: usize = 0;
    proof {
        assert(t@.skip(0) =~= t@);
        if b64_decode_of(t@) is Some {
            assert(out@ + b64_decode_of(t@).unwrap() =~= b64_decode_of(t@).unwrap());
        }
    }
    while t.len() - i >= 4
        invariant
            0 <= i <= t.len(),
            i % 4 == 0,
            b64_decode_of(t@) == (match b64_decode_of(t@.skip(i as int)) {
                Some(rest) => Some(out@ + rest),
                None => None,
            }),
        decreases t.len() - i,
    {
        proof {
            lemma_skip_skip(t@, i as int, 4);
            assert(t@.skip(i as int)[0] == t@[i as int] && t@.skip(i as int)[1] == t@[i + 1]
                && t@.skip(i as int)[2] == t@[i + 2] && t@.skip(i as int)[3] == t@[i + 3]);
        }
        let w = match b64_val(t[i]) {
            Some(v) => v,
            None => {
                return None;
            },
        };
        let x = match b64_val(t[i + 1]) {
            Some(v) => v,
            None => {
                return None;
            },
        };
        let y = match b64_val(t[i + 2]) {
            Some(v) => v,
            None => {
                return None;
            },
        };
        let z = match b64_val(t[i + 3]) {
            Some(v) => v,
            None => {
                return None;
            },
        };
        proof {
            lemma_val_char(t@[i as int]);
            lemma_val_char(t@[i + 1]);
            lemma_val_char(t@[i + 2]);
            lemma_val_char(t@[i + 3]);
        }
        let ghost prev = out@;
        out.push((w << 2) | (x >> 4));
        out.push((x << 4) | (y >> 2));
        out.push((y << 6) | z);
        proof {
            let (a, b, c) = dec4(w, x, y, z);
            assert(out@ =~= prev + seq![a, b, c]);
            if b64_decode_of(t@.skip(i + 4)) is Some {
                let rest = b64_decode_of(t@.skip(i + 4)).unwrap();
                assert(prev + (seq![a, b, c] + rest) =~= out@ + rest);
            }
        }
        i += 4;
    }
    if t.len() - i == 1 {
        proof {
            assert(t@.skip(i as int).len() == 1);
        }
        return None;
    } else if t.len() - i == 2 {
        proof {
            assert(t@.skip(i as int)[0] == t@[i as int] && t@.skip(i as int)[1] == t@[i + 1]);
            assert(t@.skip(i as int).len() == 2);
        }
        let w = match b64_val(t[i]) {
            Some(v) => v,
            None => {
                return None;
            },
        };
        let x = match b64_val(t[i + 1]) {
            Some(v) => v,
            None => {
                return None;
            },
        };
        if x & 15 != 0 {
            return None;
        }
        out.push((w << 2) | (x >> 4));
        proof {
            assert(b64_decode_of(t@.skip(i as int)) == Some(seq![(w << 2) | (x >> 4)]));
            assert(b64_decode_of(t@) == Some(out@));
        }
        Some(out)
    } else if t.len() - i == 3 {
        proof {
            assert(t@.skip(i as int)[0] == t@[i as int] && t@.skip(i as int)[1] == t@[i + 1]
                && t@.skip(i as int)[2] == t@[i + 2]);
            assert(t@.skip(i as int).len() == 3);
        }
        let w = match b64_val(t[i]) {
            Some(v) => v,
            None => {
                return None;
            },
        };
        let x = match b64_val(t[i + 1]) {
            Some(v) => v,
            None => {
                return None;
            },
        };
        let y = match b64_val(t[i + 2]) {
            Some(v) => v,
            None => {
                return None;
            },
        };
        if y & 3 != 0 {
            return None;
        }
        out.push((w << 2) | (x >> 4));
        out.push((x << 4) | (y >> 2));
        proof {
            let (a, b, _) = dec4(w, x, y, 0);
            assert(b64_decode_of(t@.skip(i as int)) == Some(seq![a, b]));
            assert(b64_decode_of(t@) == Some(out@));
        }
        Some(out)
    } else {
        proof {
            assert(t@.skip(i as int).len() == 0);
            assert(b64_decode_of(t@.skip(i as int)) == Some(Seq::<u8>::empty()));
            assert(out@ + Seq::<u8>::empty() =~= out@);
        }
        Some(out)
    }
}

} // verus!
