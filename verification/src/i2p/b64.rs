//! I2P's base64: RFC 4648 with `-` and `~` in place of `+` and `/`, padded with `=`.

use vstd::prelude::*;
use crate::text::{chars_to_string, same_text, str_chars};
use crate::kad::codec::{get_u32_le, le32};

verus! {

pub open spec fn b64_char(v: int) -> char {
    if v < 26 {
        ((65 + v) as u8) as char
    } else if v < 52 {
        ((97 + v - 26) as u8) as char
    } else if v < 62 {
        ((48 + v - 52) as u8) as char
    } else if v == 62 {
        '-'
    } else {
        '~'
    }
}

/// Four characters for three bytes.
pub open spec fn b64_group(a: u8, b: u8, c: u8) -> Seq<char> {
    seq![
        b64_char((a / 4) as int),
        b64_char((a % 4) * 16 + b / 16),
        b64_char((b % 16) * 4 + c / 64),
        b64_char((c % 64) as int),
    ]
}

pub open spec fn b64_spec(d: Seq<u8>) -> Seq<char>
    decreases d.len(),
{
    if d.len() == 0 {
        Seq::empty()
    } else if d.len() == 1 {
        seq![b64_char((d[0] / 4) as int), b64_char((d[0] % 4) * 16), '=', '=']
    } else if d.len() == 2 {
        seq![b64_char((d[0] / 4) as int), b64_char((d[0] % 4) * 16 + d[1] / 16), b64_char((d[1] % 16) * 4), '=']
    } else {
        b64_group(d[0], d[1], d[2]) + b64_spec(d.subrange(3, d.len() as int))
    }
}

fn b64_char_exec(v: u8) -> (c: char)
    requires
        v < 64,
    ensures
        c == b64_char(v as int),
{
    if v < 26 {
        (65 + v) as char
    } else if v < 52 {
        (97 + v - 26) as char
    } else if v < 62 {
        (48 + v - 52) as char
    } else if v == 62 {
        '-'
    } else {
        '~'
    }
}

/// Encodes bytes in I2P base64.
pub fn encode(data: &[u8]) -> (s: String)
    ensures
        s@ == b64_spec(data@),
{
    let n = data.len();
    let mut out: Vec<char> = Vec::new();
    let mut i: usize = 0;
    assert(data@.subrange(0, n as int) =~= data@);
    assert(out@ + b64_spec(data@) =~= b64_spec(data@));
    while 3 <= n - i
        invariant
            i <= n,
            n == data@.len(),
            out@ + b64_spec(data@.subrange(i as int, n as int)) == b64_spec(data@),
        decreases n - i,
    {
        let a = data[i];
        let b = data[i + 1];
        let c = data[i + 2];
        proof {
            let rest = data@.subrange(i as int, n as int);
            assert(rest.subrange(3, rest.len() as int) =~= data@.subrange(i + 3, n as int));
        }
        out.push(b64_char_exec(a / 4));
        out.push(b64_char_exec((a % 4) * 16 + b / 16));
        out.push(b64_char_exec((b % 16) * 4 + c / 64));
        out.push(b64_char_exec(c % 64));
        i += 3;
    }
    if n - i == 1 {
        let a = data[i];
        out.push(b64_char_exec(a / 4));
        out.push(b64_char_exec((a % 4) * 16));
        out.push('=');
        out.push('=');
    } else if n - i == 2 {
        let a = data[i];
        let b = data[i + 1];
        out.push(b64_char_exec(a / 4));
        out.push(b64_char_exec((a % 4) * 16 + b / 16));
        out.push(b64_char_exec((b % 16) * 4));
        out.push('=');
    }
    proof {
        let rest = data@.subrange(i as int, n as int);
        if n - i == 0 {
            assert(out@ + b64_spec(rest) =~= out@);
        }
    }
    assert(out@ =~= b64_spec(data@));
    chars_to_string(&out)
}


/// The six-bit value of a character of the alphabet.
pub open spec fn b64_value(c: char) -> Option<u8> {
    let x = c as u32;
    if 65 <= x <= 90 {
        Some((x - 65) as u8)
    } else if 97 <= x <= 122 {
        Some((x - 71) as u8)
    } else if 48 <= x <= 57 {
        Some((x + 4) as u8)
    } else if c == '-' {
        Some(62u8)
    } else if c == '~' {
        Some(63u8)
    } else {
        None
    }
}

/// Decoding four characters at a time; `=` pads only the last group, and
/// bits beyond the last byte are not looked at.
pub open spec fn decode_groups(s: Seq<char>) -> Option<Seq<u8>>
    decreases s.len(),
{
    if s.len() == 0 {
        Some(Seq::empty())
    } else if s.len() < 4 {
        None
    } else {
        let rest = s.subrange(4, s.len() as int);
        match (b64_value(s[0]), b64_value(s[1])) {
            (Some(v0), Some(v1)) => {
                let a = (v0 * 4 + v1 / 16) as u8;
                if s[2] == '=' && s[3] == '=' && rest.len() == 0 {
                    Some(seq![a])
                } else {
                    match b64_value(s[2]) {
                        Some(v2) => {
                            let b = ((v1 % 16) * 16 + v2 / 4) as u8;
                            if s[3] == '=' && rest.len() == 0 {
                                Some(seq![a, b])
                            } else {
                                match b64_value(s[3]) {
                                    Some(v3) => {
                                        let c = ((v2 % 4) * 64 + v3) as u8;
                                        match decode_groups(rest) {
                                            Some(r) => Some(seq![a, b, c] + r),
                                            None => None,
                                        }
                                    },
                                    None => None,
                                }
                            }
                        },
                        None => None,
                    }
                }
            },
            _ => None,
        }
    }
}

proof fn lemma_value_of_char(v: int)
    requires
        0 <= v < 64,
    ensures
        b64_value(b64_char(v)) == Some(v as u8),
        b64_char(v) != '=',
{
}

proof fn lemma_group_roundtrip(a: u8, b: u8, c: u8)
    ensures
        ((a / 4) * 4 + ((a % 4) * 16 + b / 16) / 16) as u8 == a,
        ((((a % 4) * 16 + b / 16) % 16) * 16 + ((b % 16) * 4 + c / 64) / 4) as u8 == b,
        ((((b % 16) * 4 + c / 64) % 4) * 64 + c % 64) as u8 == c,
        ((a / 4) * 4 + ((a % 4) * 16) / 16) as u8 == a,
        ((((a % 4) * 16 + b / 16) % 16) * 16 + ((b % 16) * 4) / 4) as u8 == b,
{
}

/// Decoding what `b64_spec` encodes gives the bytes back.
pub proof fn law_b64_roundtrip(d: Seq<u8>)
    ensures
        decode_groups(b64_spec(d)) == Some(d),
    decreases d.len(),
{
    let s = b64_spec(d);
    if d.len() == 0 {
    } else if d.len() == 1 {
        let a = d[0];
        lemma_value_of_char((a / 4) as int);
        lemma_value_of_char(((a % 4) * 16) as int);
        lemma_group_roundtrip(a, 0, 0);
        assert(s.subrange(4, s.len() as int) =~= Seq::<char>::empty());
        assert(seq![a] =~= d);
    } else if d.len() == 2 {
        let a = d[0];
        let b = d[1];
        lemma_value_of_char((a / 4) as int);
        lemma_value_of_char(((a % 4) * 16 + b / 16) as int);
        lemma_value_of_char(((b % 16) * 4) as int);
        lemma_group_roundtrip(a, b, 0);
        assert(s.subrange(4, s.len() as int) =~= Seq::<char>::empty());
        assert(seq![a, b] =~= d);
    } else {
        let a = d[0];
        let b = d[1];
        let c = d[2];
        let tail = d.subrange(3, d.len() as int);
        law_b64_roundtrip(tail);
        lemma_value_of_char((a / 4) as int);
        lemma_value_of_char(((a % 4) * 16 + b / 16) as int);
        lemma_value_of_char(((b % 16) * 4 + c / 64) as int);
        lemma_value_of_char((c % 64) as int);
        lemma_group_roundtrip(a, b, c);
        let g = b64_group(a, b, c);
        assert(s =~= g + b64_spec(tail));
        assert(s.subrange(4, s.len() as int) =~= b64_spec(tail));
        if tail.len() == 0 {
            assert(b64_spec(tail) =~= Seq::<char>::empty());
        } else {
            assert(b64_spec(tail).len() > 0);
        }
        assert(seq![a, b, c] + tail =~= d);
    }
}

fn b64_value_exec(c: char) -> (r: Option<u8>)
    ensures
        r == b64_value(c),
{
    let x = c as u32;
    if 65 <= x && x <= 90 {
        Some((x - 65) as u8)
    } else if 97 <= x && x <= 122 {
        Some((x - 71) as u8)
    } else if 48 <= x && x <= 57 {
        Some((x + 4) as u8)
    } else if c == '-' {
        Some(62)
    } else if c == '~' {
        Some(63)
    } else {
        None
    }
}

fn decode_lenient(cs: &Vec<char>) -> (r: Option<Vec<u8>>)
    ensures
        match r {
            Some(d) => decode_groups(cs@) == Some(d@),
            None => decode_groups(cs@) is None,
        },
{
    let n = cs.len();
    let mut out: Vec<u8> = Vec::new();
    let mut i: usize = 0;
    assert(cs@.subrange(0, n as int) =~= cs@);
    while i < n
        invariant
            i <= n,
            n == cs@.len(),
            decode_groups(cs@) == match decode_groups(cs@.subrange(i as int, n as int)) {
                Some(r) => Some(out@ + r),
                None => None::<Seq<u8>>,
            },
        decreases n - i,
    {
        let ghost s = cs@.subrange(i as int, n as int);
        if n - i < 4 {
            return None;
        }
        proof {
            assert(s[0] == cs@[i as int] && s[1] == cs@[i + 1] && s[2] == cs@[i + 2] && s[3] == cs@[i + 3]);
            assert(s.subrange(4, s.len() as int) =~= cs@.subrange(i + 4, n as int));
        }
        let v0 = match b64_value_exec(cs[i]) { Some(v) => v, None => { return None; } };
        let v1 = match b64_value_exec(cs[i + 1]) { Some(v) => v, None => { return None; } };
        let a: u8 = ((v0 as u32) * 4 + (v1 as u32) / 16) as u8;
        let last = i + 4 == n;
        if cs[i + 2] == '=' && cs[i + 3] == '=' && last {
            out.push(a);
            proof {
                assert(out@ + Seq::<u8>::empty() =~= out@);
            }
            assert(cs@.subrange(n as int, n as int) =~= Seq::<char>::empty());
            return Some(out);
        }
        let v2 = match b64_value_exec(cs[i + 2]) { Some(v) => v, None => { return None; } };
        let b: u8 = (((v1 as u32) % 16) * 16 + (v2 as u32) / 4) as u8;
        if cs[i + 3] == '=' && last {
            let ghost before = out@;
            out.push(a);
            out.push(b);
            assert(out@ =~= before + seq![a, b]);
            return Some(out);
        }
        let v3 = match b64_value_exec(cs[i + 3]) { Some(v) => v, None => { return None; } };
        let c: u8 = (((v2 as u32) % 4) * 64 + (v3 as u32)) as u8;
        let ghost before = out@;
        out.push(a);
        out.push(b);
        out.push(c);
        proof {
            assert(out@ =~= before + seq![a, b, c]);
            match decode_groups(cs@.subrange(i + 4, n as int)) {
                Some(r) => {
                    assert(before + (seq![a, b, c] + r) =~= out@ + r);
                },
                None => {},
            }
        }
        i += 4;
    }
    assert(cs@.subrange(n as int, n as int) =~= Seq::<char>::empty());
    assert(out@ + Seq::<u8>::empty() =~= out@);
    Some(out)
}

/// Decodes I2P base64: the bytes whose encoding is `s`, if any.
pub fn decode(s: &str) -> (r: Option<Vec<u8>>)
    ensures
        match r {
            Some(d) => b64_spec(d@) == s@,
            None => forall|d: Seq<u8>| b64_spec(d) != s@,
        },
{
    let cs = str_chars(s);
    match decode_lenient(&cs) {
        Some(d) => {
            let e = encode(d.as_slice());
            if same_text(e.as_str(), s) {
                Some(d)
            } else {
                proof {
                    assert forall|x: Seq<u8>| b64_spec(x) != s@ by {
                        if b64_spec(x) == s@ {
                            law_b64_roundtrip(x);
                        }
                    }
                }
                None
            }
        },
        None => {
            proof {
                assert forall|x: Seq<u8>| b64_spec(x) != s@ by {
                    if b64_spec(x) == s@ {
                        law_b64_roundtrip(x);
                    }
                }
            }
            None
        },
    }
}

/// The hash code of a destination given in base64: the first four bytes of
/// the destination, little-endian; zero when it does not decode to four bytes.
pub open spec fn dest_hash_spec(s: Seq<char>) -> u32 {
    if exists|d: Seq<u8>| b64_spec(d) == s && d.len() >= 4 {
        le32(choose|d: Seq<u8>| b64_spec(d) == s && d.len() >= 4, 0) as u32
    } else {
        0
    }
}

pub fn dest_hash_code(dest_b64: &str) -> (h: u32)
    ensures
        h == dest_hash_spec(dest_b64@),
{
    match decode(dest_b64) {
        Some(d) => {
            if d.len() >= 4 {
                proof {
                    let c = choose|x: Seq<u8>| b64_spec(x) == dest_b64@ && x.len() >= 4;
                    law_b64_roundtrip(c);
                    law_b64_roundtrip(d@);
                    assert(c == d@);
                }
                get_u32_le(d.as_slice(), 0)
            } else {
                proof {
                    assert forall|x: Seq<u8>| b64_spec(x) == dest_b64@ implies x.len() < 4 by {
                        law_b64_roundtrip(x);
                        law_b64_roundtrip(d@);
                    }
                }
                0
            }
        },
        None => 0,
    }
}

/// The alphabet is RFC 4648's with `-` and `~` for 62 and 63: the capital
/// letters from `A`, the small letters from `a` and the digits from `0`,
/// each in alphabetical order, and decoding gives back each value.
pub proof fn law_b64_alphabet()
    ensures
        b64_char(0) == 'A',
        b64_char(26) == 'a',
        b64_char(52) == '0',
        b64_char(62) == '-',
        b64_char(63) == '~',
        forall|v: int| 0 <= v < 61 && v != 25 && v != 51
            ==> (#[trigger] b64_char(v + 1)) as u32 == (b64_char(v) as u32) + 1,
        forall|v: int| 0 <= v < 64 ==> b64_value(#[trigger] b64_char(v)) == Some(v as u8),
{
    assert forall|v: int| 0 <= v < 61 && v != 25 && v != 51
        implies (#[trigger] b64_char(v + 1)) as u32 == (b64_char(v) as u32) + 1 by {
        if v < 25 {
            assert(b64_char(v) == ((65 + v) as u8) as char);
            assert(b64_char(v + 1) == ((65 + (v + 1)) as u8) as char);
            assert(((65 + v) as u8) as char as u32 == 65 + v);
            assert(((65 + (v + 1)) as u8) as char as u32 == 66 + v);
        } else if v < 51 {
            assert(b64_char(v) == ((97 + v - 26) as u8) as char);
            assert(b64_char(v + 1) == ((97 + (v + 1) - 26) as u8) as char);
            assert(((97 + v - 26) as u8) as char as u32 == 97 + v - 26);
            assert(((97 + (v + 1) - 26) as u8) as char as u32 == 98 + v - 26);
        } else {
            assert(b64_char(v) == ((48 + v - 52) as u8) as char);
            assert(b64_char(v + 1) == ((48 + (v + 1) - 52) as u8) as char);
            assert(((48 + v - 52) as u8) as char as u32 == 48 + v - 52);
            assert(((48 + (v + 1) - 52) as u8) as char as u32 == 49 + v - 52);
        }
    }
    assert forall|v: int| 0 <= v < 64 implies b64_value(#[trigger] b64_char(v)) == Some(v as u8) by {
    }
}

} // verus!
