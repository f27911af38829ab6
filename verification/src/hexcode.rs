//! Lower-case hexadecimal encoding and decoding, with full functional
//! specifications. Event ids, author keys and signatures travel on the wire
//! as hex strings; the store keeps them as raw bytes.
use vstd::prelude::*;

verus! {

/// The character standing for one nibble, lower case.
pub open spec fn hex_digit(n: u8) -> char
    recommends
        n < 16,
{
    if n == 0 {
        '0'
    } else if n == 1 {
        '1'
    } else if n == 2 {
        '2'
    } else if n == 3 {
        '3'
    } else if n == 4 {
        '4'
    } else if n == 5 {
        '5'
    } else if n == 6 {
        '6'
    } else if n == 7 {
        '7'
    } else if n == 8 {
        '8'
    } else if n == 9 {
        '9'
    } else if n == 10 {
        'a'
    } else if n == 11 {
        'b'
    } else if n == 12 {
        'c'
    } else if n == 13 {
        'd'
    } else if n == 14 {
        'e'
    } else {
        'f'
    }
}

pub open spec fn is_hex_digit(c: char) -> bool {
    (48 <= c as u32 && c as u32 <= 57) || (97 <= c as u32 && c as u32 <= 102) || (65 <= c as u32
        && c as u32 <= 70)
}

/// Numeric value of a hex digit; case-insensitive, 0 on other characters.
pub open spec fn nib_of(c: char) -> u8 {
    if 48 <= c as u32 && c as u32 <= 57 {
        (c as u32 - 48) as u8
    } else if 97 <= c as u32 && c as u32 <= 102 {
        (c as u32 - 87) as u8
    } else if 65 <= c as u32 && c as u32 <= 70 {
        (c as u32 - 55) as u8
    } else {
        0
    }
}

/// Lower-case hex encoding of a byte string, two digits per byte.
pub open spec fn hex_of(bs: Seq<u8>) -> Seq<char> {
    Seq::new(
        2 * bs.len(),
        |i: int|
            if i % 2 == 0 {
                hex_digit(bs[i / 2] / 16)
            } else {
                hex_digit(bs[i / 2] % 16)
            },
    )
}

/// The bytes a hex string stands for: each pair of digits one byte.
pub open spec fn hex_bytes(s: Seq<char>) -> Seq<u8> {
    Seq::new(s.len() / 2, |i: int| (16 * nib_of(s[2 * i]) + nib_of(s[2 * i + 1])) as u8)
}

pub open spec fn is_hex_seq(s: Seq<char>) -> bool {
    forall|i: int| 0 <= i < s.len() ==> is_hex_digit(s[i])
}

pub(crate) fn hex_digit_exec(n: u8) -> (c: char)
    requires
        n < 16,
    ensures
        c == hex_digit(n),
{
    match n {
        0 => '0',
        1 => '1',
        2 => '2',
        3 => '3',
        4 => '4',
        5 => '5',
        6 => '6',
        7 => '7',
        8 => '8',
        9 => '9',
        10 => 'a',
        11 => 'b',
        12 => 'c',
        13 => 'd',
        14 => 'e',
        _ => 'f',
    }
}

fn nib_exec(c: char) -> (r: Option<u8>)
    ensures
        r is Some <==> is_hex_digit(c),
        r is Some ==> r->0 == nib_of(c) && r->0 < 16,
{
    let v = c as u32;
    if 48 <= v && v <= 57 {
        Some((v - 48) as u8)
    } else if 97 <= v && v <= 102 {
        Some((v - 87) as u8)
    } else if 65 <= v && v <= 70 {
        Some((v - 55) as u8)
    } else {
        None
    }
}

/// Encode a byte string as lower-case hex characters.
pub fn encode_hex(bytes: &Vec<u8>) -> (r: Vec<char>)
    ensures
        r@ == hex_of(bytes@),
        r@.len() == 2 * bytes@.len(),
{
    let mut out: Vec<char> = Vec::new();
    let mut i: usize = 0;
    while i < bytes.len()
        invariant
            i <= bytes@.len(),
            out@.len() == 2 * i,
            forall|j: int| 0 <= j < out@.len() ==> out@[j] == hex_of(bytes@)[j],
        decreases bytes@.len() - i,
    {
        let b = bytes[i];
        out.push(hex_digit_exec(b / 16));
        out.push(hex_digit_exec(b % 16));
        i += 1;
    }
    proof {
        assert(out@ =~= hex_of(bytes@));
    }
    out
}

/// Decode a hex string; `None` exactly when the length is odd or some
/// character is not a hex digit. Upper and lower case are both accepted.
pub fn decode_hex(s: &Vec<char>) -> (r: Option<Vec<u8>>)
    ensures
        r is Some <==> (s@.len() % 2 == 0 && is_hex_seq(s@)),
        r is Some ==> r->0@ == hex_bytes(s@),
{
    if s.len() % 2 != 0 {
        return None;
    }
    let mut out: Vec<u8> = Vec::new();
    let mut i: usize = 0;
    while i < s.len()
        invariant
            s@.len() % 2 == 0,
            i % 2 == 0,
            i <= s@.len(),
            out@.len() == i / 2,
            forall|j: int| 0 <= j < i ==> is_hex_digit(s@[j]),
            forall|j: int| 0 <= j < out@.len() ==> out@[j] == hex_bytes(s@)[j],
        decreases s@.len() - i,
    {
        proof {
            assert(i + 1 < s@.len());
        }
        let hi = match nib_exec(s[i]) {
            Some(v) => v,
            None => {
                proof {
                    assert(!is_hex_digit(s@[i as int]));
                }
                return None;
            },
        };
        let lo = match nib_exec(s[i + 1]) {
            Some(v) => v,
            None => {
                proof {
                    assert(!is_hex_digit(s@[i + 1]));
                }
                return None;
            },
        };
        out.push(16 * hi + lo);
        i += 2;
    }
    proof {
        assert(out@ =~= hex_bytes(s@));
    }
    Some(out)
}

pub proof fn lemma_nib_hex_digit(n: u8)
    requires
        n < 16,
    ensures
        is_hex_digit(hex_digit(n)),
        nib_of(hex_digit(n)) == n,
{
}

/// Hex encoding and decoding are mutual inverses: decoding the encoding of
/// any byte string gives the bytes back.
pub proof fn lemma_hex_roundtrip(bs: Seq<u8>)
    ensures
        hex_of(bs).len() == 2 * bs.len(),
        is_hex_seq(hex_of(bs)),
        hex_bytes(hex_of(bs)) == bs,
{
    assert forall|i: int| 0 <= i < hex_of(bs).len() implies is_hex_digit(hex_of(bs)[i]) by {
        let b = bs[i / 2];
        lemma_nib_hex_digit(b / 16);
        lemma_nib_hex_digit(b % 16);
    }
    assert forall|i: int| 0 <= i < bs.len() implies hex_bytes(hex_of(bs))[i] == bs[i] by {
        let b = bs[i];
        lemma_nib_hex_digit(b / 16);
        lemma_nib_hex_digit(b % 16);
        assert(hex_of(bs)[2 * i] == hex_digit(b / 16));
        assert(hex_of(bs)[2 * i + 1] == hex_digit(b % 16));
    }
    assert(hex_bytes(hex_of(bs)) =~= bs);
}

} // verus!
