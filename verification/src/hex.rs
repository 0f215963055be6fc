//! Hexadecimal decoding of the test-vector fields: two characters per byte, each pair
//! read as `u8::from_str_radix(pair, 16)` reads it.
use vstd::prelude::*;
use vstd::string::StringSliceAdditionalSpecFns;

verus! {

/// The value of one hexadecimal digit (`0-9`, `a-f`, `A-F`).
pub open spec fn hex_digit(c: u8) -> Option<u8> {
    if 48 <= c <= 57 {
        Some((c - 48) as u8)
    } else if 97 <= c <= 102 {
        Some((c - 87) as u8)
    } else if 65 <= c <= 70 {
        Some((c - 55) as u8)
    } else {
        None
    }
}

/// The byte a two-character pair denotes: two digits, or `+` and one digit.
pub open spec fn hex_pair(c0: u8, c1: u8) -> Option<u8> {
    match (hex_digit(c0), hex_digit(c1)) {
        (Some(hi), Some(lo)) => Some((hi * 16 + lo) as u8),
        (None, Some(lo)) => if c0 == 43 {
            Some(lo)
        } else {
            None
        },
        _ => None,
    }
}

/// The bytes that the hexadecimal text `s` denotes, or `None` if it is malformed.
pub open spec fn hex_decode(s: Seq<u8>) -> Option<Seq<u8>>
    decreases s.len(),
{
    if s.len() == 0 {
        Some(Seq::empty())
    } else if s.len() == 1 {
        None
    } else {
        match (hex_pair(s[0], s[1]), hex_decode(s.subrange(2, s.len() as int))) {
            (Some(b), Some(rest)) => Some(seq![b] + rest),
            _ => None,
        }
    }
}

/// One hexadecimal digit.
fn digit(c: u8) -> (r: Option<u8>)
    ensures
        r == hex_digit(c),
{
    if 48 <= c && c <= 57 {
        Some(c - 48)
    } else if 97 <= c && c <= 102 {
        Some(c - 87)
    } else if 65 <= c && c <= 70 {
        Some(c - 55)
    } else {
        None
    }
}

/// The byte a two-character pair denotes.
fn pair(c0: u8, c1: u8) -> (r: Option<u8>)
    ensures
        r == hex_pair(c0, c1),
{
    match (digit(c0), digit(c1)) {
        (Some(hi), Some(lo)) => Some(hi * 16 + lo),
        (None, Some(lo)) => if c0 == 43 {
            Some(lo)
        } else {
            None
        },
        _ => None,
    }
}

/// Decoding from position `i` on.
proof fn lemma_hex_decode_suffix(s: Seq<u8>, i: int, b: u8)
    requires
        0 <= i,
        i + 2 <= s.len(),
        hex_pair(s[i], s[i + 1]) == Some(b),
    ensures
        hex_decode(s.subrange(i, s.len() as int)) == match hex_decode(
            s.subrange(i + 2, s.len() as int),
        ) {
            Some(rest) => Some(seq![b] + rest),
            None => None::<Seq<u8>>,
        },
{
    let t = s.subrange(i, s.len() as int);
    assert(t.subrange(2, t.len() as int) =~= s.subrange(i + 2, s.len() as int));
}

/// Decode hexadecimal text into bytes; `None` if the text is malformed.
pub fn hex_to_bytes(s: &str) -> (r: Option<Vec<u8>>)
    ensures
        match r {
            Some(v) => hex_decode(s.spec_bytes()) == Some(v@),
            None => hex_decode(s.spec_bytes()) is None,
        },
{
    let b = s.as_bytes();
    let n = b.len();
    let ghost sb = b@;
    let mut out: Vec<u8> = Vec::new();
    let mut i: usize = 0;
    proof {
        assert(sb.subrange(0, n as int) =~= sb);
        match hex_decode(sb) {
            Some(rest) => {
                assert(out@ + rest =~= rest);
            },
            None => {},
        }
    }
    while n - i >= 2
        invariant
            n == b@.len(),
            sb == b@,
            sb == s.spec_bytes(),
            i <= n,
            hex_decode(sb) == match hex_decode(sb.subrange(i as int, n as int)) {
                Some(rest) => Some(out@ + rest),
                None => None::<Seq<u8>>,
            },
        decreases n - i,
    {
        match pair(b[i], b[i + 1]) {
            Some(v) => {
                proof {
                    lemma_hex_decode_suffix(sb, i as int, v);
                    match hex_decode(sb.subrange(i + 2, n as int)) {
                        Some(rest) => {
                            assert(out@ + (seq![v] + rest) =~= out@.push(v) + rest);
                        },
                        None => {},
                    }
                }
                out.push(v);
                i += 2;
            },
            None => {
                proof {
                    let t = sb.subrange(i as int, n as int);
                    assert(t[0] == sb[i as int] && t[1] == sb[i + 1]);
                    assert(hex_decode(t) is None);
                    assert(sb == s.spec_bytes());
                }
                return None;
            },
        }
    }
    if i < n {
        proof {
            assert(sb.subrange(i as int, n as int).len() == 1);
            assert(sb == s.spec_bytes());
        }
        return None;
    }
    proof {
        assert(sb.subrange(i as int, n as int) =~= Seq::<u8>::empty());
        assert(out@ + Seq::<u8>::empty() =~= out@);
    }
    Some(out)
}

} // verus!
