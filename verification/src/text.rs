//! Small helpers over byte text: ASCII literals as byte vectors, ASCII
//! lower-casing, and blanking of line breaks before text is embedded in a
//! line-oriented reply.

use vstd::prelude::*;

verus! {

broadcast use vstd::string::is_ascii_spec_bytes;

/// The bytes of an ASCII character sequence.
pub open spec fn ascii(s: Seq<char>) -> Seq<u8> {
    Seq::new(s.len(), |i: int| s[i] as u8)
}

/// Copies an ASCII string literal into a byte vector.
pub fn lit_bytes(s: &str) -> (r: Vec<u8>)
    requires
        vstd::string::is_ascii(s),
    ensures
        r@ == ascii(s@),
{
    let b = s.as_bytes();
    let r = vstd::slice::slice_to_vec(b);
    proof {
        assert(r@ =~= ascii(s@));
    }
    r
}

/// ASCII lower-casing of one byte.
pub open spec fn spec_lower_byte(b: u8) -> u8 {
    if 65 <= b && b <= 90 {
        (b + 32) as u8
    } else {
        b
    }
}

/// ASCII lower-casing of a byte sequence.
pub open spec fn spec_lower(s: Seq<u8>) -> Seq<u8> {
    Seq::new(s.len(), |i: int| spec_lower_byte(s[i]))
}

/// Returns a copy of `s` with every ASCII upper-case letter lowered.
pub fn to_lower(s: &Vec<u8>) -> (r: Vec<u8>)
    ensures
        r@ == spec_lower(s@),
{
    let mut out: Vec<u8> = Vec::new();
    let n = s.len();
    let mut i: usize = 0;
    while i < n
        invariant
            0 <= i <= n,
            n == s@.len(),
            out@.len() == i,
            forall|k: int| 0 <= k < i ==> out@[k] == spec_lower_byte(s@[k]),
        decreases n - i,
    {
        let b = s[i];
        if 65 <= b && b <= 90 {
            out.push(b + 32);
        } else {
            out.push(b);
        }
        i = i + 1;
    }
    proof {
        assert(out@ =~= spec_lower(s@));
    }
    out
}

/// Carriage returns and line feeds replaced by spaces.
pub open spec fn spec_blank_crlf(s: Seq<u8>) -> Seq<u8> {
    Seq::new(
        s.len(),
        |i: int|
            if s[i] == 13 || s[i] == 10 {
                32u8
            } else {
                s[i]
            },
    )
}

/// Returns a copy of `s` with carriage returns and line feeds replaced by
/// spaces, so the result can sit inside one protocol line.
pub fn blank_crlf(s: &Vec<u8>) -> (r: Vec<u8>)
    ensures
        r@ == spec_blank_crlf(s@),
{
    let mut out: Vec<u8> = Vec::new();
    let n = s.len();
    let mut i: usize = 0;
    while i < n
        invariant
            0 <= i <= n,
            n == s@.len(),
            out@.len() == i,
            forall|k: int|
                0 <= k < i ==> out@[k] == (if s@[k] == 13 || s@[k] == 10 {
                    32u8
                } else {
                    s@[k]
                }),
        decreases n - i,
    {
        let b = s[i];
        if b == 13 || b == 10 {
            out.push(32);
        } else {
            out.push(b);
        }
        i = i + 1;
    }
    proof {
        assert(out@ =~= spec_blank_crlf(s@));
    }
    out
}

/// Copies a byte vector.
pub fn clone_bytes(v: &Vec<u8>) -> (r: Vec<u8>)
    ensures
        r@ == v@,
{
    vstd::slice::slice_to_vec(v.as_slice())
}

/// The byte sequences of a sequence of byte vectors.
pub open spec fn bytes_seq(s: Seq<Vec<u8>>) -> Seq<Seq<u8>> {
    Seq::new(s.len(), |i: int| s[i]@)
}

/// Copies a vector of byte vectors.
pub fn clone_list(v: &Vec<Vec<u8>>) -> (r: Vec<Vec<u8>>)
    ensures
        bytes_seq(r@) == bytes_seq(v@),
        r@.len() == v@.len(),
{
    let mut out: Vec<Vec<u8>> = Vec::new();
    let n = v.len();
    let mut i: usize = 0;
    while i < n
        invariant
            0 <= i <= n,
            n == v@.len(),
            out@.len() == i,
            forall|k: int| 0 <= k < i ==> out@[k]@ == #[trigger] v@[k]@,
        decreases n - i,
    {
        out.push(clone_bytes(&v[i]));
        i = i + 1;
    }
    proof {
        assert(bytes_seq(out@) =~= bytes_seq(v@));
    }
    out
}

/// Appends all bytes of `src` to `out`.
pub fn append_bytes(out: &mut Vec<u8>, src: &Vec<u8>)
    ensures
        final(out)@ == old(out)@ + src@,
{
    let n = src.len();
    let mut i: usize = 0;
    while i < n
        invariant
            0 <= i <= n,
            n == src@.len(),
            out@ == old(out)@ + src@.take(i as int),
        decreases n - i,
    {
        out.push(src[i]);
        proof {
            assert(src@.take(i + 1) =~= src@.take(i as int).push(src@[i as int]));
        }
        i = i + 1;
    }
    proof {
        assert(src@.take(n as int) =~= src@);
    }
}

} // verus!
