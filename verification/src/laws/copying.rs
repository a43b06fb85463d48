//! What ends up on the clipboard.
use vstd::prelude::*;
use crate::clipboard;

verus! {

/// The value of a base64 character after RFC 4648.
pub open spec fn sextet(c: char) -> int {
    if 'A' <= c <= 'Z' {
        c as int - 'A' as int
    } else if 'a' <= c <= 'z' {
        c as int - 'a' as int + 26
    } else if '0' <= c <= '9' {
        c as int - '0' as int + 52
    } else if c == '+' {
        62
    } else if c == '/' {
        63
    } else {
        0
    }
}

/// The bytes that four base64 characters stand for.
pub open spec fn decoded_quad(s: Seq<char>) -> Seq<u8> {
    let n = sextet(s[0]) * 262144 + sextet(s[1]) * 4096 + sextet(s[2]) * 64 + sextet(s[3]);
    if s[2] == '=' {
        seq![(n / 65536) as u8]
    } else if s[3] == '=' {
        seq![(n / 65536) as u8, (n / 256 % 256) as u8]
    } else {
        seq![(n / 65536) as u8, (n / 256 % 256) as u8, (n % 256) as u8]
    }
}

/// The bytes that a base64 text stands for.
pub open spec fn decoded(s: Seq<char>) -> Seq<u8>
    decreases s.len(),
{
    if s.len() < 4 {
        Seq::empty()
    } else {
        decoded_quad(s.take(4)) + decoded(s.skip(4))
    }
}

proof fn lemma_sextet(v: int)
    requires
        0 <= v < 64,
    ensures
        sextet(clipboard::base64_char(v)) == v,
        clipboard::base64_char(v) != '=',
{
    if v < 26 {
        assert(('A' as int + v) as char as int == 'A' as int + v);
    } else if v < 52 {
        assert(('a' as int + (v - 26)) as char as int == 'a' as int + (v - 26));
    } else if v < 62 {
        assert(('0' as int + (v - 52)) as char as int == '0' as int + (v - 52));
    }
}

proof fn lemma_split(b0: int, b1: int, b2: int)
    requires
        0 <= b0 < 256,
        0 <= b1 < 256,
        0 <= b2 < 256,
    ensures
        ({
            let n = b0 * 65536 + b1 * 256 + b2;
            &&& 0 <= n / 262144 < 64
            &&& n / 65536 == b0
            &&& n / 256 % 256 == b1
            &&& n % 256 == b2
            &&& (n / 262144) * 262144 + (n / 4096 % 64) * 4096 + (n / 64 % 64) * 64 + n % 64 == n
            &&& b2 == 0 ==> n % 64 == 0
            &&& b1 == 0 && b2 == 0 ==> n / 64 % 64 == 0
        }),
{
    let n = b0 * 65536 + b1 * 256 + b2;
    assert(n / 65536 == b0);
    assert(n / 256 == b0 * 256 + b1);
    let m = n / 64;
    assert(m == b0 * 1024 + b1 * 4 + b2 / 64);
    let k = n / 4096;
    assert(k == m / 64);
    assert(n / 262144 == k / 64);
}

proof fn lemma_quad(b: Seq<u8>)
    requires
        1 <= b.len() <= 3,
    ensures
        clipboard::base64_quad(b).len() == 4,
        decoded_quad(clipboard::base64_quad(b)) == b,
{
    let b0 = b[0] as int;
    let b1 = if b.len() > 1 {
        b[1] as int
    } else {
        0
    };
    let b2 = if b.len() > 2 {
        b[2] as int
    } else {
        0
    };
    let n = b0 * 65536 + b1 * 256 + b2;
    lemma_sextet(n / 262144);
    lemma_sextet(n / 4096 % 64);
    lemma_sextet(n / 64 % 64);
    lemma_sextet(n % 64);
    lemma_split(b0, b1, b2);
    let q = clipboard::base64_quad(b);
    assert(q[0] == clipboard::base64_char(n / 262144));
    assert(q[1] == clipboard::base64_char(n / 4096 % 64));
    assert(decoded_quad(q) =~= b);
}

/// What was written in base64 is read back after RFC 4648.
pub proof fn base64_is_read_back(b: Seq<u8>)
    ensures
        decoded(clipboard::base64_text(b)) == b,
    decreases b.len(),
{
    let s = clipboard::base64_text(b);
    if b.len() == 0 {
    } else if b.len() <= 3 {
        lemma_quad(b);
        assert(s.take(4) == s);
        assert(decoded(s.skip(4)) == Seq::<u8>::empty());
        assert(b + Seq::<u8>::empty() == b);
    } else {
        lemma_quad(b.take(3));
        base64_is_read_back(b.skip(3));
        assert(s.take(4) == clipboard::base64_quad(b.take(3)));
        assert(s.skip(4) == clipboard::base64_text(b.skip(3)));
        assert(b.take(3) + b.skip(3) == b);
    }
}

} // verus!
