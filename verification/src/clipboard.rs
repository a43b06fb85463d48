//! Clipboard payloads: base64, the terminal copy sequence and what is reported
//! about a copy.
use vstd::prelude::*;
use vstd::string::StringExecFns;
use crate::text::{owned, push_decimal};

verus! {

/// How a text was copied, and the file it was always written to.
#[derive(Debug, Clone)]
pub struct CopyOutcome {
    pub via_native: bool,
    pub via_osc52: bool,
    pub file_path: String,
}

/// The base64 character for a value below 64.
pub open spec fn base64_char(v: int) -> char {
    if v < 26 {
        ('A' as int + v) as char
    } else if v < 52 {
        ('a' as int + (v - 26)) as char
    } else if v < 62 {
        ('0' as int + (v - 52)) as char
    } else if v == 62 {
        '+'
    } else {
        '/'
    }
}

/// The four characters for up to three bytes; missing bytes are zero, and
/// their characters are padding.
pub open spec fn base64_quad(b: Seq<u8>) -> Seq<char> {
    let n = b[0] as int * 65536 + (if b.len() > 1 {
        b[1] as int
    } else {
        0
    }) * 256 + (if b.len() > 2 {
        b[2] as int
    } else {
        0
    });
    seq![
        base64_char(n / 262144),
        base64_char(n / 4096 % 64),
        if b.len() > 1 {
            base64_char(n / 64 % 64)
        } else {
            '='
        },
        if b.len() > 2 {
            base64_char(n % 64)
        } else {
            '='
        },
    ]
}

/// The base64 text of some bytes.
pub open spec fn base64_text(b: Seq<u8>) -> Seq<char>
    decreases b.len(),
{
    if b.len() == 0 {
        Seq::empty()
    } else if b.len() <= 3 {
        base64_quad(b)
    } else {
        base64_quad(b.take(3)) + base64_text(b.skip(3))
    }
}

/// The base64 character for a value below 64.
fn base64_digit(v: u32) -> (r: char)
    requires
        v < 64,
    ensures
        r == base64_char(v as int),
{
    if v < 26 {
        (65u8 + v as u8) as char
    } else if v < 52 {
        (97u8 + (v - 26) as u8) as char
    } else if v < 62 {
        (48u8 + (v - 52) as u8) as char
    } else if v == 62 {
        '+'
    } else {
        '/'
    }
}

/// Encodes bytes as base64 with padding.
pub fn base64_encode(input: &[u8]) -> (r: String)
    ensures
        r@ == base64_text(input@),
{
    let mut out: String = String::new();
    let len: usize = input.len();
    let mut i: usize = 0;
    assert(input@.skip(0) == input@);
    while i < len
        invariant
            i <= len == input@.len(),
            base64_text(input@) == out@ + base64_text(input@.skip(i as int)),
        decreases len - i,
    {
        let ghost rest = input@.skip(i as int);
        let ghost before = out@;
        let left: usize = len - i;
        let b0: u32 = input[i] as u32;
        let b1: u32 = if left > 1 {
            input[i + 1] as u32
        } else {
            0
        };
        let b2: u32 = if left > 2 {
            input[i + 2] as u32
        } else {
            0
        };
        let n: u32 = b0 * 65536 + b1 * 256 + b2;
        out.push(base64_digit(n / 262144));
        out.push(base64_digit(n / 4096 % 64));
        if left > 1 {
            out.push(base64_digit(n / 64 % 64));
        } else {
            out.push('=');
        }
        if left > 2 {
            out.push(base64_digit(n % 64));
        } else {
            out.push('=');
        }
        proof {
            let group = if left > 3 {
                rest.take(3)
            } else {
                rest
            };
            assert(group[0] == input@[i as int]);
            assert(out@ == before + base64_quad(group));
        }
        if left <= 3 {
            i = len;
        } else {
            assert(rest.skip(3) == input@.skip(i + 3));
            i += 3;
        }
    }
    assert(input@.skip(len as int) == Seq::<u8>::empty());
    out
}

proof fn lemma_base64_char(v: int, w: int)
    requires
        0 <= v < 64,
        0 <= w < 64,
    ensures
        base64_char(v) != '=',
        base64_char(v) == base64_char(w) ==> v == w,
{
}

/// The bytes of a group are told by its four six-bit values.
proof fn lemma_sixes(x: u8, y: u8, z: u8)
    ensures
        ({
            let n = x as int * 65536 + y as int * 256 + z as int;
            &&& 0 <= n / 262144 < 64
            &&& x == n / 262144 * 4 + n / 4096 % 64 / 16
            &&& y == n / 4096 % 64 % 16 * 16 + n / 64 % 64 / 4
            &&& z == n / 64 % 64 % 4 * 64 + n % 64
        }),
{
    let n: u32 = (x as u32 * 65536 + y as u32 * 256 + z as u32) as u32;
    assert(x as u32 * 65536 + y as u32 * 256 + z as u32 <= 0xff_ffff);
    assert(n / 262144 < 64 && x as u32 == n / 262144 * 4 + n / 4096 % 64 / 16 && y as u32 == n
        / 4096 % 64 % 16 * 16 + n / 64 % 64 / 4 && z as u32 == n / 64 % 64 % 4 * 64 + n % 64)
        by (bit_vector)
        requires
            n == x as u32 * 65536 + y as u32 * 256 + z as u32,
    ;
}

/// The byte at a position of a group; zero where there is none.
spec fn byte_or_zero(b: Seq<u8>, i: int) -> u8 {
    if i < b.len() {
        b[i]
    } else {
        0
    }
}

proof fn lemma_base64_quad(a: Seq<u8>, b: Seq<u8>)
    requires
        1 <= a.len() <= 3,
        1 <= b.len() <= 3,
        base64_quad(a) == base64_quad(b),
    ensures
        a == b,
{
    let (x, y, z) = (byte_or_zero(a, 0), byte_or_zero(a, 1), byte_or_zero(a, 2));
    let (u, v, w) = (byte_or_zero(b, 0), byte_or_zero(b, 1), byte_or_zero(b, 2));
    let m = x as int * 65536 + y as int * 256 + z as int;
    let n = u as int * 65536 + v as int * 256 + w as int;
    let qa = base64_quad(a);
    let qb = base64_quad(b);
    lemma_sixes(x, y, z);
    lemma_sixes(u, v, w);
    assert(qa[0] == base64_char(m / 262144) && qb[0] == base64_char(n / 262144));
    assert(qa[1] == base64_char(m / 4096 % 64) && qb[1] == base64_char(n / 4096 % 64));
    assert(qa[2] == qb[2] && qa[3] == qb[3]);
    lemma_base64_char(m / 262144, n / 262144);
    lemma_base64_char(m / 4096 % 64, n / 4096 % 64);
    lemma_base64_char(m / 64 % 64, n / 64 % 64);
    lemma_base64_char(n / 64 % 64, m / 64 % 64);
    lemma_base64_char(m % 64, n % 64);
    lemma_base64_char(n % 64, m % 64);
    assert((a.len() > 1) == (b.len() > 1)) by {
        assert(qa[2] == if a.len() > 1 {
            base64_char(m / 64 % 64)
        } else {
            '='
        });
        assert(qb[2] == if b.len() > 1 {
            base64_char(n / 64 % 64)
        } else {
            '='
        });
    }
    assert((a.len() > 2) == (b.len() > 2)) by {
        assert(qa[3] == if a.len() > 2 {
            base64_char(m % 64)
        } else {
            '='
        });
        assert(qb[3] == if b.len() > 2 {
            base64_char(n % 64)
        } else {
            '='
        });
    }
    assert(x == u);
    assert(a.len() > 1 ==> y == v);
    assert(a.len() > 2 ==> z == w);
}

proof fn lemma_base64_text_length(b: Seq<u8>)
    ensures
        base64_text(b).len() >= 4 * b.len() / 3,
        b.len() > 0 ==> base64_text(b).len() >= 4,
        b.len() > 3 ==> base64_text(b).len() > 4,
        b.len() <= 3 ==> base64_text(b).len() <= 4,
    decreases b.len(),
{
    if b.len() > 3 {
        lemma_base64_text_length(b.skip(3));
    }
}

/// Base64 loses nothing: different bytes have different texts.
pub proof fn base64_loses_nothing(a: Seq<u8>, b: Seq<u8>)
    requires
        base64_text(a) == base64_text(b),
    ensures
        a == b,
    decreases a.len(),
{
    lemma_base64_text_length(a);
    lemma_base64_text_length(b);
    if a.len() == 0 || b.len() == 0 {
        assert(a == b);
    } else if a.len() <= 3 {
        lemma_base64_quad(a, b);
    } else {
        let ta = base64_text(a);
        assert(base64_quad(a.take(3)) == ta.take(4));
        assert(base64_quad(b.take(3)) == ta.take(4));
        assert(base64_text(a.skip(3)) == ta.skip(4));
        assert(base64_text(b.skip(3)) == ta.skip(4));
        lemma_base64_quad(a.take(3), b.take(3));
        base64_loses_nothing(a.skip(3), b.skip(3));
        assert(a == a.take(3) + a.skip(3));
        assert(b == b.take(3) + b.skip(3));
    }
}

/// The terminal escape sequence that puts a text on the clipboard.
pub open spec fn osc52_text(text: Seq<char>) -> Seq<char> {
    seq!['\u{1b}'] + "]52;c;"@ + base64_text(vstd::utf8::encode_utf8(text)) + seq!['\u{7}']
}

/// The terminal escape sequence (OSC 52) that puts `text` on the clipboard.
pub fn osc52_sequence(text: &str) -> (r: String)
    ensures
        r@ == osc52_text(text@),
{
    let mut out: String = String::new();
    out.push('\u{1b}');
    out.append("]52;c;");
    out.append(base64_encode(text.as_bytes()).as_str());
    out.push('\u{7}');
    assert(out@ == osc52_text(text@));
    out
}

/// The name of the file that a copy made at `millis` is written to.
pub fn copy_file_name(millis: u128) -> (r: String)
    ensures
        r@ == "kernel-sequence-"@ + crate::text::decimal_text(millis as nat) + ".csv"@,
{
    let mut out = owned("kernel-sequence-");
    push_decimal(&mut out, millis);
    out.append(".csv");
    out
}

/// How a copy is reported.
pub open spec fn copy_report(via_native: bool, via_osc52: bool, path: Seq<char>) -> Seq<char> {
    (if via_native {
        "copied to clipboard"@
    } else if via_osc52 {
        "sent via OSC52"@
    } else {
        "clipboard unavailable"@
    }) + "; CSV also saved to "@ + path
}

/// The status line that reports a copy.
pub fn copy_message(outcome: &CopyOutcome) -> (r: String)
    ensures
        r@ == copy_report(outcome.via_native, outcome.via_osc52, outcome.file_path@),
{
    let mut out = if outcome.via_native {
        owned("copied to clipboard")
    } else if outcome.via_osc52 {
        owned("sent via OSC52")
    } else {
        owned("clipboard unavailable")
    };
    out.append("; CSV also saved to ");
    out.append(outcome.file_path.as_str());
    out
}

} // verus!
