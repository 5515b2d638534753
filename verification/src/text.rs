//! Small verified building blocks for strings: decimal rendering of
//! integers, lowercase hex rendering of byte strings, and the
//! lexicographic byte order used to sort tree children by name.

use vstd::prelude::*;
use vstd::string::*;

verus! {

/// The decimal digit character for a value below ten.
pub open spec fn dec_digit(d: nat) -> char {
    if d == 0 {
        '0'
    } else if d == 1 {
        '1'
    } else if d == 2 {
        '2'
    } else if d == 3 {
        '3'
    } else if d == 4 {
        '4'
    } else if d == 5 {
        '5'
    } else if d == 6 {
        '6'
    } else if d == 7 {
        '7'
    } else if d == 8 {
        '8'
    } else {
        '9'
    }
}

/// The decimal rendering of a natural number, most significant digit first,
/// with no leading zeros (zero itself renders as "0").
pub open spec fn spec_dec(n: nat) -> Seq<char>
    decreases n,
{
    if n < 10 {
        seq![dec_digit(n)]
    } else {
        spec_dec(n / 10) + seq![dec_digit(n % 10)]
    }
}

fn digit_str(d: u64) -> (r: &'static str)
    requires
        d < 10,
    ensures
        r@ =~= seq![dec_digit(d as nat)],
{
    proof {
        reveal_strlit("0");
        reveal_strlit("1");
        reveal_strlit("2");
        reveal_strlit("3");
        reveal_strlit("4");
        reveal_strlit("5");
        reveal_strlit("6");
        reveal_strlit("7");
        reveal_strlit("8");
        reveal_strlit("9");
    }
    if d == 0 {
        "0"
    } else if d == 1 {
        "1"
    } else if d == 2 {
        "2"
    } else if d == 3 {
        "3"
    } else if d == 4 {
        "4"
    } else if d == 5 {
        "5"
    } else if d == 6 {
        "6"
    } else if d == 7 {
        "7"
    } else if d == 8 {
        "8"
    } else {
        "9"
    }
}

/// Renders a number in decimal, matching `spec_dec`.
pub fn u64_to_string(n: u64) -> (s: String)
    ensures
        s@ == spec_dec(n as nat),
    decreases n,
{
    if n < 10 {
        String::from_str(digit_str(n))
    } else {
        let mut s = u64_to_string(n / 10);
        s.append(digit_str(n % 10));
        s
    }
}

/// The lowercase hex digit character for a value below sixteen.
pub open spec fn hex_digit(d: nat) -> char {
    if d < 10 {
        dec_digit(d)
    } else if d == 10 {
        'a'
    } else if d == 11 {
        'b'
    } else if d == 12 {
        'c'
    } else if d == 13 {
        'd'
    } else if d == 14 {
        'e'
    } else {
        'f'
    }
}

/// The lowercase hex rendering of a byte string: two digits per byte,
/// high nibble first.
pub open spec fn hex_seq(bs: Seq<u8>) -> Seq<char> {
    Seq::new(
        2 * bs.len(),
        |i: int|
            if i % 2 == 0 {
                hex_digit((bs[i / 2] / 16) as nat)
            } else {
                hex_digit((bs[i / 2] % 16) as nat)
            },
    )
}

fn hex_digit_str(d: u8) -> (r: &'static str)
    requires
        d < 16,
    ensures
        r@ =~= seq![hex_digit(d as nat)],
{
    proof {
        reveal_strlit("a");
        reveal_strlit("b");
        reveal_strlit("c");
        reveal_strlit("d");
        reveal_strlit("e");
        reveal_strlit("f");
    }
    if d < 10 {
        digit_str(d as u64)
    } else if d == 10 {
        "a"
    } else if d == 11 {
        "b"
    } else if d == 12 {
        "c"
    } else if d == 13 {
        "d"
    } else if d == 14 {
        "e"
    } else {
        "f"
    }
}

/// Renders a byte string as lowercase hex, matching `hex_seq`.
pub fn to_hex(bytes: &Vec<u8>) -> (s: String)
    ensures
        s@ == hex_seq(bytes@),
{
    let mut s = String::new();
    let mut i: usize = 0;
    while i < bytes.len()
        invariant
            i <= bytes.len(),
            s@ =~= hex_seq(bytes@.subrange(0, i as int)),
        decreases bytes.len() - i,
    {
        let b = bytes[i];
        s.append(hex_digit_str(b / 16));
        s.append(hex_digit_str(b % 16));
        i = i + 1;
        proof {
            assert(s@ =~= hex_seq(bytes@.subrange(0, i as int)));
        }
    }
    proof {
        assert(bytes@.subrange(0, bytes@.len() as int) =~= bytes@);
    }
    s
}

/// A byte count scaled by a unit, in whole units and hundredths,
/// rounded half-up on the hundredth.
pub open spec fn spec_scaled(bytes: u64, div: u64) -> (nat, nat)
    recommends
        div >= 1,
{
    let w = bytes as nat / div as nat;
    let f = ((bytes as nat % div as nat) * 200 / div as nat + 1) / 2;
    if f == 100 {
        ((w + 1) as nat, 0)
    } else {
        (w, f)
    }
}

/// Two digits, zero-padded.
pub open spec fn pad2(f: nat) -> Seq<char> {
    if f < 10 {
        seq!['0'] + spec_dec(f)
    } else {
        spec_dec(f)
    }
}

pub open spec fn spec_scaled_chars(bytes: u64, div: u64) -> Seq<char> {
    spec_dec(spec_scaled(bytes, div).0) + seq!['.'] + pad2(spec_scaled(bytes, div).1)
}

/// The human-readable rendering of a byte count: two decimals of the
/// largest fitting binary unit, or plain bytes below one KB.
pub open spec fn spec_format_size(bytes: u64) -> Seq<char> {
    if bytes >= 0x40000000 {
        spec_scaled_chars(bytes, 0x40000000) + " GB"@
    } else if bytes >= 0x100000 {
        spec_scaled_chars(bytes, 0x100000) + " MB"@
    } else if bytes >= 1024 {
        spec_scaled_chars(bytes, 1024) + " KB"@
    } else {
        spec_dec(bytes as nat) + " B"@
    }
}

/// Renders a byte count scaled by one unit, e.g. `3.52`.
fn scaled_string(bytes: u64, div: u64) -> (s: String)
    requires
        1 <= div <= 0x40000000,
    ensures
        s@ == spec_scaled_chars(bytes, div),
{
    let mut w = bytes / div;
    let rem = bytes % div;
    let mut f = (rem * 200 / div + 1) / 2;
    if f == 100 {
        proof {
            // the fraction only rounds all the way up when something
            // remained, so the unit count is far from the maximum
            assert(rem > 0) by {
                if rem == 0 {
                    assert((0int * 200 / div as int + 1) / 2 == 0);
                }
            }
            assert(rem < div);
            assert(div >= 2);
            assert(w <= u64::MAX / 2) by (nonlinear_arith)
                requires
                    w == bytes / div,
                    div >= 2,
                    bytes <= u64::MAX,
            ;
        }
        w = w + 1;
        f = 0;
    }
    let mut s = u64_to_string(w);
    s.append(".");
    proof {
        reveal_strlit(".");
        reveal_strlit("0");
        assert("."@ =~= seq!['.']);
        assert("0"@ =~= seq!['0']);
    }
    if f < 10 {
        s.append("0");
    }
    s.append(u64_to_string(f).as_str());
    proof {
        assert(s@ =~= spec_scaled_chars(bytes, div));
    }
    s
}

/// Formats a byte count for humans, `3.52 GB` style.
pub fn format_size(bytes: u64) -> (s: String)
    ensures
        s@ == spec_format_size(bytes),
{
    if bytes >= 0x40000000 {
        let mut s = scaled_string(bytes, 0x40000000);
        s.append(" GB");
        s
    } else if bytes >= 0x100000 {
        let mut s = scaled_string(bytes, 0x100000);
        s.append(" MB");
        s
    } else if bytes >= 1024 {
        let mut s = scaled_string(bytes, 1024);
        s.append(" KB");
        s
    } else {
        let mut s = u64_to_string(bytes);
        s.append(" B");
        s
    }
}

/// Lexicographic order on byte strings: the order in which tree children
/// are kept, applied to the UTF-8 bytes of their names (for UTF-8, byte
/// order and scalar-value order agree).
pub open spec fn lex_leq(a: Seq<u8>, b: Seq<u8>) -> bool
    decreases a.len(),
{
    if a.len() == 0 {
        true
    } else if b.len() == 0 {
        false
    } else if a[0] != b[0] {
        a[0] < b[0]
    } else {
        lex_leq(a.drop_first(), b.drop_first())
    }
}

/// `lex_leq` is total: any two byte strings compare one way or the other.
pub proof fn lemma_lex_total(a: Seq<u8>, b: Seq<u8>)
    ensures
        lex_leq(a, b) || lex_leq(b, a),
    decreases a.len(),
{
    if a.len() != 0 && b.len() != 0 && a[0] == b[0] {
        lemma_lex_total(a.drop_first(), b.drop_first());
    }
}

/// `lex_leq` is reflexive.
pub proof fn lemma_lex_refl(a: Seq<u8>)
    ensures
        lex_leq(a, a),
    decreases a.len(),
{
    if a.len() != 0 {
        lemma_lex_refl(a.drop_first());
    }
}

/// `lex_leq` is transitive.
pub proof fn lemma_lex_trans(a: Seq<u8>, b: Seq<u8>, c: Seq<u8>)
    requires
        lex_leq(a, b),
        lex_leq(b, c),
    ensures
        lex_leq(a, c),
    decreases a.len(),
{
    if a.len() != 0 && b.len() != 0 && c.len() != 0 && a[0] == b[0] && b[0] == c[0] {
        lemma_lex_trans(a.drop_first(), b.drop_first(), c.drop_first());
    }
}

/// Compares two byte slices in the order `lex_leq`.
fn bytes_leq(a: &[u8], b: &[u8]) -> (r: bool)
    ensures
        r == lex_leq(a@, b@),
{
    let mut i: usize = 0;
    proof {
        assert(a@.skip(0) =~= a@);
        assert(b@.skip(0) =~= b@);
    }
    loop
        invariant
            i <= a@.len(),
            i <= b@.len(),
            lex_leq(a@, b@) == lex_leq(a@.skip(i as int), b@.skip(i as int)),
        decreases a@.len() - i,
    {
        if i == a.len() {
            proof {
                assert(a@.skip(i as int).len() == 0);
            }
            return true;
        }
        if i == b.len() {
            proof {
                assert(b@.skip(i as int).len() == 0);
                assert(a@.skip(i as int).len() != 0);
            }
            return false;
        }
        let x = a[i];
        let y = b[i];
        proof {
            assert(a@.skip(i as int)[0] == a@[i as int]);
            assert(b@.skip(i as int)[0] == b@[i as int]);
        }
        if x != y {
            return x < y;
        }
        proof {
            assert(a@.skip(i as int).drop_first() =~= a@.skip(i as int + 1));
            assert(b@.skip(i as int).drop_first() =~= b@.skip(i as int + 1));
        }
        i = i + 1;
    }
}

/// The UTF-8 bytes of a string's contents, the key by which names compare.
pub open spec fn utf8_bytes(s: Seq<char>) -> Seq<u8> {
    vstd::utf8::encode_utf8(s)
}

/// Compares two strings by the UTF-8 bytes of their contents, the order in
/// which tree children are sorted by name.
pub fn str_leq(a: &str, b: &str) -> (r: bool)
    ensures
        r == lex_leq(utf8_bytes(a@), utf8_bytes(b@)),
{
    bytes_leq(a.as_bytes(), b.as_bytes())
}

} // verus!
