//! The Huffman code for strings in field sections (RFC 7541, Appendix B).
//!
//! The code is canonical: codes of one length are consecutive numbers, given to
//! their symbols in ascending order. It is therefore described by the first code
//! of each length and the symbols in the order of their codes.

use vstd::prelude::*;

verus! {

/// The longest code.
pub const MAX_CODE_LEN: usize = 30;

/// All symbols, in the order of their codes: shorter codes first, then by value.
pub open spec fn symbols() -> Seq<u8> {
    seq![
        48u8, 49, 50, 97, 99, 101, 105, 111, 115, 116, 32, 37,
        45, 46, 47, 51, 52, 53, 54, 55, 56, 57, 61, 65,
        95, 98, 100, 102, 103, 104, 108, 109, 110, 112, 114, 117,
        58, 66, 67, 68, 69, 70, 71, 72, 73, 74, 75, 76,
        77, 78, 79, 80, 81, 82, 83, 84, 85, 86, 87, 89,
        106, 107, 113, 118, 119, 120, 121, 122, 38, 42, 44, 59,
        88, 90, 33, 34, 40, 41, 63, 39, 43, 124, 35, 62,
        0, 36, 64, 91, 93, 126, 94, 125, 60, 96, 123, 92,
        195, 208, 128, 130, 131, 162, 184, 194, 224, 226, 153, 161,
        167, 172, 176, 177, 179, 209, 216, 217, 227, 229, 230, 129,
        132, 133, 134, 136, 146, 154, 156, 160, 163, 164, 169, 170,
        173, 178, 181, 185, 186, 187, 189, 190, 196, 198, 228, 232,
        233, 1, 135, 137, 138, 139, 140, 141, 143, 147, 149, 150,
        151, 152, 155, 157, 158, 165, 166, 168, 174, 175, 180, 182,
        183, 188, 191, 197, 231, 239, 9, 142, 144, 145, 148, 159,
        171, 206, 215, 225, 236, 237, 199, 207, 234, 235, 192, 193,
        200, 201, 202, 205, 210, 213, 218, 219, 238, 240, 242, 243,
        255, 203, 204, 211, 212, 214, 221, 222, 223, 241, 244, 245,
        246, 247, 248, 250, 251, 252, 253, 254, 2, 3, 4, 5,
        6, 7, 8, 11, 12, 14, 15, 16, 17, 18, 19, 20,
        21, 23, 24, 25, 26, 27, 28, 29, 30, 31, 127, 220,
        249, 10, 13, 22,
    ]
}

/// The first code of a length, how many codes of that length stand for a symbol,
/// and how many symbols have shorter ones.
pub open spec fn codes_of(len: nat) -> (int, int, int) {
    if len == 5 {
        (0x0, 10, 0)
    } else if len == 6 {
        (0x14, 26, 10)
    } else if len == 7 {
        (0x5c, 32, 36)
    } else if len == 8 {
        (0xf8, 6, 68)
    } else if len == 10 {
        (0x3f8, 5, 74)
    } else if len == 11 {
        (0x7fa, 3, 79)
    } else if len == 12 {
        (0xffa, 2, 82)
    } else if len == 13 {
        (0x1ff8, 6, 84)
    } else if len == 14 {
        (0x3ffc, 2, 90)
    } else if len == 15 {
        (0x7ffc, 3, 92)
    } else if len == 19 {
        (0x7fff0, 3, 95)
    } else if len == 20 {
        (0xfffe6, 8, 98)
    } else if len == 21 {
        (0x1fffdc, 13, 106)
    } else if len == 22 {
        (0x3fffd2, 26, 119)
    } else if len == 23 {
        (0x7fffd8, 29, 145)
    } else if len == 24 {
        (0xffffea, 12, 174)
    } else if len == 25 {
        (0x1ffffec, 4, 186)
    } else if len == 26 {
        (0x3ffffe0, 15, 190)
    } else if len == 27 {
        (0x7ffffde, 19, 205)
    } else if len == 28 {
        (0xfffffe2, 29, 224)
    } else if len == 30 {
        (0x3ffffffc, 3, 253)
    } else {
        (0, 0, 0)
    }
}

/// The symbol of a code of `len` bits.
pub open spec fn symbol_of(len: nat, code: int) -> Option<u8> {
    let (first, count, skipped) = codes_of(len);
    if first <= code < first + count {
        Some(symbols()[skipped + code - first])
    } else {
        None
    }
}

/// The bit at position `i` of some bytes, the most significant bit of each first.
pub open spec fn bit(s: Seq<u8>, i: int) -> int {
    let b = s[i / 8] as int;
    let k = i % 8;
    if k == 0 {
        b / 128
    } else if k == 1 {
        b / 64 % 2
    } else if k == 2 {
        b / 32 % 2
    } else if k == 3 {
        b / 16 % 2
    } else if k == 4 {
        b / 8 % 2
    } else if k == 5 {
        b / 4 % 2
    } else if k == 6 {
        b / 2 % 2
    } else {
        b % 2
    }
}

/// Two to the power of `n`.
pub open spec fn power(n: nat) -> int
    decreases n,
{
    if n == 0 {
        1
    } else {
        2 * power((n - 1) as nat)
    }
}

/// The symbols from bit `i` on, where the last `len` bits read, with the value
/// `code`, are the start of a symbol. At the end, fewer than eight bits that are
/// all ones may be left: the start of the code that marks the end of a string.
/// That code itself does not occur.
pub open spec fn symbols_from(s: Seq<u8>, i: int, len: nat, code: int) -> Option<Seq<u8>>
    decreases 8 * s.len() - i,
{
    if i < 0 || i >= 8 * s.len() {
        if len < 8 && code == power(len) - 1 {
            Some(Seq::empty())
        } else {
            None
        }
    } else {
        let next = 2 * code + bit(s, i);
        match symbol_of(len + 1, next) {
            Some(sym) => match symbols_from(s, i + 1, 0, 0) {
                Some(rest) => Some(seq![sym] + rest),
                None => None,
            },
            None => if len + 1 >= MAX_CODE_LEN {
                None
            } else {
                symbols_from(s, i + 1, len + 1, next)
            },
        }
    }
}

/// The string that some bytes stand for.
pub open spec fn huffman_decoded(s: Seq<u8>) -> Option<Seq<u8>> {
    symbols_from(s, 0, 0, 0)
}

/// All symbols, in the order of their codes.
fn symbol_table() -> (r: [u8; 256])
    ensures
        r@ == symbols(),
{
    let r = [
        48u8, 49, 50, 97, 99, 101, 105, 111, 115, 116, 32, 37,
        45, 46, 47, 51, 52, 53, 54, 55, 56, 57, 61, 65,
        95, 98, 100, 102, 103, 104, 108, 109, 110, 112, 114, 117,
        58, 66, 67, 68, 69, 70, 71, 72, 73, 74, 75, 76,
        77, 78, 79, 80, 81, 82, 83, 84, 85, 86, 87, 89,
        106, 107, 113, 118, 119, 120, 121, 122, 38, 42, 44, 59,
        88, 90, 33, 34, 40, 41, 63, 39, 43, 124, 35, 62,
        0, 36, 64, 91, 93, 126, 94, 125, 60, 96, 123, 92,
        195, 208, 128, 130, 131, 162, 184, 194, 224, 226, 153, 161,
        167, 172, 176, 177, 179, 209, 216, 217, 227, 229, 230, 129,
        132, 133, 134, 136, 146, 154, 156, 160, 163, 164, 169, 170,
        173, 178, 181, 185, 186, 187, 189, 190, 196, 198, 228, 232,
        233, 1, 135, 137, 138, 139, 140, 141, 143, 147, 149, 150,
        151, 152, 155, 157, 158, 165, 166, 168, 174, 175, 180, 182,
        183, 188, 191, 197, 231, 239, 9, 142, 144, 145, 148, 159,
        171, 206, 215, 225, 236, 237, 199, 207, 234, 235, 192, 193,
        200, 201, 202, 205, 210, 213, 218, 219, 238, 240, 242, 243,
        255, 203, 204, 211, 212, 214, 221, 222, 223, 241, 244, 245,
        246, 247, 248, 250, 251, 252, 253, 254, 2, 3, 4, 5,
        6, 7, 8, 11, 12, 14, 15, 16, 17, 18, 19, 20,
        21, 23, 24, 25, 26, 27, 28, 29, 30, 31, 127, 220,
        249, 10, 13, 22,
    ];
    assert(r@ =~= symbols());
    r
}

/// The codes of a length.
fn code_range(len: usize) -> (r: (u32, u32, usize))
    ensures
        (r.0 as int, r.1 as int, r.2 as int) == codes_of(len as nat),
        r.0 < 0x4000_0000,
        r.1 + r.2 <= 256,
{
    if len == 5 {
        (0x0, 10, 0)
    } else if len == 6 {
        (0x14, 26, 10)
    } else if len == 7 {
        (0x5c, 32, 36)
    } else if len == 8 {
        (0xf8, 6, 68)
    } else if len == 10 {
        (0x3f8, 5, 74)
    } else if len == 11 {
        (0x7fa, 3, 79)
    } else if len == 12 {
        (0xffa, 2, 82)
    } else if len == 13 {
        (0x1ff8, 6, 84)
    } else if len == 14 {
        (0x3ffc, 2, 90)
    } else if len == 15 {
        (0x7ffc, 3, 92)
    } else if len == 19 {
        (0x7fff0, 3, 95)
    } else if len == 20 {
        (0xfffe6, 8, 98)
    } else if len == 21 {
        (0x1fffdc, 13, 106)
    } else if len == 22 {
        (0x3fffd2, 26, 119)
    } else if len == 23 {
        (0x7fffd8, 29, 145)
    } else if len == 24 {
        (0xffffea, 12, 174)
    } else if len == 25 {
        (0x1ffffec, 4, 186)
    } else if len == 26 {
        (0x3ffffe0, 15, 190)
    } else if len == 27 {
        (0x7ffffde, 19, 205)
    } else if len == 28 {
        (0xfffffe2, 29, 224)
    } else if len == 30 {
        (0x3ffffffc, 3, 253)
    } else {
        (0, 0, 0)
    }
}

/// The bit at position `i` of a byte, the most significant first.
fn bit_of(b: u8, i: usize) -> (r: u32)
    requires
        i < 8,
    ensures
        r <= 1,
        forall|s: Seq<u8>, at: int|
            0 <= at && at / 8 < s.len() && s[at / 8] == b && at % 8 == i ==> #[trigger] bit(s, at)
                == r,
{
    let v: u32 = b as u32;
    if i == 0 {
        v / 128
    } else if i == 1 {
        v / 64 % 2
    } else if i == 2 {
        v / 32 % 2
    } else if i == 3 {
        v / 16 % 2
    } else if i == 4 {
        v / 8 % 2
    } else if i == 5 {
        v / 4 % 2
    } else if i == 6 {
        v / 2 % 2
    } else {
        v % 2
    }
}

/// The largest value of `len` bits.
fn all_ones(len: usize) -> (r: u32)
    requires
        len < 8,
    ensures
        r == power(len as nat) - 1,
{
    proof {
        reveal_with_fuel(power, 8);
    }
    if len == 0 {
        0
    } else if len == 1 {
        1
    } else if len == 2 {
        3
    } else if len == 3 {
        7
    } else if len == 4 {
        15
    } else if len == 5 {
        31
    } else if len == 6 {
        63
    } else {
        127
    }
}

/// The string that some bytes stand for; `None` if they are not a Huffman code.
pub fn huffman_decode(s: &[u8]) -> (r: Option<Vec<u8>>)
    ensures
        match huffman_decoded(s@) {
            Some(out) => r matches Some(v) && v@ == out,
            None => r is None,
        },
{
    let table = symbol_table();
    let total = s.len();
    let mut out: Vec<u8> = Vec::new();
    // The next bit: byte, and place in it.
    let mut at: usize = 0;
    let mut k: usize = 0;
    let mut len: usize = 0;
    let mut code: u32 = 0;
    let ghost want = huffman_decoded(s@);
    assert(want is Some ==> Seq::<u8>::empty() + want->0 =~= want->0);
    while at < total
        invariant
            total == s@.len(),
            at <= total,
            k < 8,
            at == total ==> k == 0,
            table@ == symbols(),
            len < MAX_CODE_LEN,
            code < power(len as nat),
            power(len as nat) <= 0x2000_0000,
            want == huffman_decoded(s@),
            want == (match symbols_from(s@, 8 * at + k, len as nat, code as int) {
                Some(rest) => Some(out@ + rest),
                None => None,
            }),
        decreases 8 * (total - at) - k,
    {
        let b = bit_of(s[at], k);
        let ghost i = 8 * at + k;
        assert(i / 8 == at && i % 8 == k);
        assert(bit(s@, i) == b);
        let next: u32 = 2 * code + b;
        let ghost before = out@;
        k = k + 1;
        if k == 8 {
            k = 0;
            at = at + 1;
        }
        len = len + 1;
        let (first, count, skipped) = code_range(len);
        if first <= next && next - first < count {
            let sym = table[skipped + (next - first) as usize];
            assert(symbol_of(len as nat, next as int) == Some(sym));
            out.push(sym);
            proof {
                match symbols_from(s@, i + 1, 0, 0) {
                    Some(rest) => {
                        assert(before + (seq![sym] + rest) =~= out@ + rest);
                    },
                    None => {},
                }
            }
            len = 0;
            code = 0;
        } else {
            if len >= MAX_CODE_LEN {
                return None;
            }
            proof {
                lemma_power(len as nat);
            }
            code = next;
        }
    }
    if len < 8 && code == all_ones(len) {
        assert(out@ + Seq::<u8>::empty() =~= out@);
        Some(out)
    } else {
        None
    }
}

proof fn lemma_power(n: nat)
    requires
        n < 30,
    ensures
        power(n) <= 0x2000_0000,
{
    reveal_with_fuel(power, 31);
}

} // verus!
