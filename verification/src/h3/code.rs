//! What the Huffman code is: the canonical code for the lengths of its codes.

use vstd::prelude::*;

use crate::h3::huffman;

verus! {

/// The first code of a length in a canonical code: codes of one length are
/// consecutive, and the next longer one starts behind them with a zero appended.
pub open spec fn first_code(len: nat) -> int
    decreases len,
{
    if len == 0 {
        0
    } else {
        2 * (first_code((len - 1) as nat) + huffman::codes_of((len - 1) as nat).1)
    }
}

/// How many symbols have codes shorter than `len`.
pub open spec fn shorter(len: nat) -> int
    decreases len,
{
    if len == 0 {
        0
    } else {
        shorter((len - 1) as nat) + huffman::codes_of((len - 1) as nat).1
    }
}

/// The first codes and the counts, length by length.
proof fn lemma_first_codes()
    ensures
        first_code(0) == 0x0 && shorter(0) == 0,
        first_code(1) == 0x0 && shorter(1) == 0,
        first_code(2) == 0x0 && shorter(2) == 0,
        first_code(3) == 0x0 && shorter(3) == 0,
        first_code(4) == 0x0 && shorter(4) == 0,
        first_code(5) == 0x0 && shorter(5) == 0,
        first_code(6) == 0x14 && shorter(6) == 10,
        first_code(7) == 0x5c && shorter(7) == 36,
        first_code(8) == 0xf8 && shorter(8) == 68,
        first_code(9) == 0x1fc && shorter(9) == 74,
        first_code(10) == 0x3f8 && shorter(10) == 74,
        first_code(11) == 0x7fa && shorter(11) == 79,
        first_code(12) == 0xffa && shorter(12) == 82,
        first_code(13) == 0x1ff8 && shorter(13) == 84,
        first_code(14) == 0x3ffc && shorter(14) == 90,
        first_code(15) == 0x7ffc && shorter(15) == 92,
        first_code(16) == 0xfffe && shorter(16) == 95,
        first_code(17) == 0x1fffc && shorter(17) == 95,
        first_code(18) == 0x3fff8 && shorter(18) == 95,
        first_code(19) == 0x7fff0 && shorter(19) == 95,
        first_code(20) == 0xfffe6 && shorter(20) == 98,
        first_code(21) == 0x1fffdc && shorter(21) == 106,
        first_code(22) == 0x3fffd2 && shorter(22) == 119,
        first_code(23) == 0x7fffd8 && shorter(23) == 145,
        first_code(24) == 0xffffea && shorter(24) == 174,
        first_code(25) == 0x1ffffec && shorter(25) == 186,
        first_code(26) == 0x3ffffe0 && shorter(26) == 190,
        first_code(27) == 0x7ffffde && shorter(27) == 205,
        first_code(28) == 0xfffffe2 && shorter(28) == 224,
        first_code(29) == 0x1ffffffe && shorter(29) == 253,
        first_code(30) == 0x3ffffffc && shorter(30) == 253,
        first_code(31) == 0x7ffffffe && shorter(31) == 256,
{
    assert(first_code(0) == 0x0 && shorter(0) == 0);
    assert(first_code(1) == 0x0 && shorter(1) == 0);
    assert(first_code(2) == 0x0 && shorter(2) == 0);
    assert(first_code(3) == 0x0 && shorter(3) == 0);
    assert(first_code(4) == 0x0 && shorter(4) == 0);
    assert(first_code(5) == 0x0 && shorter(5) == 0);
    assert(first_code(6) == 0x14 && shorter(6) == 10);
    assert(first_code(7) == 0x5c && shorter(7) == 36);
    assert(first_code(8) == 0xf8 && shorter(8) == 68);
    assert(first_code(9) == 0x1fc && shorter(9) == 74);
    assert(first_code(10) == 0x3f8 && shorter(10) == 74);
    assert(first_code(11) == 0x7fa && shorter(11) == 79);
    assert(first_code(12) == 0xffa && shorter(12) == 82);
    assert(first_code(13) == 0x1ff8 && shorter(13) == 84);
    assert(first_code(14) == 0x3ffc && shorter(14) == 90);
    assert(first_code(15) == 0x7ffc && shorter(15) == 92);
    assert(first_code(16) == 0xfffe && shorter(16) == 95);
    assert(first_code(17) == 0x1fffc && shorter(17) == 95);
    assert(first_code(18) == 0x3fff8 && shorter(18) == 95);
    assert(first_code(19) == 0x7fff0 && shorter(19) == 95);
    assert(first_code(20) == 0xfffe6 && shorter(20) == 98);
    assert(first_code(21) == 0x1fffdc && shorter(21) == 106);
    assert(first_code(22) == 0x3fffd2 && shorter(22) == 119);
    assert(first_code(23) == 0x7fffd8 && shorter(23) == 145);
    assert(first_code(24) == 0xffffea && shorter(24) == 174);
    assert(first_code(25) == 0x1ffffec && shorter(25) == 186);
    assert(first_code(26) == 0x3ffffe0 && shorter(26) == 190);
    assert(first_code(27) == 0x7ffffde && shorter(27) == 205);
    assert(first_code(28) == 0xfffffe2 && shorter(28) == 224);
    assert(first_code(29) == 0x1ffffffe && shorter(29) == 253);
    assert(first_code(30) == 0x3ffffffc && shorter(30) == 253);
    assert(first_code(31) == 0x7ffffffe && shorter(31) == 256);
}

/// The numbers of the codes, length by length.
proof fn lemma_codes(len: nat)
    ensures
        huffman::codes_of(len).1 >= 0,
        huffman::codes_of(len).1 > 0 ==> len <= 30 && huffman::codes_of(len).0 == first_code(len)
            && huffman::codes_of(len).2 == shorter(len),
        huffman::codes_of(len).1 > 0 ==> 0 <= shorter(len) && shorter(len) + huffman::codes_of(len).1 <= 256,
        shorter(31) == 256,
        first_code(30) + huffman::codes_of(30).1 == 0x3fff_ffff,
{
    lemma_first_codes();
}

/// The symbols of each length.
proof fn lemma_symbols()
    ensures
        huffman::symbols().len() == 256,
        forall|i: int| 0 <= i < 9 ==> #[trigger] huffman::symbols()[i] < huffman::symbols()[i + 1],
        forall|i: int| 10 <= i < 35 ==> #[trigger] huffman::symbols()[i] < huffman::symbols()[i + 1],
        forall|i: int| 36 <= i < 67 ==> #[trigger] huffman::symbols()[i] < huffman::symbols()[i + 1],
        forall|i: int| 68 <= i < 73 ==> #[trigger] huffman::symbols()[i] < huffman::symbols()[i + 1],
        forall|i: int| 74 <= i < 78 ==> #[trigger] huffman::symbols()[i] < huffman::symbols()[i + 1],
        forall|i: int| 79 <= i < 81 ==> #[trigger] huffman::symbols()[i] < huffman::symbols()[i + 1],
        forall|i: int| 82 <= i < 83 ==> #[trigger] huffman::symbols()[i] < huffman::symbols()[i + 1],
        forall|i: int| 84 <= i < 89 ==> #[trigger] huffman::symbols()[i] < huffman::symbols()[i + 1],
        forall|i: int| 90 <= i < 91 ==> #[trigger] huffman::symbols()[i] < huffman::symbols()[i + 1],
        forall|i: int| 92 <= i < 94 ==> #[trigger] huffman::symbols()[i] < huffman::symbols()[i + 1],
        forall|i: int| 95 <= i < 97 ==> #[trigger] huffman::symbols()[i] < huffman::symbols()[i + 1],
        forall|i: int| 98 <= i < 105 ==> #[trigger] huffman::symbols()[i] < huffman::symbols()[i + 1],
        forall|i: int| 106 <= i < 118 ==> #[trigger] huffman::symbols()[i] < huffman::symbols()[i + 1],
        forall|i: int| 119 <= i < 144 ==> #[trigger] huffman::symbols()[i] < huffman::symbols()[i + 1],
        forall|i: int| 145 <= i < 173 ==> #[trigger] huffman::symbols()[i] < huffman::symbols()[i + 1],
        forall|i: int| 174 <= i < 185 ==> #[trigger] huffman::symbols()[i] < huffman::symbols()[i + 1],
        forall|i: int| 186 <= i < 189 ==> #[trigger] huffman::symbols()[i] < huffman::symbols()[i + 1],
        forall|i: int| 190 <= i < 204 ==> #[trigger] huffman::symbols()[i] < huffman::symbols()[i + 1],
        forall|i: int| 205 <= i < 223 ==> #[trigger] huffman::symbols()[i] < huffman::symbols()[i + 1],
        forall|i: int| 224 <= i < 252 ==> #[trigger] huffman::symbols()[i] < huffman::symbols()[i + 1],
        forall|i: int| 253 <= i < 255 ==> #[trigger] huffman::symbols()[i] < huffman::symbols()[i + 1],
{
}

/// The length of the code of each symbol.
spec fn lengths() -> Seq<int> {
    seq![
            13int, 23, 28, 28, 28, 28, 28, 28, 28, 24, 30, 28, 28, 30, 28, 28,
            28, 28, 28, 28, 28, 28, 30, 28, 28, 28, 28, 28, 28, 28, 28, 28,
            6, 10, 10, 12, 13, 6, 8, 11, 10, 10, 8, 11, 8, 6, 6, 6,
            5, 5, 5, 6, 6, 6, 6, 6, 6, 6, 7, 8, 15, 6, 12, 10,
            13, 6, 7, 7, 7, 7, 7, 7, 7, 7, 7, 7, 7, 7, 7, 7,
            7, 7, 7, 7, 7, 7, 7, 7, 8, 7, 8, 13, 19, 13, 14, 6,
            15, 5, 6, 5, 6, 5, 6, 6, 6, 5, 7, 7, 6, 6, 6, 5,
            6, 7, 6, 5, 5, 6, 7, 7, 7, 7, 7, 15, 11, 14, 13, 28,
            20, 22, 20, 20, 22, 22, 22, 23, 22, 23, 23, 23, 23, 23, 24, 23,
            24, 24, 22, 23, 24, 23, 23, 23, 23, 21, 22, 23, 22, 23, 23, 24,
            22, 21, 20, 22, 22, 23, 23, 21, 23, 22, 22, 24, 21, 22, 23, 23,
            21, 21, 22, 21, 23, 22, 23, 23, 20, 22, 22, 22, 23, 22, 22, 23,
            26, 26, 20, 19, 22, 23, 22, 25, 26, 26, 26, 27, 27, 26, 24, 25,
            19, 21, 26, 27, 27, 26, 27, 24, 21, 21, 26, 26, 28, 27, 27, 27,
            20, 24, 20, 21, 22, 21, 21, 23, 22, 22, 25, 25, 24, 24, 26, 23,
            26, 27, 26, 26, 27, 27, 27, 27, 27, 28, 27, 27, 27, 27, 27, 26,
    ]
}

proof fn lemma_length_5()
    ensures
        forall|i: int|
            0 <= i < 10 ==> lengths()[(#[trigger] huffman::symbols()[i]) as int] == 5,
{
    assert(huffman::symbols()[0] == 48 && lengths()[48] == 5);
    assert(huffman::symbols()[1] == 49 && lengths()[49] == 5);
    assert(huffman::symbols()[2] == 50 && lengths()[50] == 5);
    assert(huffman::symbols()[3] == 97 && lengths()[97] == 5);
    assert(huffman::symbols()[4] == 99 && lengths()[99] == 5);
    assert(huffman::symbols()[5] == 101 && lengths()[101] == 5);
    assert(huffman::symbols()[6] == 105 && lengths()[105] == 5);
    assert(huffman::symbols()[7] == 111 && lengths()[111] == 5);
    assert(huffman::symbols()[8] == 115 && lengths()[115] == 5);
    assert(huffman::symbols()[9] == 116 && lengths()[116] == 5);
}

proof fn lemma_length_6()
    ensures
        forall|i: int|
            10 <= i < 36 ==> lengths()[(#[trigger] huffman::symbols()[i]) as int] == 6,
{
    assert(huffman::symbols()[10] == 32 && lengths()[32] == 6);
    assert(huffman::symbols()[11] == 37 && lengths()[37] == 6);
    assert(huffman::symbols()[12] == 45 && lengths()[45] == 6);
    assert(huffman::symbols()[13] == 46 && lengths()[46] == 6);
    assert(huffman::symbols()[14] == 47 && lengths()[47] == 6);
    assert(huffman::symbols()[15] == 51 && lengths()[51] == 6);
    assert(huffman::symbols()[16] == 52 && lengths()[52] == 6);
    assert(huffman::symbols()[17] == 53 && lengths()[53] == 6);
    assert(huffman::symbols()[18] == 54 && lengths()[54] == 6);
    assert(huffman::symbols()[19] == 55 && lengths()[55] == 6);
    assert(huffman::symbols()[20] == 56 && lengths()[56] == 6);
    assert(huffman::symbols()[21] == 57 && lengths()[57] == 6);
    assert(huffman::symbols()[22] == 61 && lengths()[61] == 6);
    assert(huffman::symbols()[23] == 65 && lengths()[65] == 6);
    assert(huffman::symbols()[24] == 95 && lengths()[95] == 6);
    assert(huffman::symbols()[25] == 98 && lengths()[98] == 6);
    assert(huffman::symbols()[26] == 100 && lengths()[100] == 6);
    assert(huffman::symbols()[27] == 102 && lengths()[102] == 6);
    assert(huffman::symbols()[28] == 103 && lengths()[103] == 6);
    assert(huffman::symbols()[29] == 104 && lengths()[104] == 6);
    assert(huffman::symbols()[30] == 108 && lengths()[108] == 6);
    assert(huffman::symbols()[31] == 109 && lengths()[109] == 6);
    assert(huffman::symbols()[32] == 110 && lengths()[110] == 6);
    assert(huffman::symbols()[33] == 112 && lengths()[112] == 6);
    assert(huffman::symbols()[34] == 114 && lengths()[114] == 6);
    assert(huffman::symbols()[35] == 117 && lengths()[117] == 6);
}

proof fn lemma_length_7()
    ensures
        forall|i: int|
            36 <= i < 68 ==> lengths()[(#[trigger] huffman::symbols()[i]) as int] == 7,
{
    assert(huffman::symbols()[36] == 58 && lengths()[58] == 7);
    assert(huffman::symbols()[37] == 66 && lengths()[66] == 7);
    assert(huffman::symbols()[38] == 67 && lengths()[67] == 7);
    assert(huffman::symbols()[39] == 68 && lengths()[68] == 7);
    assert(huffman::symbols()[40] == 69 && lengths()[69] == 7);
    assert(huffman::symbols()[41] == 70 && lengths()[70] == 7);
    assert(huffman::symbols()[42] == 71 && lengths()[71] == 7);
    assert(huffman::symbols()[43] == 72 && lengths()[72] == 7);
    assert(huffman::symbols()[44] == 73 && lengths()[73] == 7);
    assert(huffman::symbols()[45] == 74 && lengths()[74] == 7);
    assert(huffman::symbols()[46] == 75 && lengths()[75] == 7);
    assert(huffman::symbols()[47] == 76 && lengths()[76] == 7);
    assert(huffman::symbols()[48] == 77 && lengths()[77] == 7);
    assert(huffman::symbols()[49] == 78 && lengths()[78] == 7);
    assert(huffman::symbols()[50] == 79 && lengths()[79] == 7);
    assert(huffman::symbols()[51] == 80 && lengths()[80] == 7);
    assert(huffman::symbols()[52] == 81 && lengths()[81] == 7);
    assert(huffman::symbols()[53] == 82 && lengths()[82] == 7);
    assert(huffman::symbols()[54] == 83 && lengths()[83] == 7);
    assert(huffman::symbols()[55] == 84 && lengths()[84] == 7);
    assert(huffman::symbols()[56] == 85 && lengths()[85] == 7);
    assert(huffman::symbols()[57] == 86 && lengths()[86] == 7);
    assert(huffman::symbols()[58] == 87 && lengths()[87] == 7);
    assert(huffman::symbols()[59] == 89 && lengths()[89] == 7);
    assert(huffman::symbols()[60] == 106 && lengths()[106] == 7);
    assert(huffman::symbols()[61] == 107 && lengths()[107] == 7);
    assert(huffman::symbols()[62] == 113 && lengths()[113] == 7);
    assert(huffman::symbols()[63] == 118 && lengths()[118] == 7);
    assert(huffman::symbols()[64] == 119 && lengths()[119] == 7);
    assert(huffman::symbols()[65] == 120 && lengths()[120] == 7);
    assert(huffman::symbols()[66] == 121 && lengths()[121] == 7);
    assert(huffman::symbols()[67] == 122 && lengths()[122] == 7);
}

proof fn lemma_length_8()
    ensures
        forall|i: int|
            68 <= i < 74 ==> lengths()[(#[trigger] huffman::symbols()[i]) as int] == 8,
{
    assert(huffman::symbols()[68] == 38 && lengths()[38] == 8);
    assert(huffman::symbols()[69] == 42 && lengths()[42] == 8);
    assert(huffman::symbols()[70] == 44 && lengths()[44] == 8);
    assert(huffman::symbols()[71] == 59 && lengths()[59] == 8);
    assert(huffman::symbols()[72] == 88 && lengths()[88] == 8);
    assert(huffman::symbols()[73] == 90 && lengths()[90] == 8);
}

proof fn lemma_length_10()
    ensures
        forall|i: int|
            74 <= i < 79 ==> lengths()[(#[trigger] huffman::symbols()[i]) as int] == 10,
{
    assert(huffman::symbols()[74] == 33 && lengths()[33] == 10);
    assert(huffman::symbols()[75] == 34 && lengths()[34] == 10);
    assert(huffman::symbols()[76] == 40 && lengths()[40] == 10);
    assert(huffman::symbols()[77] == 41 && lengths()[41] == 10);
    assert(huffman::symbols()[78] == 63 && lengths()[63] == 10);
}

proof fn lemma_length_11()
    ensures
        forall|i: int|
            79 <= i < 82 ==> lengths()[(#[trigger] huffman::symbols()[i]) as int] == 11,
{
    assert(huffman::symbols()[79] == 39 && lengths()[39] == 11);
    assert(huffman::symbols()[80] == 43 && lengths()[43] == 11);
    assert(huffman::symbols()[81] == 124 && lengths()[124] == 11);
}

proof fn lemma_length_12()
    ensures
        forall|i: int|
            82 <= i < 84 ==> lengths()[(#[trigger] huffman::symbols()[i]) as int] == 12,
{
    assert(huffman::symbols()[82] == 35 && lengths()[35] == 12);
    assert(huffman::symbols()[83] == 62 && lengths()[62] == 12);
}

proof fn lemma_length_13()
    ensures
        forall|i: int|
            84 <= i < 90 ==> lengths()[(#[trigger] huffman::symbols()[i]) as int] == 13,
{
    assert(huffman::symbols()[84] == 0 && lengths()[0] == 13);
    assert(huffman::symbols()[85] == 36 && lengths()[36] == 13);
    assert(huffman::symbols()[86] == 64 && lengths()[64] == 13);
    assert(huffman::symbols()[87] == 91 && lengths()[91] == 13);
    assert(huffman::symbols()[88] == 93 && lengths()[93] == 13);
    assert(huffman::symbols()[89] == 126 && lengths()[126] == 13);
}

proof fn lemma_length_14()
    ensures
        forall|i: int|
            90 <= i < 92 ==> lengths()[(#[trigger] huffman::symbols()[i]) as int] == 14,
{
    assert(huffman::symbols()[90] == 94 && lengths()[94] == 14);
    assert(huffman::symbols()[91] == 125 && lengths()[125] == 14);
}

proof fn lemma_length_15()
    ensures
        forall|i: int|
            92 <= i < 95 ==> lengths()[(#[trigger] huffman::symbols()[i]) as int] == 15,
{
    assert(huffman::symbols()[92] == 60 && lengths()[60] == 15);
    assert(huffman::symbols()[93] == 96 && lengths()[96] == 15);
    assert(huffman::symbols()[94] == 123 && lengths()[123] == 15);
}

proof fn lemma_length_19()
    ensures
        forall|i: int|
            95 <= i < 98 ==> lengths()[(#[trigger] huffman::symbols()[i]) as int] == 19,
{
    assert(huffman::symbols()[95] == 92 && lengths()[92] == 19);
    assert(huffman::symbols()[96] == 195 && lengths()[195] == 19);
    assert(huffman::symbols()[97] == 208 && lengths()[208] == 19);
}

proof fn lemma_length_20()
    ensures
        forall|i: int|
            98 <= i < 106 ==> lengths()[(#[trigger] huffman::symbols()[i]) as int] == 20,
{
    assert(huffman::symbols()[98] == 128 && lengths()[128] == 20);
    assert(huffman::symbols()[99] == 130 && lengths()[130] == 20);
    assert(huffman::symbols()[100] == 131 && lengths()[131] == 20);
    assert(huffman::symbols()[101] == 162 && lengths()[162] == 20);
    assert(huffman::symbols()[102] == 184 && lengths()[184] == 20);
    assert(huffman::symbols()[103] == 194 && lengths()[194] == 20);
    assert(huffman::symbols()[104] == 224 && lengths()[224] == 20);
    assert(huffman::symbols()[105] == 226 && lengths()[226] == 20);
}

proof fn lemma_length_21()
    ensures
        forall|i: int|
            106 <= i < 119 ==> lengths()[(#[trigger] huffman::symbols()[i]) as int] == 21,
{
    assert(huffman::symbols()[106] == 153 && lengths()[153] == 21);
    assert(huffman::symbols()[107] == 161 && lengths()[161] == 21);
    assert(huffman::symbols()[108] == 167 && lengths()[167] == 21);
    assert(huffman::symbols()[109] == 172 && lengths()[172] == 21);
    assert(huffman::symbols()[110] == 176 && lengths()[176] == 21);
    assert(huffman::symbols()[111] == 177 && lengths()[177] == 21);
    assert(huffman::symbols()[112] == 179 && lengths()[179] == 21);
    assert(huffman::symbols()[113] == 209 && lengths()[209] == 21);
    assert(huffman::symbols()[114] == 216 && lengths()[216] == 21);
    assert(huffman::symbols()[115] == 217 && lengths()[217] == 21);
    assert(huffman::symbols()[116] == 227 && lengths()[227] == 21);
    assert(huffman::symbols()[117] == 229 && lengths()[229] == 21);
    assert(huffman::symbols()[118] == 230 && lengths()[230] == 21);
}

proof fn lemma_length_22()
    ensures
        forall|i: int|
            119 <= i < 145 ==> lengths()[(#[trigger] huffman::symbols()[i]) as int] == 22,
{
    assert(huffman::symbols()[119] == 129 && lengths()[129] == 22);
    assert(huffman::symbols()[120] == 132 && lengths()[132] == 22);
    assert(huffman::symbols()[121] == 133 && lengths()[133] == 22);
    assert(huffman::symbols()[122] == 134 && lengths()[134] == 22);
    assert(huffman::symbols()[123] == 136 && lengths()[136] == 22);
    assert(huffman::symbols()[124] == 146 && lengths()[146] == 22);
    assert(huffman::symbols()[125] == 154 && lengths()[154] == 22);
    assert(huffman::symbols()[126] == 156 && lengths()[156] == 22);
    assert(huffman::symbols()[127] == 160 && lengths()[160] == 22);
    assert(huffman::symbols()[128] == 163 && lengths()[163] == 22);
    assert(huffman::symbols()[129] == 164 && lengths()[164] == 22);
    assert(huffman::symbols()[130] == 169 && lengths()[169] == 22);
    assert(huffman::symbols()[131] == 170 && lengths()[170] == 22);
    assert(huffman::symbols()[132] == 173 && lengths()[173] == 22);
    assert(huffman::symbols()[133] == 178 && lengths()[178] == 22);
    assert(huffman::symbols()[134] == 181 && lengths()[181] == 22);
    assert(huffman::symbols()[135] == 185 && lengths()[185] == 22);
    assert(huffman::symbols()[136] == 186 && lengths()[186] == 22);
    assert(huffman::symbols()[137] == 187 && lengths()[187] == 22);
    assert(huffman::symbols()[138] == 189 && lengths()[189] == 22);
    assert(huffman::symbols()[139] == 190 && lengths()[190] == 22);
    assert(huffman::symbols()[140] == 196 && lengths()[196] == 22);
    assert(huffman::symbols()[141] == 198 && lengths()[198] == 22);
    assert(huffman::symbols()[142] == 228 && lengths()[228] == 22);
    assert(huffman::symbols()[143] == 232 && lengths()[232] == 22);
    assert(huffman::symbols()[144] == 233 && lengths()[233] == 22);
}

proof fn lemma_length_23()
    ensures
        forall|i: int|
            145 <= i < 174 ==> lengths()[(#[trigger] huffman::symbols()[i]) as int] == 23,
{
    assert(huffman::symbols()[145] == 1 && lengths()[1] == 23);
    assert(huffman::symbols()[146] == 135 && lengths()[135] == 23);
    assert(huffman::symbols()[147] == 137 && lengths()[137] == 23);
    assert(huffman::symbols()[148] == 138 && lengths()[138] == 23);
    assert(huffman::symbols()[149] == 139 && lengths()[139] == 23);
    assert(huffman::symbols()[150] == 140 && lengths()[140] == 23);
    assert(huffman::symbols()[151] == 141 && lengths()[141] == 23);
    assert(huffman::symbols()[152] == 143 && lengths()[143] == 23);
    assert(huffman::symbols()[153] == 147 && lengths()[147] == 23);
    assert(huffman::symbols()[154] == 149 && lengths()[149] == 23);
    assert(huffman::symbols()[155] == 150 && lengths()[150] == 23);
    assert(huffman::symbols()[156] == 151 && lengths()[151] == 23);
    assert(huffman::symbols()[157] == 152 && lengths()[152] == 23);
    assert(huffman::symbols()[158] == 155 && lengths()[155] == 23);
    assert(huffman::symbols()[159] == 157 && lengths()[157] == 23);
    assert(huffman::symbols()[160] == 158 && lengths()[158] == 23);
    assert(huffman::symbols()[161] == 165 && lengths()[165] == 23);
    assert(huffman::symbols()[162] == 166 && lengths()[166] == 23);
    assert(huffman::symbols()[163] == 168 && lengths()[168] == 23);
    assert(huffman::symbols()[164] == 174 && lengths()[174] == 23);
    assert(huffman::symbols()[165] == 175 && lengths()[175] == 23);
    assert(huffman::symbols()[166] == 180 && lengths()[180] == 23);
    assert(huffman::symbols()[167] == 182 && lengths()[182] == 23);
    assert(huffman::symbols()[168] == 183 && lengths()[183] == 23);
    assert(huffman::symbols()[169] == 188 && lengths()[188] == 23);
    assert(huffman::symbols()[170] == 191 && lengths()[191] == 23);
    assert(huffman::symbols()[171] == 197 && lengths()[197] == 23);
    assert(huffman::symbols()[172] == 231 && lengths()[231] == 23);
    assert(huffman::symbols()[173] == 239 && lengths()[239] == 23);
}

proof fn lemma_length_24()
    ensures
        forall|i: int|
            174 <= i < 186 ==> lengths()[(#[trigger] huffman::symbols()[i]) as int] == 24,
{
    assert(huffman::symbols()[174] == 9 && lengths()[9] == 24);
    assert(huffman::symbols()[175] == 142 && lengths()[142] == 24);
    assert(huffman::symbols()[176] == 144 && lengths()[144] == 24);
    assert(huffman::symbols()[177] == 145 && lengths()[145] == 24);
    assert(huffman::symbols()[178] == 148 && lengths()[148] == 24);
    assert(huffman::symbols()[179] == 159 && lengths()[159] == 24);
    assert(huffman::symbols()[180] == 171 && lengths()[171] == 24);
    assert(huffman::symbols()[181] == 206 && lengths()[206] == 24);
    assert(huffman::symbols()[182] == 215 && lengths()[215] == 24);
    assert(huffman::symbols()[183] == 225 && lengths()[225] == 24);
    assert(huffman::symbols()[184] == 236 && lengths()[236] == 24);
    assert(huffman::symbols()[185] == 237 && lengths()[237] == 24);
}

proof fn lemma_length_25()
    ensures
        forall|i: int|
            186 <= i < 190 ==> lengths()[(#[trigger] huffman::symbols()[i]) as int] == 25,
{
    assert(huffman::symbols()[186] == 199 && lengths()[199] == 25);
    assert(huffman::symbols()[187] == 207 && lengths()[207] == 25);
    assert(huffman::symbols()[188] == 234 && lengths()[234] == 25);
    assert(huffman::symbols()[189] == 235 && lengths()[235] == 25);
}

proof fn lemma_length_26()
    ensures
        forall|i: int|
            190 <= i < 205 ==> lengths()[(#[trigger] huffman::symbols()[i]) as int] == 26,
{
    assert(huffman::symbols()[190] == 192 && lengths()[192] == 26);
    assert(huffman::symbols()[191] == 193 && lengths()[193] == 26);
    assert(huffman::symbols()[192] == 200 && lengths()[200] == 26);
    assert(huffman::symbols()[193] == 201 && lengths()[201] == 26);
    assert(huffman::symbols()[194] == 202 && lengths()[202] == 26);
    assert(huffman::symbols()[195] == 205 && lengths()[205] == 26);
    assert(huffman::symbols()[196] == 210 && lengths()[210] == 26);
    assert(huffman::symbols()[197] == 213 && lengths()[213] == 26);
    assert(huffman::symbols()[198] == 218 && lengths()[218] == 26);
    assert(huffman::symbols()[199] == 219 && lengths()[219] == 26);
    assert(huffman::symbols()[200] == 238 && lengths()[238] == 26);
    assert(huffman::symbols()[201] == 240 && lengths()[240] == 26);
    assert(huffman::symbols()[202] == 242 && lengths()[242] == 26);
    assert(huffman::symbols()[203] == 243 && lengths()[243] == 26);
    assert(huffman::symbols()[204] == 255 && lengths()[255] == 26);
}

proof fn lemma_length_27()
    ensures
        forall|i: int|
            205 <= i < 224 ==> lengths()[(#[trigger] huffman::symbols()[i]) as int] == 27,
{
    assert(huffman::symbols()[205] == 203 && lengths()[203] == 27);
    assert(huffman::symbols()[206] == 204 && lengths()[204] == 27);
    assert(huffman::symbols()[207] == 211 && lengths()[211] == 27);
    assert(huffman::symbols()[208] == 212 && lengths()[212] == 27);
    assert(huffman::symbols()[209] == 214 && lengths()[214] == 27);
    assert(huffman::symbols()[210] == 221 && lengths()[221] == 27);
    assert(huffman::symbols()[211] == 222 && lengths()[222] == 27);
    assert(huffman::symbols()[212] == 223 && lengths()[223] == 27);
    assert(huffman::symbols()[213] == 241 && lengths()[241] == 27);
    assert(huffman::symbols()[214] == 244 && lengths()[244] == 27);
    assert(huffman::symbols()[215] == 245 && lengths()[245] == 27);
    assert(huffman::symbols()[216] == 246 && lengths()[246] == 27);
    assert(huffman::symbols()[217] == 247 && lengths()[247] == 27);
    assert(huffman::symbols()[218] == 248 && lengths()[248] == 27);
    assert(huffman::symbols()[219] == 250 && lengths()[250] == 27);
    assert(huffman::symbols()[220] == 251 && lengths()[251] == 27);
    assert(huffman::symbols()[221] == 252 && lengths()[252] == 27);
    assert(huffman::symbols()[222] == 253 && lengths()[253] == 27);
    assert(huffman::symbols()[223] == 254 && lengths()[254] == 27);
}

proof fn lemma_length_28()
    ensures
        forall|i: int|
            224 <= i < 253 ==> lengths()[(#[trigger] huffman::symbols()[i]) as int] == 28,
{
    assert(huffman::symbols()[224] == 2 && lengths()[2] == 28);
    assert(huffman::symbols()[225] == 3 && lengths()[3] == 28);
    assert(huffman::symbols()[226] == 4 && lengths()[4] == 28);
    assert(huffman::symbols()[227] == 5 && lengths()[5] == 28);
    assert(huffman::symbols()[228] == 6 && lengths()[6] == 28);
    assert(huffman::symbols()[229] == 7 && lengths()[7] == 28);
    assert(huffman::symbols()[230] == 8 && lengths()[8] == 28);
    assert(huffman::symbols()[231] == 11 && lengths()[11] == 28);
    assert(huffman::symbols()[232] == 12 && lengths()[12] == 28);
    assert(huffman::symbols()[233] == 14 && lengths()[14] == 28);
    assert(huffman::symbols()[234] == 15 && lengths()[15] == 28);
    assert(huffman::symbols()[235] == 16 && lengths()[16] == 28);
    assert(huffman::symbols()[236] == 17 && lengths()[17] == 28);
    assert(huffman::symbols()[237] == 18 && lengths()[18] == 28);
    assert(huffman::symbols()[238] == 19 && lengths()[19] == 28);
    assert(huffman::symbols()[239] == 20 && lengths()[20] == 28);
    assert(huffman::symbols()[240] == 21 && lengths()[21] == 28);
    assert(huffman::symbols()[241] == 23 && lengths()[23] == 28);
    assert(huffman::symbols()[242] == 24 && lengths()[24] == 28);
    assert(huffman::symbols()[243] == 25 && lengths()[25] == 28);
    assert(huffman::symbols()[244] == 26 && lengths()[26] == 28);
    assert(huffman::symbols()[245] == 27 && lengths()[27] == 28);
    assert(huffman::symbols()[246] == 28 && lengths()[28] == 28);
    assert(huffman::symbols()[247] == 29 && lengths()[29] == 28);
    assert(huffman::symbols()[248] == 30 && lengths()[30] == 28);
    assert(huffman::symbols()[249] == 31 && lengths()[31] == 28);
    assert(huffman::symbols()[250] == 127 && lengths()[127] == 28);
    assert(huffman::symbols()[251] == 220 && lengths()[220] == 28);
    assert(huffman::symbols()[252] == 249 && lengths()[249] == 28);
}

proof fn lemma_length_30()
    ensures
        forall|i: int|
            253 <= i < 256 ==> lengths()[(#[trigger] huffman::symbols()[i]) as int] == 30,
{
    assert(huffman::symbols()[253] == 10 && lengths()[10] == 30);
    assert(huffman::symbols()[254] == 13 && lengths()[13] == 30);
    assert(huffman::symbols()[255] == 22 && lengths()[22] == 30);
}

/// The length of each symbol's code, from its position.
proof fn lemma_lengths()
    ensures
        lengths().len() == 256,
        forall|len: nat, i: int|
            #![trigger huffman::symbols()[huffman::codes_of(len).2 + i]]
            0 <= i < huffman::codes_of(len).1 ==> lengths()[huffman::symbols()[huffman::codes_of(
                len,
            ).2 + i] as int] == len,
{
    lemma_length_5();
    lemma_length_6();
    lemma_length_7();
    lemma_length_8();
    lemma_length_10();
    lemma_length_11();
    lemma_length_12();
    lemma_length_13();
    lemma_length_14();
    lemma_length_15();
    lemma_length_19();
    lemma_length_20();
    lemma_length_21();
    lemma_length_22();
    lemma_length_23();
    lemma_length_24();
    lemma_length_25();
    lemma_length_26();
    lemma_length_27();
    lemma_length_28();
    lemma_length_30();
}

/// The length whose codes include the one at position `i`.
pub open spec fn length_at(i: int) -> nat {
    if i < 10 {
        5
    } else if i < 36 {
        6
    } else if i < 68 {
        7
    } else if i < 74 {
        8
    } else if i < 79 {
        10
    } else if i < 82 {
        11
    } else if i < 84 {
        12
    } else if i < 90 {
        13
    } else if i < 92 {
        14
    } else if i < 95 {
        15
    } else if i < 98 {
        19
    } else if i < 106 {
        20
    } else if i < 119 {
        21
    } else if i < 145 {
        22
    } else if i < 174 {
        23
    } else if i < 186 {
        24
    } else if i < 190 {
        25
    } else if i < 205 {
        26
    } else if i < 224 {
        27
    } else if i < 253 {
        28
    } else {
        30
    }
}

proof fn lemma_length_at(i: int)
    requires
        0 <= i < 256,
    ensures
        ({
            let (first, count, skipped) = huffman::codes_of(length_at(i));
            skipped <= i < skipped + count
        }),
        i < 255 && length_at(i) == length_at(i + 1) ==> huffman::symbols()[i] < huffman::symbols()[i + 1],
        i < 255 ==> length_at(i) <= length_at(i + 1),
{
    lemma_symbols();
}

/// Symbols of one length ascend.
proof fn lemma_ascend(i: int, j: int)
    requires
        0 <= i < j < 256,
        length_at(i) == length_at(j),
    ensures
        huffman::symbols()[i] < huffman::symbols()[j],
    decreases j - i,
{
    lemma_length_at(j - 1);
    if i < j - 1 {
        lemma_length_at(i);
        lemma_between(i, j - 1);
        lemma_ascend(i, j - 1);
    }
}

proof fn lemma_between(i: int, j: int)
    requires
        0 <= i <= j < 256,
    ensures
        length_at(i) <= length_at(j),
    decreases j - i,
{
    if i < j {
        lemma_length_at(j - 1);
        lemma_between(i, j - 1);
    }
}

/// No symbol stands twice.
proof fn lemma_distinct(i: int, j: int)
    requires
        0 <= i < j < 256,
    ensures
        huffman::symbols()[i] != huffman::symbols()[j],
{
    lemma_lengths();
    lemma_length_at(i);
    lemma_length_at(j);
    let a = huffman::codes_of(length_at(i)).2;
    let b = huffman::codes_of(length_at(j)).2;
    assert(huffman::symbols()[a + (i - a)] == huffman::symbols()[i]);
    assert(huffman::symbols()[b + (j - b)] == huffman::symbols()[j]);
    if length_at(i) == length_at(j) {
        lemma_ascend(i, j);
    }
}

/// Law: the code is the canonical one for the following lengths, one per symbol.
/// Every byte has exactly one code; within each length the symbols ascend with
/// their codes; shorter codes come first; and all codes together leave over only
/// the one of 30 ones, which marks the end of a string.
pub proof fn law_code_is_canonical()
    ensures
        huffman::symbols().len() == 256,
        forall|b: u8| #[trigger] huffman::symbols().contains(b),
        forall|i: int, j: int|
            0 <= i < j < 256 ==> #[trigger] huffman::symbols()[i] != #[trigger] huffman::symbols()[j],
        forall|len: nat, i: int|
            #![trigger huffman::symbols()[huffman::codes_of(len).2 + i]]
            0 <= i < i + 1 < huffman::codes_of(len).1 ==> huffman::symbols()[huffman::codes_of(len).2
                + i] < huffman::symbols()[huffman::codes_of(len).2 + i + 1],
        forall|len: nat|
            (#[trigger] huffman::codes_of(len)).1 > 0 ==> huffman::codes_of(len).0 == first_code(len)
                && huffman::codes_of(len).2 == shorter(len),
        first_code(30) + huffman::codes_of(30).1 == 0x3fff_ffff,
        forall|len: nat, i: int|
            #![trigger huffman::symbols()[huffman::codes_of(len).2 + i]]
            0 <= i < huffman::codes_of(len).1 ==> seq![
            13int, 23, 28, 28, 28, 28, 28, 28, 28, 24, 30, 28, 28, 30, 28, 28,
            28, 28, 28, 28, 28, 28, 30, 28, 28, 28, 28, 28, 28, 28, 28, 28,
            6, 10, 10, 12, 13, 6, 8, 11, 10, 10, 8, 11, 8, 6, 6, 6,
            5, 5, 5, 6, 6, 6, 6, 6, 6, 6, 7, 8, 15, 6, 12, 10,
            13, 6, 7, 7, 7, 7, 7, 7, 7, 7, 7, 7, 7, 7, 7, 7,
            7, 7, 7, 7, 7, 7, 7, 7, 8, 7, 8, 13, 19, 13, 14, 6,
            15, 5, 6, 5, 6, 5, 6, 6, 6, 5, 7, 7, 6, 6, 6, 5,
            6, 7, 6, 5, 5, 6, 7, 7, 7, 7, 7, 15, 11, 14, 13, 28,
            20, 22, 20, 20, 22, 22, 22, 23, 22, 23, 23, 23, 23, 23, 24, 23,
            24, 24, 22, 23, 24, 23, 23, 23, 23, 21, 22, 23, 22, 23, 23, 24,
            22, 21, 20, 22, 22, 23, 23, 21, 23, 22, 22, 24, 21, 22, 23, 23,
            21, 21, 22, 21, 23, 22, 23, 23, 20, 22, 22, 22, 23, 22, 22, 23,
            26, 26, 20, 19, 22, 23, 22, 25, 26, 26, 26, 27, 27, 26, 24, 25,
            19, 21, 26, 27, 27, 26, 27, 24, 21, 21, 26, 26, 28, 27, 27, 27,
            20, 24, 20, 21, 22, 21, 21, 23, 22, 22, 25, 25, 24, 24, 26, 23,
            26, 27, 26, 26, 27, 27, 27, 27, 27, 28, 27, 27, 27, 27, 27, 26,
            ][huffman::symbols()[huffman::codes_of(len).2 + i] as int] == len,
{
    lemma_symbols();
    lemma_lengths();
    lemma_first_codes();
    assert forall|i: int, j: int| 0 <= i < j < 256 implies #[trigger] huffman::symbols()[i]
        != #[trigger] huffman::symbols()[j] by {
        lemma_distinct(i, j);
    }
    assert forall|b: u8| #[trigger] huffman::symbols().contains(b) by {
        lemma_all_there(b);
    }
    assert forall|len: nat, i: int|
        #![trigger huffman::symbols()[huffman::codes_of(len).2 + i]]
        0 <= i < i + 1 < huffman::codes_of(len).1 implies huffman::symbols()[huffman::codes_of(len).2
        + i] < huffman::symbols()[huffman::codes_of(len).2 + i + 1] by {
        lemma_codes(len);
        lemma_length_at(huffman::codes_of(len).2 + i);
    }
    assert forall|len: nat| (#[trigger] huffman::codes_of(len)).1 > 0 implies huffman::codes_of(
        len,
    ).0 == first_code(len) && huffman::codes_of(len).2 == shorter(len) by {
        lemma_codes(len);
    }
}

/// Every byte stands somewhere: there are as many different symbols as bytes.
proof fn lemma_all_there(b: u8)
    ensures
        huffman::symbols().contains(b),
{
    let s = huffman::symbols();
    lemma_symbols();
    assert(s.no_duplicates()) by {
        assert forall|i: int, j: int| 0 <= i < s.len() && 0 <= j < s.len() && i != j implies s[i]
            != s[j] by {
            if i < j {
                lemma_distinct(i, j);
            } else {
                lemma_distinct(j, i);
            }
        }
    }
    if !s.contains(b) {
        let ints = s.map(|i: int, x: u8| x as int);
        let all = ints.push(b as int);
        assert(all.no_duplicates()) by {
            assert forall|i: int, j: int| 0 <= i < all.len() && 0 <= j < all.len() && i != j implies
                all[i] != all[j] by {
                if i < 256 && j < 256 {
                    assert(s[i] != s[j]);
                } else if i < 256 {
                    assert(s.contains(s[i]));
                } else {
                    assert(s.contains(s[j]));
                }
            }
        }
        all.unique_seq_to_set();
        vstd::set_lib::lemma_int_range(0, 256);
        vstd::set_lib::lemma_len_subset(all.to_set(), vstd::set_lib::set_int_range(0, 256));
    }
}

/// Two to the power of `n`.
pub open spec fn two_to(n: nat) -> int
    decreases n,
{
    if n == 0 {
        1
    } else {
        2 * two_to((n - 1) as nat)
    }
}

/// The bits of some bytes, the most significant of each byte first.
pub open spec fn bits_of(s: Seq<u8>) -> Seq<int> {
    Seq::new(8 * s.len(), |i: int| s[i / 8] as int / two_to((7 - i % 8) as nat) % 2)
}

/// The lowest `n` bits of a number, the most significant first.
pub open spec fn number_bits(v: int, n: nat) -> Seq<int>
    decreases n,
{
    if n == 0 {
        Seq::empty()
    } else {
        number_bits(v / 2, (n - 1) as nat).push(v % 2)
    }
}

/// The code of a byte, as bits: that of its length, counted from the first one in
/// the order of the symbols.
pub open spec fn code_word(b: u8) -> Seq<int> {
    let p = huffman::symbols().index_of(b);
    number_bits(first_code(length_at(p)) + p - shorter(length_at(p)), length_at(p))
}

/// The codes of some bytes, one after the other.
pub open spec fn code_words(text: Seq<u8>) -> Seq<int>
    decreases text.len(),
{
    if text.len() == 0 {
        Seq::empty()
    } else {
        code_word(text[0]) + code_words(text.drop_first())
    }
}

proof fn lemma_two_to(n: nat)
    ensures
        two_to(n) > 0,
        two_to(n) == huffman::power(n),
    decreases n,
{
    if n > 0 {
        lemma_two_to((n - 1) as nat);
    }
}

/// Both ways to take a bit agree.
proof fn lemma_bit(s: Seq<u8>, i: int)
    requires
        0 <= i < 8 * s.len(),
    ensures
        huffman::bit(s, i) == bits_of(s)[i],
{
    reveal_with_fuel(two_to, 9);
    let b = s[i / 8] as int;
    assert(b / 128 % 2 == b / 128);
}

/// Each bit of a number.
proof fn lemma_number_bits(v: int, n: nat, i: int)
    requires
        0 <= v,
        0 <= i < n,
    ensures
        number_bits(v, n).len() == n,
        number_bits(v, n)[i] == v / two_to((n - 1 - i) as nat) % 2,
    decreases n,
{
    lemma_number_len(v, n);
    if i < n - 1 {
        lemma_number_len(v / 2, (n - 1) as nat);
        lemma_number_bits(v / 2, (n - 1) as nat, i);
        let k = (n - 2 - i) as nat;
        lemma_two_to(k);
        assert(v / 2 / two_to(k) == v / (2 * two_to(k))) by {
            vstd::arithmetic::div_mod::lemma_div_denominator(v, 2, two_to(k));
        }
    }
}

proof fn lemma_number_len(v: int, n: nat)
    ensures
        number_bits(v, n).len() == n,
    decreases n,
{
    if n > 0 {
        lemma_number_len(v / 2, (n - 1) as nat);
    }
}

/// Codes of longer lengths begin behind those of a shorter length.
proof fn lemma_longer(l: nat, k: nat)
    requires
        l + k <= 30,
    ensures
        k > 0 ==> first_code(l + k) >= (first_code(l) + huffman::codes_of(l).1) * two_to(k),
        first_code(l) >= 0,
    decreases k,
{
    lemma_first_codes();
    lemma_codes(l);
    lemma_codes((l + k) as nat);
    if k == 1 {
        assert(two_to(1) == 2) by {
            reveal_with_fuel(two_to, 2);
        }
    } else if k > 1 {
        let j = (k - 1) as nat;
        lemma_longer(l, j);
        lemma_codes((l + j) as nat);
        let x = first_code(l) + huffman::codes_of(l).1;
        assert(x * (2 * two_to(j)) == 2 * (x * two_to(j))) by (nonlinear_arith);
    }
}

/// A proper front part of a code is no code.
proof fn lemma_prefix(p: int, l: nat)
    requires
        0 <= p < 256,
        0 < l < length_at(p),
    ensures
        ({
            let len = length_at(p);
            let code = first_code(len) + p - shorter(len);
            huffman::symbol_of(l, code / two_to((len - l) as nat)) is None
        }),
{
    let len = length_at(p);
    lemma_length_at(p);
    lemma_codes(len);
    lemma_codes(l);
    let k = (len - l) as nat;
    let code = first_code(len) + p - shorter(len);
    lemma_longer(l, k);
    lemma_two_to(k);
    let x = first_code(l) + huffman::codes_of(l).1;
    assert(code / two_to(k) >= x) by (nonlinear_arith)
        requires
            code >= x * two_to(k),
            two_to(k) > 0,
    ;
}

/// Reading the rest of a code of which `l` bits were read.
proof fn lemma_code_is_read(s: Seq<u8>, i: int, p: int, l: nat)
    requires
        0 <= p < 256,
        0 <= l < length_at(p),
        0 <= i,
        i + length_at(p) <= 8 * s.len(),
        ({
            let len = length_at(p);
            let code = first_code(len) + p - shorter(len);
            bits_of(s).subrange(i, i + len) == number_bits(code, len)
        }),
    ensures
        ({
            let len = length_at(p);
            let code = first_code(len) + p - shorter(len);
            huffman::symbols_from(s, i + l, l, code / two_to((len - l) as nat)) == (
            match huffman::symbols_from(s, i + len, 0, 0) {
                Some(rest) => Some(seq![huffman::symbols()[p]] + rest),
                None => None,
            })
        }),
    decreases length_at(p) - l,
{
    let len = length_at(p);
    let code = first_code(len) + p - shorter(len);
    lemma_length_at(p);
    lemma_codes(len);
    lemma_longer(len, 0);
    lemma_bit(s, i + l);
    assert(bits_of(s).subrange(i, i + len)[l as int] == bits_of(s)[i + l]);
    lemma_number_bits(code, len, l as int);
    let k = (len - l - 1) as nat;
    lemma_two_to(k);
    let next = code / two_to(k);
    assert(code / two_to((k + 1) as nat) == next / 2) by {
        vstd::arithmetic::div_mod::lemma_div_denominator(code, two_to(k), 2);
        assert(two_to(k) * 2 == two_to((k + 1) as nat));
    }
    assert(2 * (next / 2) + next % 2 == next);
    if l + 1 == len {
        assert(two_to(0) == 1);
        assert(next == code);
        assert(huffman::symbol_of(len, code) == Some(huffman::symbols()[p]));
    } else {
        lemma_prefix(p, l + 1);
        lemma_code_is_read(s, i, p, l + 1);
    }
}

/// Ones at the end, fewer than eight, are passed over.
proof fn lemma_padding(s: Seq<u8>, i: int, l: nat)
    requires
        0 <= i <= 8 * s.len(),
        l + (8 * s.len() - i) < 8,
        forall|j: int| i <= j < 8 * s.len() ==> #[trigger] bits_of(s)[j] == 1,
    ensures
        huffman::symbols_from(s, i, l, two_to(l) - 1) == Some(Seq::<u8>::empty()),
    decreases 8 * s.len() - i,
{
    lemma_two_to(l);
    if i < 8 * s.len() {
        lemma_bit(s, i);
        assert(bits_of(s)[i] == 1);
        lemma_padding(s, i + 1, l + 1);
        assert(two_to((l + 1) as nat) == 2 * two_to(l));
        reveal_with_fuel(two_to, 9);
        assert(huffman::symbol_of((l + 1) as nat, two_to((l + 1) as nat) - 1) is None);
    }
}

proof fn lemma_text_is_read(s: Seq<u8>, i: int, text: Seq<u8>)
    requires
        0 <= i,
        i + code_words(text).len() <= 8 * s.len() < i + code_words(text).len() + 8,
        bits_of(s).subrange(i, i + code_words(text).len()) == code_words(text),
        forall|j: int|
            i + code_words(text).len() <= j < 8 * s.len() ==> #[trigger] bits_of(s)[j] == 1,
    ensures
        huffman::symbols_from(s, i, 0, 0) == Some(text),
    decreases text.len(),
{
    if text.len() == 0 {
        assert(two_to(0) == 1);
        lemma_padding(s, i, 0);
        assert(text =~= Seq::<u8>::empty());
    } else {
        let b = text[0];
        let rest = text.drop_first();
        lemma_all_there(b);
        let p = huffman::symbols().index_of(b);
        lemma_symbols();
        assert(0 <= p < 256 && huffman::symbols()[p] == b);
        let len = length_at(p);
        let code = first_code(len) + p - shorter(len);
        let word = code_word(b);
        let more = code_words(rest);
        lemma_number_len(code, len);
        assert(code_words(text) == word + more);
        let all = bits_of(s).subrange(i, i + code_words(text).len());
        assert(bits_of(s).subrange(i, i + len) =~= all.take(len as int));
        assert(all.take(len as int) =~= word);
        assert(bits_of(s).subrange(i + len, i + len + more.len()) =~= all.skip(len as int));
        assert(all.skip(len as int) =~= more);
        lemma_length_at(p);
        lemma_codes(len);
        lemma_longer(len, 0);
        lemma_code_is_read(s, i, p, 0);
        lemma_text_is_read(s, i + len, rest);
        lemma_below(p);
        assert(code / two_to(len) == 0);
        assert(seq![b] + rest =~= text);
    }
}

/// A code has no more bits than its length.
proof fn lemma_below(p: int)
    requires
        0 <= p < 256,
    ensures
        ({
            let len = length_at(p);
            let code = first_code(len) + p - shorter(len);
            0 <= code < two_to(len) && code / two_to(len) == 0
        }),
{
    let len = length_at(p);
    lemma_length_at(p);
    lemma_codes(len);
    lemma_first_codes();
    lemma_powers();
    let code = first_code(len) + p - shorter(len);
    assert(code < two_to(len));
    vstd::arithmetic::div_mod::lemma_basic_div(code, two_to(len));
}

proof fn lemma_powers()
    ensures
        two_to(0) == 0x1,
        two_to(1) == 0x2,
        two_to(2) == 0x4,
        two_to(3) == 0x8,
        two_to(4) == 0x10,
        two_to(5) == 0x20,
        two_to(6) == 0x40,
        two_to(7) == 0x80,
        two_to(8) == 0x100,
        two_to(9) == 0x200,
        two_to(10) == 0x400,
        two_to(11) == 0x800,
        two_to(12) == 0x1000,
        two_to(13) == 0x2000,
        two_to(14) == 0x4000,
        two_to(15) == 0x8000,
        two_to(16) == 0x10000,
        two_to(17) == 0x20000,
        two_to(18) == 0x40000,
        two_to(19) == 0x80000,
        two_to(20) == 0x100000,
        two_to(21) == 0x200000,
        two_to(22) == 0x400000,
        two_to(23) == 0x800000,
        two_to(24) == 0x1000000,
        two_to(25) == 0x2000000,
        two_to(26) == 0x4000000,
        two_to(27) == 0x8000000,
        two_to(28) == 0x10000000,
        two_to(29) == 0x20000000,
        two_to(30) == 0x40000000,
{
    assert(two_to(0) == 0x1);
    assert(two_to(1) == 0x2);
    assert(two_to(2) == 0x4);
    assert(two_to(3) == 0x8);
    assert(two_to(4) == 0x10);
    assert(two_to(5) == 0x20);
    assert(two_to(6) == 0x40);
    assert(two_to(7) == 0x80);
    assert(two_to(8) == 0x100);
    assert(two_to(9) == 0x200);
    assert(two_to(10) == 0x400);
    assert(two_to(11) == 0x800);
    assert(two_to(12) == 0x1000);
    assert(two_to(13) == 0x2000);
    assert(two_to(14) == 0x4000);
    assert(two_to(15) == 0x8000);
    assert(two_to(16) == 0x10000);
    assert(two_to(17) == 0x20000);
    assert(two_to(18) == 0x40000);
    assert(two_to(19) == 0x80000);
    assert(two_to(20) == 0x100000);
    assert(two_to(21) == 0x200000);
    assert(two_to(22) == 0x400000);
    assert(two_to(23) == 0x800000);
    assert(two_to(24) == 0x1000000);
    assert(two_to(25) == 0x2000000);
    assert(two_to(26) == 0x4000000);
    assert(two_to(27) == 0x8000000);
    assert(two_to(28) == 0x10000000);
    assert(two_to(29) == 0x20000000);
    assert(two_to(30) == 0x40000000);
}

/// Law: bytes whose bits are the codes of a text, one after the other, filled up
/// with ones to a whole byte, stand for that text.
pub proof fn law_text_is_decoded(text: Seq<u8>, s: Seq<u8>)
    requires
        code_words(text).len() <= 8 * s.len() < code_words(text).len() + 8,
        bits_of(s).take(code_words(text).len() as int) == code_words(text),
        forall|j: int| code_words(text).len() <= j < 8 * s.len() ==> #[trigger] bits_of(s)[j] == 1,
    ensures
        huffman::huffman_decoded(s) == Some(text),
{
    assert(bits_of(s).subrange(0, code_words(text).len() as int) =~= bits_of(s).take(
        code_words(text).len() as int,
    ));
    lemma_text_is_read(s, 0, text);
}

/// Ones only.
proof fn lemma_ones(n: nat, i: int)
    requires
        0 <= i < n,
    ensures
        number_bits(two_to(n) - 1, n).len() == n,
        number_bits(two_to(n) - 1, n)[i] == 1,
    decreases n,
{
    let v = two_to(n) - 1;
    let m = (n - 1) as nat;
    lemma_two_to(m);
    lemma_number_len(v, n);
    lemma_number_len(v / 2, m);
    assert(two_to(n) == 2 * two_to(m));
    assert(v / 2 == two_to(m) - 1 && v % 2 == 1);
    if i < m {
        lemma_ones(m, i);
    }
}

/// A code that is found is that of its symbol.
proof fn lemma_found(len: nat, code: int)
    requires
        huffman::symbol_of(len, code) is Some,
    ensures
        code_word(huffman::symbol_of(len, code)->0) == number_bits(code, len),
{
    let (first, count, skipped) = huffman::codes_of(len);
    let p = skipped + code - first;
    lemma_codes(len);
    lemma_symbols();
    let b = huffman::symbols()[p];
    assert(huffman::symbols().contains(b));
    let q = huffman::symbols().index_of(b);
    assert(0 <= q < 256 && huffman::symbols()[q] == b);
    if q < p {
        lemma_distinct(q, p);
    } else if p < q {
        lemma_distinct(p, q);
    }
    assert(length_at(p) == len);
}

/// What is read from bit `i` on, of a code of which `len` bits were read.
proof fn lemma_read_is_text(s: Seq<u8>, i: int, len: nat, code: int)
    requires
        len <= i <= 8 * s.len(),
        0 <= code,
        bits_of(s).subrange(i - len, i) == number_bits(code, len),
        huffman::symbols_from(s, i, len, code) is Some,
    ensures
        ({
            let words = code_words(huffman::symbols_from(s, i, len, code)->0);
            let end = i - len + words.len();
            &&& end <= 8 * s.len() < end + 8
            &&& bits_of(s).subrange(i - len, end) == words
            &&& forall|j: int| end <= j < 8 * s.len() ==> #[trigger] bits_of(s)[j] == 1
        }),
    decreases 8 * s.len() - i,
{
    let text = huffman::symbols_from(s, i, len, code)->0;
    let words = code_words(text);
    let from = i - len;
    if i >= 8 * s.len() {
        lemma_two_to(len);
        assert(words =~= Seq::<int>::empty());
        assert(bits_of(s).subrange(from, from) =~= Seq::<int>::empty());
        assert forall|j: int| from <= j < 8 * s.len() implies #[trigger] bits_of(s)[j] == 1 by {
            lemma_ones(len, j - from);
            assert(bits_of(s).subrange(from, i)[j - from] == bits_of(s)[j]);
        }
    } else {
        lemma_bit(s, i);
        let bit = huffman::bit(s, i);
        let next = 2 * code + bit;
        assert(bit == 0 || bit == 1);
        assert(next / 2 == code && next % 2 == bit);
        assert(bits_of(s).subrange(from, i + 1) =~= bits_of(s).subrange(from, i).push(bit));
        assert(bits_of(s).subrange(from, i + 1) == number_bits(next, len + 1));
        match huffman::symbol_of(len + 1, next) {
            Some(b) => {
                let rest = huffman::symbols_from(s, i + 1, 0, 0)->0;
                lemma_found(len + 1, next);
                assert(bits_of(s).subrange(i + 1, i + 1) =~= number_bits(0, 0));
                lemma_read_is_text(s, i + 1, 0, 0);
                assert(text[0] == b);
                assert(text.drop_first() =~= rest);
                assert(words == code_word(b) + code_words(rest));
                lemma_number_len(next, len + 1);
                let end = from + words.len();
                assert(end == i + 1 + code_words(rest).len());
                assert(bits_of(s).subrange(from, end) =~= bits_of(s).subrange(from, i + 1)
                    + bits_of(s).subrange(i + 1, end));
            },
            None => {
                lemma_read_is_text(s, i + 1, len + 1, next);
            },
        }
    }
}

/// Law: only that stands for a text. Bytes that are read as one are its codes, one
/// after the other, with fewer than eight bits behind them, all of them ones;
/// anything else is refused: other padding, a whole byte of it, a code cut short,
/// the mark of the end.
pub proof fn law_decoded_is_encoded(s: Seq<u8>)
    requires
        huffman::huffman_decoded(s) is Some,
    ensures
        ({
            let words = code_words(huffman::huffman_decoded(s)->0);
            &&& words.len() <= 8 * s.len() < words.len() + 8
            &&& bits_of(s).take(words.len() as int) == words
            &&& forall|j: int| words.len() <= j < 8 * s.len() ==> #[trigger] bits_of(s)[j] == 1
        }),
{
    assert(bits_of(s).subrange(0, 0) =~= number_bits(0, 0));
    lemma_read_is_text(s, 0, 0, 0);
    let words = code_words(huffman::huffman_decoded(s)->0);
    assert(bits_of(s).subrange(0, words.len() as int) =~= bits_of(s).take(words.len() as int));
}

} // verus!
