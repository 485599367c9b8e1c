//! The three code tables that the format fixes.

use crate::codes::{complete, left, offset, CanonicalHuffman, Code};
use vstd::prelude::*;

verus! {

/// The counts of the table for literal bytes, where a stream codes them.
pub open spec fn literal_counts() -> Seq<u8> {
    seq![
        0u8, 0, 0, 0, 1, 11, 20, 21, 16, 7, 5, 10, 91, 74,
    ]
}

/// The symbols of the table for literal bytes, where a stream codes them, in the order of their codes.
pub open spec fn literal_symbols() -> Seq<u8> {
    seq![
        32u8, 69, 97, 101, 105, 108, 110, 111, 114, 115, 116, 117, 45, 49, 65, 67,
        68, 73, 76, 78, 79, 82, 83, 84, 98, 99, 100, 102, 103, 104, 109, 112,
        10, 13, 40, 41, 44, 46, 48, 50, 51, 52, 53, 55, 56, 61, 66, 70,
        77, 80, 85, 107, 119, 9, 34, 39, 42, 47, 54, 57, 58, 71, 72, 87,
        91, 95, 118, 120, 121, 43, 62, 75, 86, 88, 89, 93, 33, 36, 38, 113,
        122, 0, 60, 63, 74, 81, 90, 92, 106, 123, 124, 1, 2, 3, 4, 5,
        6, 7, 8, 11, 12, 14, 15, 16, 17, 18, 19, 20, 21, 22, 23, 24,
        25, 27, 28, 29, 30, 31, 35, 37, 59, 64, 94, 96, 125, 126, 127, 176,
        177, 178, 179, 180, 181, 182, 183, 184, 185, 186, 187, 188, 189, 190, 191, 192,
        193, 194, 195, 196, 197, 198, 199, 200, 201, 202, 203, 204, 205, 206, 207, 208,
        209, 210, 211, 212, 213, 214, 215, 216, 217, 218, 219, 220, 221, 222, 223, 225,
        229, 233, 238, 242, 243, 244, 26, 128, 129, 130, 131, 132, 133, 134, 135, 136,
        137, 138, 139, 140, 141, 142, 143, 144, 145, 146, 147, 148, 149, 150, 151, 152,
        153, 154, 155, 156, 157, 158, 159, 160, 161, 162, 163, 164, 165, 166, 167, 168,
        169, 170, 171, 172, 173, 174, 175, 224, 226, 227, 228, 230, 231, 232, 234, 235,
        236, 237, 239, 240, 241, 245, 246, 247, 248, 249, 250, 251, 252, 253, 254, 255,
    ]
}

/// The table for literal bytes, where a stream codes them.
pub open spec fn literal_code() -> Code {
    Code { counts: literal_counts(), symbols: literal_symbols() }
}

/// The table is well-formed and its codes use up the code space, so that
/// every bit string is a code or begins one.
pub proof fn lemma_literal_complete()
    ensures
        literal_code().wf(),
        complete(literal_counts()),
{
    reveal_with_fuel(left, 15);
    reveal_with_fuel(offset, 15);
}

/// Builds the table for literal bytes, where a stream codes them.
pub fn literal() -> (table: CanonicalHuffman)
    ensures
        table.wf(),
        table@ == literal_code(),
{
    proof {
        lemma_literal_complete();
    }
    let counts: [u8; 14] = [
        0, 0, 0, 0, 1, 11, 20, 21, 16, 7, 5, 10, 91, 74,
    ];
    let symbols: [u8; 256] = [
        32, 69, 97, 101, 105, 108, 110, 111, 114, 115, 116, 117, 45, 49, 65, 67,
        68, 73, 76, 78, 79, 82, 83, 84, 98, 99, 100, 102, 103, 104, 109, 112,
        10, 13, 40, 41, 44, 46, 48, 50, 51, 52, 53, 55, 56, 61, 66, 70,
        77, 80, 85, 107, 119, 9, 34, 39, 42, 47, 54, 57, 58, 71, 72, 87,
        91, 95, 118, 120, 121, 43, 62, 75, 86, 88, 89, 93, 33, 36, 38, 113,
        122, 0, 60, 63, 74, 81, 90, 92, 106, 123, 124, 1, 2, 3, 4, 5,
        6, 7, 8, 11, 12, 14, 15, 16, 17, 18, 19, 20, 21, 22, 23, 24,
        25, 27, 28, 29, 30, 31, 35, 37, 59, 64, 94, 96, 125, 126, 127, 176,
        177, 178, 179, 180, 181, 182, 183, 184, 185, 186, 187, 188, 189, 190, 191, 192,
        193, 194, 195, 196, 197, 198, 199, 200, 201, 202, 203, 204, 205, 206, 207, 208,
        209, 210, 211, 212, 213, 214, 215, 216, 217, 218, 219, 220, 221, 222, 223, 225,
        229, 233, 238, 242, 243, 244, 26, 128, 129, 130, 131, 132, 133, 134, 135, 136,
        137, 138, 139, 140, 141, 142, 143, 144, 145, 146, 147, 148, 149, 150, 151, 152,
        153, 154, 155, 156, 157, 158, 159, 160, 161, 162, 163, 164, 165, 166, 167, 168,
        169, 170, 171, 172, 173, 174, 175, 224, 226, 227, 228, 230, 231, 232, 234, 235,
        236, 237, 239, 240, 241, 245, 246, 247, 248, 249, 250, 251, 252, 253, 254, 255,
    ];
    assert(counts@ =~= literal_counts());
    assert(symbols@ =~= literal_symbols());
    CanonicalHuffman::new(counts.as_slice(), symbols.as_slice())
}

/// The counts of the table for the lengths of back-references.
pub open spec fn length_counts() -> Seq<u8> {
    seq![
        0u8, 0, 1, 3, 3, 4, 3, 2,
    ]
}

/// The symbols of the table for the lengths of back-references, in the order of their codes.
pub open spec fn length_symbols() -> Seq<u8> {
    seq![
        0u8, 1, 2, 3, 4, 5, 6, 7, 8, 9, 10, 11, 12, 13, 14, 15,
    ]
}

/// The table for the lengths of back-references.
pub open spec fn length_code() -> Code {
    Code { counts: length_counts(), symbols: length_symbols() }
}

/// The table is well-formed and its codes use up the code space, so that
/// every bit string is a code or begins one.
pub proof fn lemma_length_complete()
    ensures
        length_code().wf(),
        complete(length_counts()),
{
    reveal_with_fuel(left, 9);
    reveal_with_fuel(offset, 9);
}

/// Builds the table for the lengths of back-references.
pub fn length() -> (table: CanonicalHuffman)
    ensures
        table.wf(),
        table@ == length_code(),
{
    proof {
        lemma_length_complete();
    }
    let counts: [u8; 8] = [
        0, 0, 1, 3, 3, 4, 3, 2,
    ];
    let symbols: [u8; 16] = [
        0, 1, 2, 3, 4, 5, 6, 7, 8, 9, 10, 11, 12, 13, 14, 15,
    ];
    assert(counts@ =~= length_counts());
    assert(symbols@ =~= length_symbols());
    CanonicalHuffman::new(counts.as_slice(), symbols.as_slice())
}

/// The counts of the table for the high bits of the distances of back-references.
pub open spec fn distance_counts() -> Seq<u8> {
    seq![
        0u8, 0, 1, 0, 2, 4, 15, 26, 16,
    ]
}

/// The symbols of the table for the high bits of the distances of back-references, in the order of their codes.
pub open spec fn distance_symbols() -> Seq<u8> {
    seq![
        0u8, 1, 2, 3, 4, 5, 6, 7, 8, 9, 10, 11, 12, 13, 14, 15,
        16, 17, 18, 19, 20, 21, 22, 23, 24, 25, 26, 27, 28, 29, 30, 31,
        32, 33, 34, 35, 36, 37, 38, 39, 40, 41, 42, 43, 44, 45, 46, 47,
        48, 49, 50, 51, 52, 53, 54, 55, 56, 57, 58, 59, 60, 61, 62, 63,
    ]
}

/// The table for the high bits of the distances of back-references.
pub open spec fn distance_code() -> Code {
    Code { counts: distance_counts(), symbols: distance_symbols() }
}

/// The table is well-formed and its codes use up the code space, so that
/// every bit string is a code or begins one.
pub proof fn lemma_distance_complete()
    ensures
        distance_code().wf(),
        complete(distance_counts()),
{
    reveal_with_fuel(left, 10);
    reveal_with_fuel(offset, 10);
}

/// Builds the table for the high bits of the distances of back-references.
pub fn distance() -> (table: CanonicalHuffman)
    ensures
        table.wf(),
        table@ == distance_code(),
{
    proof {
        lemma_distance_complete();
    }
    let counts: [u8; 9] = [
        0, 0, 1, 0, 2, 4, 15, 26, 16,
    ];
    let symbols: [u8; 64] = [
        0, 1, 2, 3, 4, 5, 6, 7, 8, 9, 10, 11, 12, 13, 14, 15,
        16, 17, 18, 19, 20, 21, 22, 23, 24, 25, 26, 27, 28, 29, 30, 31,
        32, 33, 34, 35, 36, 37, 38, 39, 40, 41, 42, 43, 44, 45, 46, 47,
        48, 49, 50, 51, 52, 53, 54, 55, 56, 57, 58, 59, 60, 61, 62, 63,
    ];
    assert(counts@ =~= distance_counts());
    assert(symbols@ =~= distance_symbols());
    CanonicalHuffman::new(counts.as_slice(), symbols.as_slice())
}

} // verus!
