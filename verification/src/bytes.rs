//! Buffer contents as bytes and as 32-bit words, in the machine's byte order.
use vstd::prelude::*;

verus! {

/// The word of four bytes, least significant first.
pub open spec fn little(b0: u8, b1: u8, b2: u8, b3: u8) -> int {
    b0 + 0x100 * b1 + 0x1_0000 * b2 + 0x100_0000 * b3
}

/// The bytes are those of the words, each from its least to its most
/// significant byte.
pub open spec fn little_endian(words: Seq<u32>, bytes: Seq<u8>) -> bool {
    &&& bytes.len() == 4 * words.len()
    &&& forall|i: int|
        0 <= i < words.len() ==> (#[trigger] words[i]) as int == little(
            bytes[4 * i],
            bytes[4 * i + 1],
            bytes[4 * i + 2],
            bytes[4 * i + 3],
        )
}

/// The bytes are those of the words, each from its most to its least
/// significant byte.
pub open spec fn big_endian(words: Seq<u32>, bytes: Seq<u8>) -> bool {
    &&& bytes.len() == 4 * words.len()
    &&& forall|i: int|
        0 <= i < words.len() ==> (#[trigger] words[i]) as int == little(
            bytes[4 * i + 3],
            bytes[4 * i + 2],
            bytes[4 * i + 1],
            bytes[4 * i],
        )
}

/// The bytes are those of the words, in one of the two byte orders.
pub open spec fn encodes(words: Seq<u32>, bytes: Seq<u8>) -> bool {
    little_endian(words, bytes) || big_endian(words, bytes)
}

/// The bytes of the words by `bytemuck::cast_slice`, which reinterprets the
/// memory: four bytes for each word, in the byte order of the machine. Which
/// of the two orders that is, is left open.
#[verifier::external_body]
fn cast_words(words: &Vec<u32>) -> (r: Vec<u8>)
    ensures
        encodes(words@, r@),
{
    bytemuck::cast_slice::<u32, u8>(words).to_vec()
}

/// The words of the bytes by `bytemuck::pod_collect_to_vec`, which copies the
/// bytes into the memory of new words, in the byte order of the machine. Which
/// of the two orders that is, is left open.
#[verifier::external_body]
fn collect_words(bytes: &Vec<u8>) -> (r: Vec<u32>)
    requires
        bytes@.len() % 4 == 0,
    ensures
        encodes(r@, bytes@),
{
    bytemuck::pod_collect_to_vec::<u8, u32>(bytes)
}

/// The contents of a device buffer that holds the words.
pub fn words_to_bytes(words: &Vec<u32>) -> (r: Vec<u8>)
    ensures
        encodes(words@, r@),
{
    cast_words(words)
}

/// The words that a device buffer holds. `None` if the bytes do not make whole
/// words.
pub fn bytes_to_words(bytes: &Vec<u8>) -> (r: Option<Vec<u32>>)
    ensures
        r is Some <==> bytes@.len() % 4 == 0,
        r matches Some(words) ==> encodes(words@, bytes@),
{
    if bytes.len() % 4 != 0 {
        return None;
    }
    Some(collect_words(bytes))
}

/// In each byte order, the bytes determine the words.
pub proof fn lemma_words_determined(a: Seq<u32>, b: Seq<u32>, bytes: Seq<u8>)
    requires
        little_endian(a, bytes) && little_endian(b, bytes) || big_endian(a, bytes) && big_endian(
            b,
            bytes,
        ),
    ensures
        a == b,
{
    assert forall|i: int| 0 <= i < a.len() implies a[i] == b[i] by {
        assert(a[i] as int == b[i] as int);
    }
    assert(a =~= b);
}

} // verus!
