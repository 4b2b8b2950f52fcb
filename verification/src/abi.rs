//! The byte layout of a state object: the tuple of a byte string, an
//! address and a byte string, in the encoding of contract calls.
use vstd::prelude::*;

verus! {

/// The word of a length or an offset: 32 bytes, the number in the last
/// four, most significant first.
pub open spec fn abi_word(n: int) -> Seq<u8> {
    Seq::new(
        32,
        |i: int|
            if i < 28 {
                0u8
            } else if i == 28 {
                ((n / 0x100_0000) % 0x100) as u8
            } else if i == 29 {
                ((n / 0x1_0000) % 0x100) as u8
            } else if i == 30 {
                ((n / 0x100) % 0x100) as u8
            } else {
                (n % 0x100) as u8
            },
    )
}

/// The length of `n` bytes once padded to whole words.
pub open spec fn abi_padded_len(n: int) -> int {
    ((n + 31) / 32) * 32
}

/// The bytes `b`, followed by zeros up to a whole number of words.
pub open spec fn abi_padded(b: Seq<u8>) -> Seq<u8> {
    Seq::new(abi_padded_len(b.len() as int) as nat, |i: int| if i < b.len() { b[i] } else { 0u8 })
}

/// The word of an address: twelve zeros, then the twenty bytes.
pub open spec fn abi_address_word(a: Seq<u8>) -> Seq<u8> {
    Seq::new(32, |i: int| if i < 12 { 0u8 } else { a[i - 12] })
}

/// The length of the encoding of a state object whose identifier has
/// `id_len` bytes and whose data has `data_len` bytes.
pub open spec fn abi_layout_len(id_len: int, data_len: int) -> int {
    160 + abi_padded_len(id_len) + abi_padded_len(data_len)
}

/// The encoding can be computed: its length fits the 32 bits in which the
/// encoding library counts, and the buffer that the library asks for, of
/// a word for each byte of the encoding, can be allocated.
pub open spec fn abi_fits(id_len: int, data_len: int) -> bool {
    &&& abi_layout_len(id_len, data_len) <= 0xffff_ffff
    &&& abi_layout_len(id_len, data_len) * 32 <= isize::MAX
}

/// The machine's addresses are wide enough for the sums of two numbers of
/// 32 bits that the encoding library forms when it decodes.
pub open spec fn abi_can_decode() -> bool {
    usize::MAX >= 0x2_0000_0040
}

/// The encoding of a state object.  The head is three words: where the
/// identifier stands, the address, where the data stands.  The tail is,
/// for the identifier and then for the data, the word of the length and
/// the bytes, padded to whole words.
pub open spec fn abi_layout(id: Seq<u8>, predicate: Seq<u8>, data: Seq<u8>) -> Seq<u8> {
    abi_word(96) + abi_address_word(predicate) + abi_word(128 + abi_padded_len(id.len() as int)) + abi_word(
        id.len() as int,
    ) + abi_padded(id) + abi_word(data.len() as int) + abi_padded(data)
}

/// The word at `at`, if there is a whole word.
pub open spec fn abi_peek(bytes: Seq<u8>, at: int) -> Option<Seq<u8>> {
    if 0 <= at && at + 32 <= bytes.len() {
        Some(bytes.subrange(at, at + 32))
    } else {
        None
    }
}

/// The number that a word holds, if the word holds a number of 32 bits.
pub open spec fn abi_word_value(w: Seq<u8>) -> Option<int> {
    if forall|i: int| 0 <= i < 28 ==> w[i] == 0 {
        Some(w[28] * 0x100_0000 + w[29] * 0x1_0000 + w[30] * 0x100 + w[31])
    } else {
        None
    }
}

/// The byte string whose place the word at `at` gives: the word holds an
/// offset, at the offset stands the word of a length, and after it as
/// many bytes.
pub open spec fn abi_read_bytes(bytes: Seq<u8>, at: int) -> Option<Seq<u8>> {
    match abi_peek(bytes, at) {
        None => None,
        Some(w) => match abi_word_value(w) {
            None => None,
            Some(offset) => match abi_peek(bytes, offset) {
                None => None,
                Some(lw) => match abi_word_value(lw) {
                    None => None,
                    Some(len) => if offset + 32 + len <= bytes.len() {
                        Some(bytes.subrange(offset + 32, offset + 32 + len))
                    } else {
                        None
                    },
                },
            },
        },
    }
}

/// What `bytes` decode to, as identifier, address and data; `None` if
/// they are not the encoding of a state object: a word is cut short or
/// does not hold a number of 32 bits, or an offset or a length leads
/// beyond the end.
pub open spec fn abi_parse(bytes: Seq<u8>) -> Option<(Seq<u8>, Seq<u8>, Seq<u8>)> {
    match abi_read_bytes(bytes, 0) {
        None => None,
        Some(id) => match abi_peek(bytes, 32) {
            None => None,
            Some(w) => match abi_read_bytes(bytes, 64) {
                None => None,
                Some(data) => Some((id, w.subrange(12, 32), data)),
            },
        },
    }
}

/// A word holds the number it was made of.
pub proof fn lemma_word_value(n: int)
    requires
        0 <= n <= 0xffff_ffff,
    ensures
        abi_word(n).len() == 32,
        abi_word_value(abi_word(n)) == Some(n),
{
    let w = abi_word(n);
    assert(forall|i: int| 0 <= i < 28 ==> w[i] == 0);
    assert(w[28] == ((n / 0x100_0000) % 0x100) as u8);
    assert(w[29] == ((n / 0x1_0000) % 0x100) as u8);
    assert(w[30] == ((n / 0x100) % 0x100) as u8);
    assert(w[31] == (n % 0x100) as u8);
}

/// Within an encoding the length word that stands at `at` and the bytes
/// after it are read back as the bytes.
proof fn lemma_read_tail(bytes: Seq<u8>, at: int, b: Seq<u8>)
    requires
        0 <= at,
        b.len() <= 0xffff_ffff,
        at + 32 + abi_padded_len(b.len() as int) <= bytes.len(),
        bytes.subrange(at, at + 32) == abi_word(b.len() as int),
        bytes.subrange(at + 32, at + 32 + abi_padded_len(b.len() as int)) == abi_padded(b),
    ensures
        abi_peek(bytes, at) == Some(abi_word(b.len() as int)),
        at + 32 + b.len() <= bytes.len(),
        bytes.subrange(at + 32, at + 32 + b.len()) == b,
{
    let padded = bytes.subrange(at + 32, at + 32 + abi_padded_len(b.len() as int));
    assert forall|i: int| 0 <= i < b.len() implies bytes[at + 32 + i] == b[i] by {
        assert(padded[i] == bytes[at + 32 + i]);
    }
    assert(bytes.subrange(at + 32, at + 32 + b.len()) =~= b);
}

/// Round trip: the encoding of a state object decodes to the object.
pub proof fn lemma_abi_round_trip(id: Seq<u8>, predicate: Seq<u8>, data: Seq<u8>)
    requires
        predicate.len() == 20,
        abi_fits(id.len() as int, data.len() as int),
    ensures
        abi_layout(id, predicate, data).len() == abi_layout_len(id.len() as int, data.len() as int),
        abi_parse(abi_layout(id, predicate, data)) == Some((id, predicate, data)),
{
    let bytes = abi_layout(id, predicate, data);
    let id_at = 96int;
    let data_at = 128 + abi_padded_len(id.len() as int);
    lemma_word_value(id_at);
    lemma_word_value(data_at);
    lemma_word_value(id.len() as int);
    lemma_word_value(data.len() as int);
    assert(bytes.len() == abi_layout_len(id.len() as int, data.len() as int));
    assert(bytes.subrange(0, 32) =~= abi_word(id_at));
    assert(bytes.subrange(32, 64) =~= abi_address_word(predicate));
    assert(bytes.subrange(64, 96) =~= abi_word(data_at));
    assert(bytes.subrange(id_at, id_at + 32) =~= abi_word(id.len() as int));
    assert(bytes.subrange(id_at + 32, id_at + 32 + abi_padded_len(id.len() as int)) =~= abi_padded(id));
    assert(bytes.subrange(data_at, data_at + 32) =~= abi_word(data.len() as int));
    assert(bytes.subrange(data_at + 32, data_at + 32 + abi_padded_len(data.len() as int)) =~= abi_padded(data));
    lemma_read_tail(bytes, id_at, id);
    lemma_read_tail(bytes, data_at, data);
    assert(abi_read_bytes(bytes, 0) == Some(id));
    assert(abi_read_bytes(bytes, 64) == Some(data));
    assert(abi_address_word(predicate).subrange(12, 32) =~= predicate);
}

} // verus!
