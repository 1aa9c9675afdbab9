use crate::storage::blob::Blob;
use vstd::bytes::{
    lemma_auto_spec_u64_to_from_le_bytes, spec_u64_from_le_bytes, spec_u64_to_le_bytes,
    u64_from_le_bytes, u64_to_le_bytes,
};
use vstd::prelude::*;
use vstd::slice::slice_subrange;

verus! {

/// Bytes in one stored sample: eight of the timestamp, eight of the value.
pub const RECORD_SIZE: usize = 16;

/// The order in which the eight bytes of a word are laid out. A page file is
/// written in its machine's own order, which the caller names.
#[derive(PartialEq, Eq, Structural, Clone, Copy, Debug)]
pub enum ByteOrder {
    Little,
    Big,
}

/// The eight bytes of a word.
pub open spec fn word_bytes(word: u64, order: ByteOrder) -> Seq<u8> {
    match order {
        ByteOrder::Little => spec_u64_to_le_bytes(word),
        ByteOrder::Big => spec_u64_to_le_bytes(word).reverse(),
    }
}

/// The word that eight bytes spell out.
pub open spec fn word_of(bytes: Seq<u8>, order: ByteOrder) -> u64 {
    match order {
        ByteOrder::Little => spec_u64_from_le_bytes(bytes),
        ByteOrder::Big => spec_u64_from_le_bytes(bytes.reverse()),
    }
}

/// A signed timestamp as the unsigned word with the same bits.
pub open spec fn unsigned(time: i64) -> u64 {
    if time >= 0 {
        time as u64
    } else {
        (time + 0x1_0000_0000_0000_0000) as u64
    }
}

/// The signed timestamp with the bits of a word.
pub open spec fn signed(word: u64) -> i64 {
    if word < 0x8000_0000_0000_0000 {
        word as i64
    } else {
        (word - 0x1_0000_0000_0000_0000) as i64
    }
}

/// The sixteen bytes of one sample: the timestamp, then the value.
pub open spec fn encode_record(blob: Blob, order: ByteOrder) -> Seq<u8> {
    word_bytes(unsigned(blob.timestamp), order) + word_bytes(blob.data, order)
}

/// The sample that sixteen bytes spell out.
pub open spec fn decode_record(bytes: Seq<u8>, order: ByteOrder) -> Blob {
    Blob {
        timestamp: signed(word_of(bytes.subrange(0, 8), order)),
        data: word_of(bytes.subrange(8, 16), order),
    }
}

/// The bytes of a run of samples: their records one after the other.
pub open spec fn encode_all(blobs: Seq<Blob>, order: ByteOrder) -> Seq<u8>
    decreases blobs.len(),
{
    if blobs.len() == 0 {
        Seq::empty()
    } else {
        encode_all(blobs.drop_last(), order) + encode_record(blobs.last(), order)
    }
}

/// The samples that a page's bytes hold: one for each whole record. Bytes
/// after the last whole record are not read.
pub open spec fn decode_all(bytes: Seq<u8>, order: ByteOrder) -> Seq<Blob> {
    Seq::new(
        (bytes.len() / 16) as nat,
        |i: int| decode_record(bytes.subrange(16 * i, 16 * i + 16), order),
    )
}

/// Eight bytes spell out the word they were made from, in either order.
pub proof fn lemma_word_round_trip(word: u64, order: ByteOrder)
    ensures
        word_bytes(word, order).len() == 8,
        word_of(word_bytes(word, order), order) == word,
{
    lemma_auto_spec_u64_to_from_le_bytes();
    let le = spec_u64_to_le_bytes(word);
    assert(le.reverse().reverse() =~= le);
}

/// A timestamp is the signed reading of its unsigned word.
pub proof fn lemma_sign_round_trip(time: i64)
    ensures
        signed(unsigned(time)) == time,
{
}

/// A record is sixteen bytes that spell out the sample it was made from.
pub proof fn lemma_record_round_trip(blob: Blob, order: ByteOrder)
    ensures
        encode_record(blob, order).len() == 16,
        decode_record(encode_record(blob, order), order) == blob,
{
    lemma_word_round_trip(unsigned(blob.timestamp), order);
    lemma_word_round_trip(blob.data, order);
    lemma_sign_round_trip(blob.timestamp);
    let head = word_bytes(unsigned(blob.timestamp), order);
    let tail = word_bytes(blob.data, order);
    assert((head + tail).subrange(0, 8) =~= head);
    assert((head + tail).subrange(8, 16) =~= tail);
}

/// A run of samples takes sixteen bytes each.
pub proof fn lemma_encode_len(blobs: Seq<Blob>, order: ByteOrder)
    ensures
        encode_all(blobs, order).len() == 16 * blobs.len(),
    decreases blobs.len(),
{
    if blobs.len() > 0 {
        lemma_encode_len(blobs.drop_last(), order);
        lemma_record_round_trip(blobs.last(), order);
    }
}

/// Records appended to a page of whole records are read back behind the
/// samples that the page held, whatever incomplete record follows them.
pub proof fn lemma_decode_appended(
    page: Seq<u8>,
    blobs: Seq<Blob>,
    rest: Seq<u8>,
    order: ByteOrder,
)
    requires
        page.len() % 16 == 0,
        rest.len() < 16,
    ensures
        decode_all(page + encode_all(blobs, order) + rest, order) == decode_all(page, order)
            + blobs,
    decreases blobs.len(),
{
    let bytes = page + encode_all(blobs, order) + rest;
    let whole = decode_all(page, order) + blobs;
    lemma_encode_len(blobs, order);
    assert(bytes.len() / 16 == page.len() / 16 + blobs.len());
    assert(decode_all(bytes, order).len() == whole.len());
    assert forall|i: int| 0 <= i < whole.len() implies decode_all(bytes, order)[i] == whole[i] by {
        let held = page.len() / 16;
        if i < held {
            assert(bytes.subrange(16 * i, 16 * i + 16) =~= page.subrange(16 * i, 16 * i + 16));
        } else {
            let k = i - held;
            lemma_record_at(blobs, k, order);
            assert(bytes.subrange(16 * i, 16 * i + 16) =~= encode_all(blobs, order).subrange(
                16 * k,
                16 * k + 16,
            ));
            lemma_record_round_trip(blobs[k], order);
        }
    }
    assert(decode_all(bytes, order) =~= whole);
}

/// The `k`-th sixteen bytes of a run's encoding are the record of its `k`-th sample.
pub proof fn lemma_record_at(blobs: Seq<Blob>, k: int, order: ByteOrder)
    requires
        0 <= k < blobs.len(),
    ensures
        encode_all(blobs, order).len() == 16 * blobs.len(),
        encode_all(blobs, order).subrange(16 * k, 16 * k + 16) == encode_record(blobs[k], order),
    decreases blobs.len(),
{
    lemma_encode_len(blobs, order);
    lemma_encode_len(blobs.drop_last(), order);
    lemma_record_round_trip(blobs.last(), order);
    let front = encode_all(blobs.drop_last(), order);
    let last = encode_record(blobs.last(), order);
    if k == blobs.len() - 1 {
        assert((front + last).subrange(16 * k, 16 * k + 16) =~= last);
    } else {
        lemma_record_at(blobs.drop_last(), k, order);
        assert((front + last).subrange(16 * k, 16 * k + 16) =~= front.subrange(16 * k, 16 * k + 16));
    }
}

/// What was written is what is read: a run of samples comes back from its own
/// encoding.
pub proof fn lemma_page_round_trip(blobs: Seq<Blob>, order: ByteOrder)
    ensures
        decode_all(encode_all(blobs, order), order) == blobs,
{
    lemma_decode_appended(Seq::empty(), blobs, Seq::empty(), order);
    assert(Seq::<u8>::empty() + encode_all(blobs, order) + Seq::<u8>::empty() =~= encode_all(
        blobs,
        order,
    ));
    assert(decode_all(Seq::<u8>::empty(), order) + blobs =~= blobs);
}

/// The unsigned word with the bits of a timestamp.
pub fn to_unsigned(time: i64) -> (word: u64)
    ensures
        word == unsigned(time),
{
    if time >= 0 {
        time as u64
    } else {
        ((time + 1 + i64::MAX) as u64) + 0x8000_0000_0000_0000
    }
}

/// The timestamp with the bits of an unsigned word.
pub fn to_signed(word: u64) -> (time: i64)
    ensures
        time == signed(word),
{
    if word < 0x8000_0000_0000_0000 {
        word as i64
    } else {
        ((word - 0x8000_0000_0000_0000) as i64) + i64::MIN
    }
}

/// Appends the eight bytes of a word to a buffer.
pub fn put_word(out: &mut Vec<u8>, word: u64, order: ByteOrder)
    ensures
        final(out)@ == old(out)@ + word_bytes(word, order),
{
    proof {
        lemma_auto_spec_u64_to_from_le_bytes();
    }
    let le = u64_to_le_bytes(word);
    let ghost before = out@;
    match order {
        ByteOrder::Little => {
            let mut i: usize = 0;
            while i < 8
                invariant
                    i <= 8,
                    le@.len() == 8,
                    out@ == before + le@.subrange(0, i as int),
                decreases 8 - i,
            {
                out.push(le[i]);
                assert(le@.subrange(0, i + 1) =~= le@.subrange(0, i as int).push(le@[i as int]));
                i += 1;
                assert(out@ =~= before + le@.subrange(0, i as int));
            }
            assert(le@.subrange(0, 8) =~= le@);
        },
        ByteOrder::Big => {
            let mut i: usize = 0;
            while i < 8
                invariant
                    i <= 8,
                    le@.len() == 8,
                    out@ == before + le@.reverse().subrange(0, i as int),
                decreases 8 - i,
            {
                out.push(le[7 - i]);
                assert(le@.reverse().subrange(0, i + 1) =~= le@.reverse().subrange(0, i as int).push(
                    le@[7 - i],
                ));
                i += 1;
                assert(out@ =~= before + le@.reverse().subrange(0, i as int));
            }
            assert(le@.reverse().subrange(0, 8) =~= le@.reverse());
        },
    }
}

/// Reads the word that the eight bytes from `at` on spell out.
pub fn get_word(bytes: &[u8], at: usize, order: ByteOrder) -> (word: u64)
    requires
        at + 8 <= bytes@.len(),
    ensures
        word == word_of(bytes@.subrange(at as int, at + 8), order),
{
    let total = bytes.len();
    assert(at + 8 <= total);
    let chunk = slice_subrange(bytes, at, at + 8);
    match order {
        ByteOrder::Little => u64_from_le_bytes(chunk),
        ByteOrder::Big => {
            let mut turned: Vec<u8> = Vec::new();
            let mut i: usize = 0;
            while i < 8
                invariant
                    i <= 8,
                    chunk@.len() == 8,
                    turned@ == chunk@.reverse().subrange(0, i as int),
                decreases 8 - i,
            {
                turned.push(chunk[7 - i]);
                assert(chunk@.reverse().subrange(0, i + 1) =~= chunk@.reverse().subrange(
                    0,
                    i as int,
                ).push(chunk@[7 - i]));
                i += 1;
            }
            assert(chunk@.reverse().subrange(0, 8) =~= chunk@.reverse());
            u64_from_le_bytes(turned.as_slice())
        },
    }
}

/// The bytes of a run of samples, ready to be appended to their page's file.
pub fn encode_page(blobs: &Vec<Blob>, order: ByteOrder) -> (bytes: Vec<u8>)
    ensures
        bytes@ == encode_all(blobs@, order),
{
    let mut bytes: Vec<u8> = Vec::new();
    let mut i: usize = 0;
    while i < blobs.len()
        invariant
            i <= blobs.len(),
            bytes@ == encode_all(blobs@.subrange(0, i as int), order),
        decreases blobs.len() - i,
    {
        let blob = blobs[i];
        let ghost before = bytes@;
        put_word(&mut bytes, to_unsigned(blob.timestamp), order);
        put_word(&mut bytes, blob.data, order);
        proof {
            let done = blobs@.subrange(0, i + 1);
            assert(done.drop_last() =~= blobs@.subrange(0, i as int));
            assert(done.last() == blob);
            assert(bytes@ =~= before + encode_record(blob, order));
        }
        i += 1;
    }
    assert(blobs@.subrange(0, blobs.len() as int) =~= blobs@);
    bytes
}

/// The samples that a page file holds. The file is read record by record; when
/// fewer than sixteen bytes are left, the data ends there.
pub fn decode_page(bytes: &[u8], order: ByteOrder) -> (blobs: Vec<Blob>)
    ensures
        blobs@ == decode_all(bytes@, order),
{
    let total = bytes.len();
    let count = total / 16;
    let mut blobs: Vec<Blob> = Vec::new();
    let mut i: usize = 0;
    while i < count
        invariant
            i <= count,
            total == bytes@.len(),
            count == total / 16,
            blobs@.len() == i,
            forall|k: int| 0 <= k < i ==> blobs@[k] == decode_all(bytes@, order)[k],
        decreases count - i,
    {
        let at = 16 * i;
        let time = to_signed(get_word(bytes, at, order));
        let data = get_word(bytes, at + 8, order);
        proof {
            let rec = bytes@.subrange(16 * i, 16 * i + 16);
            assert(rec.subrange(0, 8) =~= bytes@.subrange(at as int, at + 8));
            assert(rec.subrange(8, 16) =~= bytes@.subrange(at + 8, at + 16));
        }
        blobs.push(Blob { timestamp: time, data });
        i += 1;
    }
    assert(blobs@ =~= decode_all(bytes@, order));
    blobs
}

} // verus!
