//! What holds of encoding, decoding and correction together.

use vstd::prelude::*;
use crate::bits::flip_at;
use crate::bits::flipped;
use crate::bits::lemma_flipped_at;
use crate::bits::lemma_flipped_len;
use crate::bits::lemma_xor_bits;
use crate::codec::BCH;
use crate::encoder::lemma_remainder_len;
use crate::generator::lemma_generator;
use crate::nearest::ascending;
use crate::nearest::lemma_encoded_is_codeword;
use crate::nearest::lemma_located_boundary;
use crate::nearest::lemma_located_complete;
use crate::nearest::lemma_parity_unique;
use crate::nearest::lemma_located_sound;
use crate::nearest::within;
use crate::syndrome::is_codeword;

verus! {

/// A message followed by its parity bits is a codeword.
pub proof fn law_encoded_is_codeword(bch: BCH, msg: Seq<u8>)
    requires
        bch.wf(),
    ensures
        is_codeword(bch.gf(), bch.capability(), msg + bch.parity(msg)),
{
    lemma_encoded_is_codeword(bch.gf(), bch.capability(), msg);
}

/// The parity bits are the only bits that make a codeword of the message.
pub proof fn law_parity_unique(bch: BCH, msg: Seq<u8>, ecc: Seq<u8>)
    requires
        bch.wf(),
        ecc.len() == bch.parity_len(),
        forall|i: int| 0 <= i < ecc.len() ==> #[trigger] ecc[i] <= 1,
        bch.is_codeword(msg + ecc),
    ensures
        ecc == bch.parity(msg),
{
    lemma_parity_unique(bch.gf(), bch.capability(), msg, ecc);
}

/// Decoding a message together with the parity bits that
/// encoding gives for it finds no error.
pub proof fn law_round_trip(bch: BCH, msg: Seq<u8>)
    requires
        bch.wf(),
    ensures
        bch.errors(msg, bch.parity(msg)) == Some(Seq::<u32>::empty()),
{
    law_encoded_is_codeword(bch, msg);
}

/// Where one bit of a codeword, in the message or in
/// the parity, is inverted, decoding finds one error, at the position of
/// that bit, and correction at that position gives back the codeword, and
/// the message from what was received of the message.
pub proof fn law_single_error(bch: BCH, msg: Seq<u8>, p: nat)
    requires
        bch.wf(),
        msg.len() <= bch.message_len(),
        p < msg.len() + bch.parity_len(),
    ensures
        ({
            let word = msg + bch.parity(msg);
            let received = flip_at(word, p as int);
            let split = msg.len() as int;
            &&& bch.errors(received.take(split), received.skip(split)) == Some(seq![p as u32])
            &&& flipped(received, seq![p as u32]) == word
            &&& flipped(received.take(split), seq![p as u32]) == msg
        }),
{
    let gf = bch.gf();
    let word = msg + bch.parity(msg);
    let received = flip_at(word, p as int);
    let split = msg.len() as int;
    let one = seq![p as u32];
    gf.lemma_size();
    lemma_generator(gf, bch.capability());
    lemma_remainder_len(bch.gen(), msg);
    assert(one.drop_last() =~= Seq::<u32>::empty());
    assert(flipped(word, one.drop_last()) == word);
    assert(flipped(word, one) == received);
    assert(one[0] == p as u32);
    law_correction(bch, msg, one);
    let found = bch.errors(received.take(split), received.skip(split)).unwrap();
    assert(one.contains(p as u32));
    assert(found.contains(p as u32));
    assert(found =~= one);
}

/// Where bits of a codeword are inverted
/// at positions that differ from one another and are not more than the
/// capability, decoding finds exactly these positions, in ascending order,
/// and correction at the positions found gives back the codeword, and the
/// message from what was received of the message.
pub proof fn law_correction(bch: BCH, msg: Seq<u8>, ps: Seq<u32>)
    requires
        bch.wf(),
        msg.len() <= bch.message_len(),
        ps.len() <= bch.capability(),
        ps.no_duplicates(),
        within(ps, msg.len() + bch.parity_len()),
    ensures
        ({
            let word = msg + bch.parity(msg);
            let received = flipped(word, ps);
            let split = msg.len() as int;
            match bch.errors(received.take(split), received.skip(split)) {
                Some(found) => {
                    &&& found.len() == ps.len()
                    &&& forall|p: u32| found.contains(p) <==> ps.contains(p)
                    &&& ascending(found)
                    &&& flipped(received, found) == word
                    &&& flipped(received.take(split), found) == msg
                },
                None => false,
            }
        }),
{
    let gf = bch.gf();
    let t = bch.capability();
    let word = msg + bch.parity(msg);
    let received = flipped(word, ps);
    let split = msg.len() as int;
    gf.lemma_size();
    lemma_generator(gf, t);
    lemma_remainder_len(bch.gen(), msg);
    law_encoded_is_codeword(bch, msg);
    lemma_flipped_len(word, ps);
    assert(received.take(split) + received.skip(split) =~= received);
    lemma_located_complete(gf, t, word, ps);
    let found = bch.errors(received.take(split), received.skip(split)).unwrap();
    let head = received.take(split);
    lemma_flipped_len(head, found);
    assert forall|q: int| 0 <= q < split implies flipped(head, found)[q] == msg[q] by {
        lemma_flipped_at(word, ps, q);
        lemma_flipped_at(head, found, q);
        lemma_xor_bits(word[q], 0);
    }
    assert(flipped(head, found) =~= msg);
}

/// Whatever decoding finds in a word, it
/// finds no more positions than the capability, and inverting the bits at
/// the positions found gives a codeword.
pub proof fn law_found_gives_codeword(bch: BCH, msg: Seq<u8>, ecc: Seq<u8>)
    requires
        bch.wf(),
        msg.len() + ecc.len() <= bch.code_len(),
    ensures
        match bch.errors(msg, ecc) {
            Some(found) => {
                &&& found.len() <= bch.capability()
                &&& ascending(found)
                &&& within(found, msg.len() + ecc.len())
                &&& is_codeword(bch.gf(), bch.capability(), flipped(msg + ecc, found))
            },
            None => true,
        },
{
    lemma_located_sound(bch.gf(), bch.capability(), msg + ecc);
}

/// Where the word differs from some codeword at no
/// more positions than the capability, decoding finds these positions, so
/// that there is one such codeword only.
pub proof fn law_nearest_codeword(
    bch: BCH,
    msg: Seq<u8>,
    ecc: Seq<u8>,
    cw: Seq<u8>,
    ps: Seq<u32>,
)
    requires
        bch.wf(),
        msg.len() + ecc.len() <= bch.code_len(),
        bch.differs_at(msg + ecc, cw, ps),
    ensures
        match bch.errors(msg, ecc) {
            Some(found) => {
                &&& found.len() == ps.len()
                &&& forall|p: u32| found.contains(p) <==> ps.contains(p)
                &&& flipped(msg + ecc, found) == cw
            },
            None => false,
        },
{
    lemma_flipped_len(cw, ps);
    lemma_located_complete(bch.gf(), bch.capability(), cw, ps);
}

/// Decoding gives a word up exactly where no
/// codeword differs from it in as few bits as the capability.
pub proof fn law_uncorrectable(bch: BCH, msg: Seq<u8>, ecc: Seq<u8>)
    requires
        bch.wf(),
        msg.len() + ecc.len() <= bch.code_len(),
    ensures
        bch.errors(msg, ecc).is_none() <==> !bch.near_codeword(msg + ecc),
{
    lemma_located_boundary(bch.gf(), bch.capability(), msg + ecc);
}

} // verus!
