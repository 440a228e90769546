use vstd::prelude::*;

use crate::error::FreeCellError;

verus! {

/// Stores the journey: the next deal to play and the deals skipped so far.
pub trait PersistJourney {
    /// Reads the stored journey.
    fn read(&self) -> (u16, Vec<u16>);

    /// Stores the journey.
    fn write(&self, next: u16, skipped: Vec<u16>);
}

/// The byte form of the journey as kept on disk.
pub struct DiskJourneyRepo {}

/// A 16-bit number as two bytes, high byte first.
pub open spec fn be16(x: u16) -> Seq<u8> {
    seq![(x / 256) as u8, (x % 256) as u8]
}

/// The two-byte numbers of `s`, one after the other.
pub open spec fn be16_all(s: Seq<u16>) -> Seq<u8>
    decreases s.len(),
{
    if s.len() == 0 {
        Seq::empty()
    } else {
        be16_all(s.drop_last()) + be16(s.last())
    }
}

/// The bytes of a journey: `next`, the number of skipped deals, then each
/// skipped deal, all as two-byte numbers, high byte first.
pub open spec fn spec_serialize(next: u16, skipped: Seq<u16>) -> Seq<u8> {
    be16(next) + be16(skipped.len() as u16) + be16_all(skipped)
}

/// The 16-bit number in bytes `i` and `i + 1` of `b`, high byte first.
pub open spec fn be16_at(b: Seq<u8>, i: int) -> u16 {
    (b[i] as int * 256 + b[i + 1] as int) as u16
}

/// The journey that the bytes `b` hold: `None` when there are fewer than four
/// bytes, or fewer than the count of skipped deals asks for. Bytes after those
/// are not read.
pub open spec fn spec_deserialize(b: Seq<u8>) -> Option<(u16, Seq<u16>)> {
    if b.len() < 4 {
        None
    } else {
        let n = be16_at(b, 2) as int;
        if b.len() < 4 + 2 * n {
            None
        } else {
            Some((be16_at(b, 0), Seq::new(n as nat, |i: int| be16_at(b, 4 + 2 * i))))
        }
    }
}

proof fn lemma_be16_all_len(s: Seq<u16>)
    ensures
        be16_all(s).len() == 2 * s.len(),
    decreases s.len(),
{
    if s.len() > 0 {
        lemma_be16_all_len(s.drop_last());
    }
}

proof fn lemma_be16_all_index(s: Seq<u16>, i: int)
    requires
        0 <= i < s.len(),
    ensures
        be16_all(s).len() == 2 * s.len(),
        be16_at(be16_all(s), 2 * i) == s[i],
    decreases s.len(),
{
    lemma_be16_all_len(s);
    lemma_be16_all_len(s.drop_last());
    if i < s.len() - 1 {
        lemma_be16_all_index(s.drop_last(), i);
    }
    let x = s[i];
    assert((x / 256) as u8 as int * 256 + (x % 256) as u8 as int == x);
}

/// Reading back the bytes of a journey gives the same journey.
pub proof fn lemma_serialize_round_trip(next: u16, skipped: Seq<u16>)
    requires
        skipped.len() <= 0xFFFF,
    ensures
        spec_deserialize(spec_serialize(next, skipped)) == Some((next, skipped)),
{
    let b = spec_serialize(next, skipped);
    lemma_be16_all_len(skipped);
    let n = skipped.len() as u16;
    assert((n / 256) as u8 as int * 256 + (n % 256) as u8 as int == n);
    assert((next / 256) as u8 as int * 256 + (next % 256) as u8 as int == next);
    assert(be16_at(b, 0) == next);
    assert(be16_at(b, 2) == n);
    let r = Seq::new(skipped.len(), |i: int| be16_at(b, 4 + 2 * i));
    assert forall|i: int| 0 <= i < skipped.len() implies r[i] == skipped[i] by {
        lemma_be16_all_index(skipped, i);
        assert(b[4 + 2 * i] == be16_all(skipped)[2 * i]);
        assert(b[5 + 2 * i] == be16_all(skipped)[2 * i + 1]);
    }
    assert(r =~= skipped);
}

impl DiskJourneyRepo {
    /// Reads a journey from its bytes; fails with `JourneyCorrupt` when there are
    /// fewer than four bytes or fewer than the count of skipped deals asks for.
    pub fn deserialize(bytes: &Vec<u8>) -> (r: Result<(u16, Vec<u16>), FreeCellError>)
        ensures
            r is Ok <==> spec_deserialize(bytes@) is Some,
            r is Ok ==> (r->Ok_0.0, r->Ok_0.1@) == spec_deserialize(bytes@)->Some_0,
            r is Err ==> r->Err_0 == FreeCellError::JourneyCorrupt,
    {
        if bytes.len() < 4 {
            return Err(FreeCellError::JourneyCorrupt);
        }
        let next_game = (bytes[0] as u16) * 256 + (bytes[1] as u16);
        let all_skipped_count = (bytes[2] as u16) * 256 + (bytes[3] as u16);
        if bytes.len() < 4 + 2 * (all_skipped_count as usize) {
            return Err(FreeCellError::JourneyCorrupt);
        }
        let mut all_skipped: Vec<u16> = Vec::new();
        let mut i: usize = 0;
        while i < all_skipped_count as usize
            invariant
                i <= all_skipped_count,
                bytes@.len() >= 4 + 2 * all_skipped_count,
                all_skipped@ == Seq::new(i as nat, |j: int| be16_at(bytes@, 4 + 2 * j)),
            decreases all_skipped_count - i,
        {
            let skipped_game = (bytes[4 + 2 * i] as u16) * 256 + (bytes[5 + 2 * i] as u16);
            all_skipped.push(skipped_game);
            i = i + 1;
            assert(all_skipped@ =~= Seq::new(i as nat, |j: int| be16_at(bytes@, 4 + 2 * j)));
        }
        Ok((next_game, all_skipped))
    }

    /// Writes a journey as bytes: `next`, the number of skipped deals, then each
    /// skipped deal, as two-byte numbers, high byte first.
    pub fn serialize(next: u16, skipped: Vec<u16>) -> (r: Vec<u8>)
        requires
            skipped@.len() <= 0xFFFF,
        ensures
            r@ == spec_serialize(next, skipped@),
    {
        let mut result: Vec<u8> = Vec::new();
        push_be16(&mut result, next);
        push_be16(&mut result, skipped.len() as u16);
        let ghost head = result@;
        let mut i: usize = 0;
        while i < skipped.len()
            invariant
                i <= skipped@.len(),
                result@ == head + be16_all(skipped@.take(i as int)),
            decreases skipped@.len() - i,
        {
            push_be16(&mut result, skipped[i]);
            proof {
                assert(skipped@.take(i + 1).drop_last() == skipped@.take(i as int));
                vstd::seq_lib::lemma_concat_associative(head, be16_all(skipped@.take(i as int)), be16(skipped@[i as int]));
            }
            i = i + 1;
        }
        assert(skipped@.take(skipped@.len() as int) == skipped@);
        result
    }
}

/// Appends `x` as two bytes, high byte first.
fn push_be16(result: &mut Vec<u8>, x: u16)
    ensures
        final(result)@ == old(result)@ + be16(x),
{
    result.push((x / 256) as u8);
    result.push((x % 256) as u8);
    assert(final(result)@ =~= old(result)@ + be16(x));
}

} // verus!
