//! The byte-assembly stage of the processing pipeline.
//!
//! Accepted syllables are nibbles; two of them (high nibble first) make a
//! Q8 byte. A syllable left over at the end of one utterance is carried into
//! the next one so that the pair still completes a byte.
use vstd::prelude::*;

use crate::flashcard::expected_syllables;
use crate::q8::Syllable;

verus! {

/// The byte made of two syllables: the first is the high nibble.
pub open spec fn pair_byte(high: Syllable, low: Syllable) -> u8 {
    (high.spec_to_nibble() * 16 + low.spec_to_nibble()) as u8
}

/// The bytes of consecutive syllable pairs; a trailing unpaired syllable
/// contributes nothing.
pub open spec fn pair_bytes(s: Seq<Syllable>) -> Seq<u8> {
    Seq::new(s.len() / 2, |i: int| pair_byte(s[2 * i], s[2 * i + 1]))
}

/// Encode a sequence of accepted syllables into Q8 bytes.
///
/// Each syllable is a nibble (4 bits). Two syllables = one byte
/// (first = high nibble, second = low nibble).
/// Trailing syllables that don't complete a byte are discarded.
pub fn encode_syllables_to_q8(syllables: &[Syllable]) -> (bytes: Vec<u8>)
    ensures
        bytes@ == pair_bytes(syllables@),
{
    let mut bytes: Vec<u8> = Vec::new();
    let n = syllables.len();
    let mut i: usize = 0;
    while i + 1 < n
        invariant
            n == syllables@.len(),
            i % 2 == 0,
            i <= n,
            bytes@ =~= pair_bytes(syllables@).take(i as int / 2),
        decreases n - i,
    {
        let high = syllables[i].to_nibble();
        let low = syllables[i + 1].to_nibble();
        bytes.push((high << 4) | low);
        assert(((high << 4) | low) == high * 16 + low) by (bit_vector)
            requires
                high < 16,
                low < 16,
        ;
        i += 2;
    }
    assert(pair_bytes(syllables@).take(i as int / 2) =~= pair_bytes(syllables@));
    bytes
}

/// The syllable sequence of an optional carried syllable.
pub open spec fn carried(carry: Option<Syllable>) -> Seq<Syllable> {
    match carry {
        Some(s) => seq![s],
        None => seq![],
    }
}

/// The outcome of assembling the syllables accepted in one utterance.
#[derive(Debug, Clone, PartialEq, Eq)]
pub struct Settled {
    /// Bytes completed by this utterance.
    pub q8_bytes: Vec<u8>,
    /// A newly accepted syllable that could not be paired; the caller should
    /// prompt for one more syllable.
    pub pending_syllable: Option<Syllable>,
    /// The syllable carried in from the previous utterance, when it went into
    /// a completed byte.
    pub consumed_carry: Option<Syllable>,
    /// The syllable to carry into the next utterance.
    pub carry: Option<Syllable>,
}

/// Assemble the syllables accepted in one utterance, after the syllable
/// carried from the previous one, into Q8 bytes.
///
/// An odd syllable left at the end becomes the new carry. It is reported
/// as pending only if this utterance accepted something new; the carry is
/// reported as consumed only if at least one byte was completed.
pub fn settle_accepted(carry: Option<Syllable>, accepted: &[Syllable]) -> (r: Settled)
    requires
        accepted@.len() < usize::MAX,
    ensures
        ({
            let all = carried(carry) + accepted@;
            &&& r.q8_bytes@ == pair_bytes(all)
            &&& r.carry == (if all.len() % 2 == 1 {
                Some(all.last())
            } else {
                None
            })
            &&& r.pending_syllable == (if all.len() % 2 == 1 && accepted@.len() > 0 {
                Some(all.last())
            } else {
                None
            })
            &&& r.consumed_carry == (if pair_bytes(all).len() > 0 {
                carry
            } else {
                None
            })
        }),
{
    let mut all: Vec<Syllable> = Vec::new();
    match carry {
        Some(s) => all.push(s),
        None => {},
    }
    let mut i: usize = 0;
    while i < accepted.len()
        invariant
            i <= accepted@.len(),
            all@ =~= carried(carry) + accepted@.take(i as int),
        decreases accepted@.len() - i,
    {
        all.push(accepted[i]);
        i += 1;
    }
    assert(accepted@.take(accepted@.len() as int) =~= accepted@);
    let q8_bytes = encode_syllables_to_q8(all.as_slice());
    let (next, pending) = if all.len() % 2 == 1 {
        let last = all[all.len() - 1];
        if accepted.len() > 0 {
            (Some(last), Some(last))
        } else {
            (Some(last), None)
        }
    } else {
        (None, None)
    };
    let consumed_carry = if q8_bytes.len() > 0 {
        carry
    } else {
        None
    };
    Settled { q8_bytes, pending_syllable: pending, consumed_carry, carry: next }
}

// ---------------------------------------------------------------------------
// Laws
// ---------------------------------------------------------------------------

proof fn lemma_expected_syllables_index(bytes: Seq<u8>)
    ensures
        expected_syllables(bytes).len() == 2 * bytes.len(),
        forall|i: int|
            0 <= i < bytes.len() ==> #[trigger] expected_syllables(bytes)[2 * i]
                == Syllable::spec_from_nibble(bytes[i] / 16) && expected_syllables(bytes)[2 * i + 1]
                == Syllable::spec_from_nibble(bytes[i] % 16),
    decreases bytes.len(),
{
    if bytes.len() > 0 {
        let p = bytes.drop_last();
        lemma_expected_syllables_index(p);
        assert forall|i: int| 0 <= i < bytes.len() implies #[trigger] expected_syllables(bytes)[2
            * i] == Syllable::spec_from_nibble(bytes[i] / 16) && expected_syllables(bytes)[2 * i
            + 1] == Syllable::spec_from_nibble(bytes[i] % 16) by {
            if i < p.len() {
                assert(p[i] == bytes[i]);
            }
        }
    }
}

/// Encoding the syllables that speak a byte sequence gives back the bytes:
/// what a flashcard row expects to hear is exactly what the pipeline turns
/// into those bytes.
pub proof fn law_pair_bytes_inverts_expected_syllables(bytes: Seq<u8>)
    ensures
        pair_bytes(expected_syllables(bytes)) == bytes,
{
    lemma_expected_syllables_index(bytes);
    let s = expected_syllables(bytes);
    assert forall|i: int| 0 <= i < bytes.len() implies #[trigger] pair_bytes(s)[i] == bytes[i] by {
        let b = bytes[i];
        assert(s[2 * i] == Syllable::spec_from_nibble(b / 16));
        assert(s[2 * i + 1] == Syllable::spec_from_nibble(b % 16));
        crate::q8::law_syllable_nibble_roundtrip(s[2 * i], (b / 16) as u8);
        crate::q8::law_syllable_nibble_roundtrip(s[2 * i + 1], (b % 16) as u8);
    }
    assert(pair_bytes(s) =~= bytes);
}

/// One utterance neither loses nor invents syllables: the carried syllable
/// followed by the accepted ones are exactly the syllables of the completed
/// bytes followed by the new carry.
pub proof fn law_settle_conserves_syllables(carry: Option<Syllable>, accepted: Seq<Syllable>)
    ensures
        ({
            let all = carried(carry) + accepted;
            let next = if all.len() % 2 == 1 {
                Some(all.last())
            } else {
                None::<Syllable>
            };
            all == expected_syllables(pair_bytes(all)) + carried(next)
        }),
{
    let all = carried(carry) + accepted;
    let bytes = pair_bytes(all);
    lemma_expected_syllables_index(bytes);
    let e = expected_syllables(bytes);
    assert forall|i: int| 0 <= i < bytes.len() implies #[trigger] e[2 * i] == all[2 * i] && e[2 * i
        + 1] == all[2 * i + 1] by {
        let h = all[2 * i];
        let l = all[2 * i + 1];
        crate::q8::law_syllable_nibble_roundtrip(h, 0);
        crate::q8::law_syllable_nibble_roundtrip(l, 0);
        let hn = h.spec_to_nibble();
        let ln = l.spec_to_nibble();
        assert(hn < 16 && ln < 16);
        assert(bytes[i] == pair_byte(h, l));
        assert(bytes[i] == hn * 16 + ln);
        assert(bytes[i] / 16 == hn);
        assert(bytes[i] % 16 == ln);
        assert(e[2 * i] == Syllable::spec_from_nibble(bytes[i] / 16));
        assert(e[2 * i + 1] == Syllable::spec_from_nibble(bytes[i] % 16));
        assert(Syllable::spec_from_nibble(hn) == h);
        assert(Syllable::spec_from_nibble(ln) == l);
    }
    assert forall|j: int| 0 <= j < e.len() implies #[trigger] e[j] == all[j] by {
        let i = j / 2;
        assert(0 <= i < bytes.len());
        assert(e[2 * i] == all[2 * i]);
        if j % 2 == 0 {
            assert(j == 2 * i);
        } else {
            assert(j == 2 * i + 1);
        }
    }
    if all.len() % 2 == 1 {
        assert(all =~= e + seq![all.last()]);
    } else {
        assert(all =~= e + Seq::<Syllable>::empty());
    }
}

/// The bytes and final carry of feeding a series of utterances, one after
/// another, starting from `carry`.
pub open spec fn settle_series(carry: Option<Syllable>, batches: Seq<Seq<Syllable>>) -> (
    Seq<u8>,
    Option<Syllable>,
)
    decreases batches.len(),
{
    if batches.len() == 0 {
        (seq![], carry)
    } else {
        let all = carried(carry) + batches[0];
        let next = if all.len() % 2 == 1 {
            Some(all.last())
        } else {
            None::<Syllable>
        };
        let (rest, last) = settle_series(next, batches.drop_first());
        (pair_bytes(all) + rest, last)
    }
}

/// All syllables of a series of utterances, in order.
pub open spec fn concat_batches(batches: Seq<Seq<Syllable>>) -> Seq<Syllable>
    decreases batches.len(),
{
    if batches.len() == 0 {
        seq![]
    } else {
        batches[0] + concat_batches(batches.drop_first())
    }
}

proof fn lemma_pair_bytes_append(a: Seq<Syllable>, b: Seq<Syllable>)
    requires
        a.len() % 2 == 0,
    ensures
        pair_bytes(a + b) == pair_bytes(a) + pair_bytes(b),
{
    let ab = a + b;
    assert((a.len() + b.len()) / 2 == a.len() / 2 + b.len() / 2);
    assert forall|i: int| 0 <= i < pair_bytes(ab).len() implies #[trigger] pair_bytes(ab)[i] == (
    pair_bytes(a) + pair_bytes(b))[i] by {
        if i < a.len() / 2 {
            assert(ab[2 * i] == a[2 * i]);
            assert(ab[2 * i + 1] == a[2 * i + 1]);
        } else {
            let k = i - a.len() / 2;
            assert(2 * i == a.len() + 2 * k);
            assert(ab[2 * i] == b[2 * k]);
            assert(ab[2 * i + 1] == b[2 * k + 1]);
        }
    }
    assert(pair_bytes(ab) =~= pair_bytes(a) + pair_bytes(b));
}

proof fn lemma_settle_step(carry: Option<Syllable>, head: Seq<Syllable>, rest: Seq<Syllable>)
    ensures
        ({
            let first = carried(carry) + head;
            let next = if first.len() % 2 == 1 {
                Some(first.last())
            } else {
                None::<Syllable>
            };
            let all = carried(carry) + (head + rest);
            let tail = carried(next) + rest;
            &&& pair_bytes(all) == pair_bytes(first) + pair_bytes(tail)
            &&& all.len() % 2 == tail.len() % 2
            &&& tail.len() > 0 ==> all.last() == tail.last()
        }),
{
    let first = carried(carry) + head;
    let next = if first.len() % 2 == 1 {
        Some(first.last())
    } else {
        None::<Syllable>
    };
    let tail = carried(next) + rest;
    law_settle_conserves_syllables(carry, head);
    let even = expected_syllables(pair_bytes(first));
    lemma_expected_syllables_index(pair_bytes(first));
    law_pair_bytes_inverts_expected_syllables(pair_bytes(first));
    assert(first == even + carried(next));
    assert(carried(carry) + (head + rest) =~= first + rest);
    assert((even + carried(next)) + rest =~= even + tail);
    lemma_pair_bytes_append(even, tail);
}

proof fn lemma_settle_series(carry: Option<Syllable>, batches: Seq<Seq<Syllable>>)
    ensures
        ({
            let all = carried(carry) + concat_batches(batches);
            let (bytes, last) = settle_series(carry, batches);
            &&& bytes == pair_bytes(all)
            &&& last == (if all.len() % 2 == 1 {
                Some(all.last())
            } else {
                None::<Syllable>
            })
        }),
    decreases batches.len(),
{
    if batches.len() == 0 {
        assert(carried(carry) + concat_batches(batches) =~= carried(carry));
        assert(pair_bytes(carried(carry)) =~= Seq::<u8>::empty());
    } else {
        let first = carried(carry) + batches[0];
        let next = if first.len() % 2 == 1 {
            Some(first.last())
        } else {
            None::<Syllable>
        };
        let rest = concat_batches(batches.drop_first());
        lemma_settle_series(next, batches.drop_first());
        lemma_settle_step(carry, batches[0], rest);
        assert(concat_batches(batches) == batches[0] + rest);
        let tail = carried(next) + rest;
        if tail.len() == 0 {
            assert(pair_bytes(tail) =~= Seq::<u8>::empty());
            assert(pair_bytes(first) + pair_bytes(tail) =~= pair_bytes(first));
        }
    }
}

/// Feeding syllables utterance by utterance yields the same bytes as
/// encoding all of them at once: no syllable is lost or repeated at an
/// utterance boundary, and what is left over is the final unpaired syllable.
pub proof fn law_settle_series_matches_whole(batches: Seq<Seq<Syllable>>)
    ensures
        ({
            let all = concat_batches(batches);
            let (bytes, last) = settle_series(None, batches);
            &&& bytes == pair_bytes(all)
            &&& last == (if all.len() % 2 == 1 {
                Some(all.last())
            } else {
                None::<Syllable>
            })
        }),
{
    lemma_settle_series(None, batches);
    assert(carried(None) + concat_batches(batches) =~= concat_batches(batches));
}

} // verus!
