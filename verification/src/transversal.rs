//! Orthogonal Latin square transversals of the 4x4 consonant-vowel grid.
//!
//! Two phrases of 4 syllables each (8 total) form orthogonal transversals of
//! the grid. Any of the 16 Q8 nibbles can be reconstructed by intersecting
//! the Top-2 consonant and vowel sets from each phrase. This module holds
//! the phrases, the label checks of transversal training, and the
//! intersection step of transversal classification.
use vstd::prelude::*;

use crate::q8::{Consonant, Syllable, Vowel};
use crate::text::{decimal_text, push_decimal};
use crate::q8::syllable_text;

verus! {

/// The syllables of phrase 1, in order.
pub open spec fn spec_phrase_1() -> Seq<Syllable> {
    seq![
        Syllable { consonant: Consonant::GlottalStop, vowel: Vowel::O },
        Syllable { consonant: Consonant::J, vowel: Vowel::U },
        Syllable { consonant: Consonant::K, vowel: Vowel::E },
        Syllable { consonant: Consonant::V, vowel: Vowel::I },
    ]
}

/// The syllables of phrase 2, in order.
pub open spec fn spec_phrase_2() -> Seq<Syllable> {
    seq![
        Syllable { consonant: Consonant::GlottalStop, vowel: Vowel::I },
        Syllable { consonant: Consonant::J, vowel: Vowel::E },
        Syllable { consonant: Consonant::K, vowel: Vowel::O },
        Syllable { consonant: Consonant::V, vowel: Vowel::U },
    ]
}

/// Phrase 1 (diagonal): 'O(0), JU(5), KE(10), VI(15)
pub fn phrase_1() -> (p: [Syllable; 4])
    ensures
        p@ == spec_phrase_1(),
{
    let p = [
        Syllable { consonant: Consonant::GlottalStop, vowel: Vowel::O },
        Syllable { consonant: Consonant::J, vowel: Vowel::U },
        Syllable { consonant: Consonant::K, vowel: Vowel::E },
        Syllable { consonant: Consonant::V, vowel: Vowel::I },
    ];
    assert(p@ =~= spec_phrase_1());
    p
}

/// Phrase 2 (anti-diagonal): 'I(3), JE(6), KO(8), VU(13)
pub fn phrase_2() -> (p: [Syllable; 4])
    ensures
        p@ == spec_phrase_2(),
{
    let p = [
        Syllable { consonant: Consonant::GlottalStop, vowel: Vowel::I },
        Syllable { consonant: Consonant::J, vowel: Vowel::E },
        Syllable { consonant: Consonant::K, vowel: Vowel::O },
        Syllable { consonant: Consonant::V, vowel: Vowel::U },
    ];
    assert(p@ =~= spec_phrase_2());
    p
}

/// The syllables of the phrase with the given index (0 or 1).
pub open spec fn phrase(index: u8) -> Seq<Syllable> {
    if index == 0 {
        spec_phrase_1()
    } else {
        spec_phrase_2()
    }
}

fn phrase_contains(index: u8, s: Syllable) -> (b: bool)
    requires
        index <= 1,
    ensures
        b == phrase(index).contains(s),
{
    let ph = if index == 0 {
        phrase_1()
    } else {
        phrase_2()
    };
    let mut k: usize = 0;
    while k < 4
        invariant
            ph@ == phrase(index),
            k <= 4,
            forall|t: int| 0 <= t < k ==> ph@[t] != s,
        decreases 4 - k,
    {
        if ph[k] == s {
            return true;
        }
        k += 1;
    }
    false
}

/// Errors that can occur during transversal training.
#[derive(Debug, Clone, Copy, PartialEq, Eq, Structural)]
pub enum TrainError {
    /// phrase_index was not 0 or 1.
    InvalidPhraseIndex(u8),
    /// The syllable does not belong to the specified phrase.
    WrongSyllableForPhrase { syllable: Syllable, phrase_index: u8 },
    /// Not all 4 syllables in a phrase had training samples.
    IncompletePhraseTraining { phrase_index: u8, missing_count: usize },
    /// No training samples were given at all.
    NoSamples,
}

/// The human-readable text of a training error.
pub open spec fn train_error_text(e: TrainError) -> Seq<char> {
    match e {
        TrainError::InvalidPhraseIndex(idx) => "invalid phrase index: "@ + decimal_text(idx as nat)
            + " (must be 0 or 1)"@,
        TrainError::WrongSyllableForPhrase { syllable, phrase_index } => "syllable "@
            + syllable_text(syllable.spec_to_nibble() as int) + " does not belong to phrase "@
            + decimal_text(phrase_index as nat),
        TrainError::IncompletePhraseTraining { phrase_index, missing_count } => "phrase "@
            + decimal_text(phrase_index as nat) + " is missing "@ + decimal_text(
            missing_count as nat,
        ) + " syllable(s)"@,
        TrainError::NoSamples => "no training samples"@,
    }
}

impl TrainError {
    /// The human-readable message of this error.
    pub fn message(&self) -> (m: String)
        ensures
            m@ == train_error_text(*self),
    {
        let mut m = String::new();
        match *self {
            TrainError::InvalidPhraseIndex(idx) => {
                m.append("invalid phrase index: ");
                push_decimal(&mut m, idx as u64);
                m.append(" (must be 0 or 1)");
            },
            TrainError::WrongSyllableForPhrase { syllable, phrase_index } => {
                m.append("syllable ");
                let t = syllable.to_string();
                m.append(t.as_str());
                m.append(" does not belong to phrase ");
                push_decimal(&mut m, phrase_index as u64);
            },
            TrainError::IncompletePhraseTraining { phrase_index, missing_count } => {
                m.append("phrase ");
                push_decimal(&mut m, phrase_index as u64);
                m.append(" is missing ");
                push_decimal(&mut m, missing_count as u64);
                m.append(" syllable(s)");
            },
            TrainError::NoSamples => {
                m.append("no training samples");
            },
        }
        proof {
            assert(m@ =~= train_error_text(*self));
        }
        m
    }
}

// ---------------------------------------------------------------------------
// Training labels
// ---------------------------------------------------------------------------

/// The first label, in sample order, with a phrase index other than 0 or 1
/// or a syllable outside its phrase, as the error it raises.
pub open spec fn first_label_error(labels: Seq<(u8, Syllable)>) -> Option<TrainError>
    decreases labels.len(),
{
    if labels.len() == 0 {
        None
    } else {
        let (p, s) = labels[0];
        if p > 1 {
            Some(TrainError::InvalidPhraseIndex(p))
        } else if !phrase(p).contains(s) {
            Some(TrainError::WrongSyllableForPhrase { syllable: s, phrase_index: p })
        } else {
            first_label_error(labels.drop_first())
        }
    }
}

/// How many syllables of `syllables` have no label `(index, syllable)`.
pub open spec fn count_missing(labels: Seq<(u8, Syllable)>, index: u8, syllables: Seq<Syllable>) -> nat
    decreases syllables.len(),
{
    if syllables.len() == 0 {
        0
    } else {
        count_missing(labels, index, syllables.drop_last()) + (if labels.contains(
            (index, syllables.last()),
        ) {
            0nat
        } else {
            1nat
        })
    }
}

/// The outcome of checking the labels of transversal training samples:
/// every label must name phrase 0 or 1 and a syllable of that phrase (the
/// first offending label is reported), and every syllable of each phrase
/// must be labelled at least once (phrase 0 is checked first).
pub open spec fn training_labels_check(labels: Seq<(u8, Syllable)>) -> Result<(), TrainError> {
    match first_label_error(labels) {
        Some(e) => Err(e),
        None => {
            let m0 = count_missing(labels, 0, phrase(0));
            let m1 = count_missing(labels, 1, phrase(1));
            if m0 > 0 {
                Err(TrainError::IncompletePhraseTraining { phrase_index: 0, missing_count: m0 as usize })
            } else if m1 > 0 {
                Err(TrainError::IncompletePhraseTraining { phrase_index: 1, missing_count: m1 as usize })
            } else {
                Ok(())
            }
        },
    }
}

fn has_label(labels: &[(u8, Syllable)], index: u8, s: Syllable) -> (b: bool)
    ensures
        b == labels@.contains((index, s)),
{
    let mut i: usize = 0;
    while i < labels.len()
        invariant
            i <= labels@.len(),
            forall|t: int| 0 <= t < i ==> labels@[t] != (index, s),
        decreases labels@.len() - i,
    {
        let (p, t) = labels[i];
        if p == index && t == s {
            assert(labels@[i as int] == (index, s));
            return true;
        }
        i += 1;
    }
    false
}

fn missing_in_phrase(labels: &[(u8, Syllable)], index: u8) -> (n: usize)
    requires
        index <= 1,
    ensures
        n == count_missing(labels@, index, phrase(index)),
        n <= 4,
{
    let ph = if index == 0 {
        phrase_1()
    } else {
        phrase_2()
    };
    let mut n: usize = 0;
    let mut k: usize = 0;
    while k < 4
        invariant
            ph@ == phrase(index),
            k <= 4,
            n == count_missing(labels@, index, phrase(index).take(k as int)),
            n <= k,
        decreases 4 - k,
    {
        assert(phrase(index).take(k + 1).drop_last() =~= phrase(index).take(k as int));
        if !has_label(labels, index, ph[k]) {
            n += 1;
        }
        k += 1;
    }
    assert(phrase(index).take(4) =~= phrase(index));
    n
}

/// Check the labels of the samples gathered for a transversal calibration:
/// with no samples at all the calibration fails with `NoSamples`; otherwise
/// the labels are checked as `check_training_labels` does.
pub fn check_transversal_calibration(labels: &[(u8, Syllable)]) -> (r: Result<(), TrainError>)
    ensures
        r == (if labels@.len() == 0 {
            Err(TrainError::NoSamples)
        } else {
            training_labels_check(labels@)
        }),
{
    if labels.len() == 0 {
        return Err(TrainError::NoSamples);
    }
    check_training_labels(labels)
}

/// Check the `(phrase_index, syllable)` labels of transversal training samples.
///
/// Validates that every `phrase_index` is 0 or 1, that every syllable
/// belongs to the phrase it is labelled with, and that all 4 syllables of
/// each phrase have at least one sample.
pub fn check_training_labels(labels: &[(u8, Syllable)]) -> (r: Result<(), TrainError>)
    ensures
        r == training_labels_check(labels@),
{
    let mut i: usize = 0;
    assert(labels@.skip(0) =~= labels@);
    while i < labels.len()
        invariant
            i <= labels@.len(),
            first_label_error(labels@) == first_label_error(labels@.skip(i as int)),
        decreases labels@.len() - i,
    {
        let (p, s) = labels[i];
        assert(labels@.skip(i as int)[0] == (p, s));
        assert(labels@.skip(i as int).drop_first() =~= labels@.skip(i + 1));
        if p > 1 {
            return Err(TrainError::InvalidPhraseIndex(p));
        }
        if !phrase_contains(p, s) {
            return Err(TrainError::WrongSyllableForPhrase { syllable: s, phrase_index: p });
        }
        i += 1;
    }
    assert(labels@.skip(labels@.len() as int) =~= Seq::<(u8, Syllable)>::empty());
    let m0 = missing_in_phrase(labels, 0);
    if m0 > 0 {
        return Err(TrainError::IncompletePhraseTraining { phrase_index: 0, missing_count: m0 });
    }
    let m1 = missing_in_phrase(labels, 1);
    if m1 > 0 {
        return Err(TrainError::IncompletePhraseTraining { phrase_index: 1, missing_count: m1 });
    }
    Ok(())
}

/// The first syllable of `syllables` that is not in phrase `index`.
pub open spec fn first_foreign(syllables: Seq<Syllable>, index: u8) -> Option<Syllable>
    decreases syllables.len(),
{
    if syllables.len() == 0 {
        None
    } else if !phrase(index).contains(syllables[0]) {
        Some(syllables[0])
    } else {
        first_foreign(syllables.drop_first(), index)
    }
}

fn find_foreign(syllables: &[Syllable], index: u8) -> (r: Option<Syllable>)
    requires
        index <= 1,
    ensures
        r == first_foreign(syllables@, index),
{
    let mut i: usize = 0;
    assert(syllables@.skip(0) =~= syllables@);
    while i < syllables.len()
        invariant
            index <= 1,
            i <= syllables@.len(),
            first_foreign(syllables@, index) == first_foreign(syllables@.skip(i as int), index),
        decreases syllables@.len() - i,
    {
        let s = syllables[i];
        assert(syllables@.skip(i as int)[0] == s);
        assert(syllables@.skip(i as int).drop_first() =~= syllables@.skip(i + 1));
        if !phrase_contains(index, s) {
            return Some(s);
        }
        i += 1;
    }
    assert(syllables@.skip(syllables@.len() as int) =~= Seq::<Syllable>::empty());
    None
}

/// Check the syllables of pre-computed phrase centroids before loading them:
/// every centroid of phrase 0 must be a syllable of phrase 1's transversal
/// (phrase 1) and every centroid of phrase 1 one of phrase 2. The first
/// foreign syllable is reported, phrase 0 first.
pub fn check_phrase_syllables(phrase0: &[Syllable], phrase1: &[Syllable]) -> (r: Result<
    (),
    TrainError,
>)
    ensures
        r == (match first_foreign(phrase0@, 0) {
            Some(s) => Err(TrainError::WrongSyllableForPhrase { syllable: s, phrase_index: 0 }),
            None => match first_foreign(phrase1@, 1) {
                Some(s) => Err(TrainError::WrongSyllableForPhrase { syllable: s, phrase_index: 1 }),
                None => Ok(()),
            },
        }),
{
    match find_foreign(phrase0, 0) {
        Some(s) => Err(TrainError::WrongSyllableForPhrase { syllable: s, phrase_index: 0 }),
        None => match find_foreign(phrase1, 1) {
            Some(s) => Err(TrainError::WrongSyllableForPhrase { syllable: s, phrase_index: 1 }),
            None => Ok(()),
        },
    }
}

// ---------------------------------------------------------------------------
// Top-2 intersection
// ---------------------------------------------------------------------------

/// The consonants one phrase's Top-2 contributes: only the best match's when
/// it dominates, both otherwise.
pub open spec fn candidate_consonants(top2: Seq<Syllable>, dominated: bool) -> Seq<Consonant> {
    if dominated {
        seq![top2[0].consonant]
    } else {
        seq![top2[0].consonant, top2[1].consonant]
    }
}

/// The vowels one phrase's Top-2 contributes: only the best match's when it
/// dominates, both otherwise.
pub open spec fn candidate_vowels(top2: Seq<Syllable>, dominated: bool) -> Seq<Vowel> {
    if dominated {
        seq![top2[0].vowel]
    } else {
        seq![top2[0].vowel, top2[1].vowel]
    }
}

/// The elements of `xs` (in order, with repeats) that also occur in `ys`.
pub open spec fn shared<A>(xs: Seq<A>, ys: Seq<A>) -> Seq<A>
    decreases xs.len(),
{
    if xs.len() == 0 {
        seq![]
    } else {
        shared(xs.drop_last(), ys) + (if ys.contains(xs.last()) {
            seq![xs.last()]
        } else {
            seq![]
        })
    }
}

/// The syllable reconstructed from both phrases' Top-2: defined when exactly
/// one consonant and exactly one vowel are shared by the two phrases'
/// candidates.
pub open spec fn reconstruction(
    p1_top2: Seq<Syllable>,
    p1_dominated: bool,
    p2_top2: Seq<Syllable>,
    p2_dominated: bool,
) -> Option<Syllable> {
    let cs = shared(
        candidate_consonants(p1_top2, p1_dominated),
        candidate_consonants(p2_top2, p2_dominated),
    );
    let vs = shared(candidate_vowels(p1_top2, p1_dominated), candidate_vowels(p2_top2, p2_dominated));
    if cs.len() == 1 && vs.len() == 1 {
        Some(Syllable { consonant: cs[0], vowel: vs[0] })
    } else {
        None
    }
}

fn shared_consonants(xs: &Vec<Consonant>, ys: &Vec<Consonant>) -> (r: Vec<Consonant>)
    ensures
        r@ == shared(xs@, ys@),
{
    let mut r: Vec<Consonant> = Vec::new();
    let mut i: usize = 0;
    while i < xs.len()
        invariant
            i <= xs@.len(),
            r@ == shared(xs@.take(i as int), ys@),
        decreases xs@.len() - i,
    {
        let x = xs[i];
        let mut found = false;
        let mut j: usize = 0;
        while j < ys.len()
            invariant
                j <= ys@.len(),
                found == (exists|t: int| 0 <= t < j && ys@[t] == x),
            decreases ys@.len() - j,
        {
            if ys[j] == x {
                found = true;
            }
            j += 1;
        }
        assert(xs@.take(i + 1).drop_last() =~= xs@.take(i as int));
        assert(xs@.take(i + 1).last() == x);
        let ghost before = r@;
        if found {
            r.push(x);
            assert(r@ =~= before + seq![x]);
        } else {
            assert(before + Seq::<Consonant>::empty() =~= before);
        }
        i += 1;
    }
    assert(xs@.take(xs@.len() as int) =~= xs@);
    r
}

fn shared_vowels(xs: &Vec<Vowel>, ys: &Vec<Vowel>) -> (r: Vec<Vowel>)
    ensures
        r@ == shared(xs@, ys@),
{
    let mut r: Vec<Vowel> = Vec::new();
    let mut i: usize = 0;
    while i < xs.len()
        invariant
            i <= xs@.len(),
            r@ == shared(xs@.take(i as int), ys@),
        decreases xs@.len() - i,
    {
        let x = xs[i];
        let mut found = false;
        let mut j: usize = 0;
        while j < ys.len()
            invariant
                j <= ys@.len(),
                found == (exists|t: int| 0 <= t < j && ys@[t] == x),
            decreases ys@.len() - j,
        {
            if ys[j] == x {
                found = true;
            }
            j += 1;
        }
        assert(xs@.take(i + 1).drop_last() =~= xs@.take(i as int));
        assert(xs@.take(i + 1).last() == x);
        let ghost before = r@;
        if found {
            r.push(x);
            assert(r@ =~= before + seq![x]);
        } else {
            assert(before + Seq::<Vowel>::empty() =~= before);
        }
        i += 1;
    }
    assert(xs@.take(xs@.len() as int) =~= xs@);
    r
}

/// Reconstruct a syllable from the Top-2 matches of each phrase.
///
/// For each phrase, the effective candidates are the consonants and vowels
/// of its Top-2 (or only of its best match, when that match dominates).
/// The consonant candidates of the two phrases are intersected, and so are
/// the vowel candidates; the result is defined when each intersection holds
/// exactly one element.
pub fn reconstruct_syllable(
    p1_top2: [Syllable; 2],
    p1_dominated: bool,
    p2_top2: [Syllable; 2],
    p2_dominated: bool,
) -> (r: Option<Syllable>)
    ensures
        r == reconstruction(p1_top2@, p1_dominated, p2_top2@, p2_dominated),
{
    let mut c1: Vec<Consonant> = Vec::new();
    let mut v1: Vec<Vowel> = Vec::new();
    c1.push(p1_top2[0].consonant);
    v1.push(p1_top2[0].vowel);
    if !p1_dominated {
        c1.push(p1_top2[1].consonant);
        v1.push(p1_top2[1].vowel);
    }
    let mut c2: Vec<Consonant> = Vec::new();
    let mut v2: Vec<Vowel> = Vec::new();
    c2.push(p2_top2[0].consonant);
    v2.push(p2_top2[0].vowel);
    if !p2_dominated {
        c2.push(p2_top2[1].consonant);
        v2.push(p2_top2[1].vowel);
    }
    assert(c1@ =~= candidate_consonants(p1_top2@, p1_dominated));
    assert(v1@ =~= candidate_vowels(p1_top2@, p1_dominated));
    assert(c2@ =~= candidate_consonants(p2_top2@, p2_dominated));
    assert(v2@ =~= candidate_vowels(p2_top2@, p2_dominated));
    let cs = shared_consonants(&c1, &c2);
    if cs.len() != 1 {
        return None;
    }
    let vs = shared_vowels(&v1, &v2);
    if vs.len() != 1 {
        return None;
    }
    Some(Syllable { consonant: cs[0], vowel: vs[0] })
}


// ---------------------------------------------------------------------------
// Laws
// ---------------------------------------------------------------------------

/// Each phrase is a transversal of the 4x4 grid: its four syllables have
/// four different consonants and four different vowels, so every consonant
/// and every vowel occurs in it exactly once.
pub proof fn law_phrases_are_transversals(index: u8, c: Consonant, v: Vowel)
    ensures
        phrase(index).len() == 4,
        forall|i: int, j: int|
            0 <= i < j < 4 ==> (#[trigger] phrase(index)[i]).consonant != (
            #[trigger] phrase(index)[j]).consonant && phrase(index)[i].vowel != phrase(
                index,
            )[j].vowel,
        exists|i: int| 0 <= i < 4 && (#[trigger] phrase(index)[i]).consonant == c,
        exists|i: int| 0 <= i < 4 && (#[trigger] phrase(index)[i]).vowel == v,
{
    let ph = phrase(index);
    let ci: int = match c {
        Consonant::GlottalStop => 0,
        Consonant::J => 1,
        Consonant::K => 2,
        Consonant::V => 3,
    };
    assert(ph[ci].consonant == c);
    let vi: int = if index == 0 {
        match v {
            Vowel::O => 0,
            Vowel::U => 1,
            Vowel::E => 2,
            Vowel::I => 3,
        }
    } else {
        match v {
            Vowel::I => 0,
            Vowel::E => 1,
            Vowel::O => 2,
            Vowel::U => 3,
        }
    };
    assert(ph[vi].vowel == v);
}

/// The two phrases are orthogonal: they share no syllable.
pub proof fn law_phrases_are_orthogonal()
    ensures
        forall|i: int, j: int|
            0 <= i < 4 && 0 <= j < 4 ==> (#[trigger] spec_phrase_1()[i]) != (
            #[trigger] spec_phrase_2()[j]),
{
}

/// `a` has the consonant or the vowel of `t`.
pub open spec fn shares_axis(a: Syllable, t: Syllable) -> bool {
    a.consonant == t.consonant || a.vowel == t.vowel
}

/// What a phrase's Top-2 looks like when the features are those of `t`:
/// if `t` is one of the phrase's syllables, it is the best match and
/// dominates; otherwise the Top-2 are the two syllables of the phrase that
/// share an axis (consonant or vowel) with `t`, in either order.
pub open spec fn top2_of_target(
    t: Syllable,
    top2: Seq<Syllable>,
    dominated: bool,
    ph: Seq<Syllable>,
) -> bool {
    &&& top2.len() == 2
    &&& if ph.contains(t) {
        dominated && top2[0] == t
    } else {
        &&& !dominated
        &&& top2[0] != top2[1]
        &&& ph.contains(top2[0])
        &&& ph.contains(top2[1])
        &&& shares_axis(top2[0], t)
        &&& shares_axis(top2[1], t)
    }
}

/// In a phrase that does not contain `t`, two different syllables that
/// both share an axis with `t` are the one with `t`'s consonant (and another
/// vowel) and the one with `t`'s vowel (and another consonant).
proof fn lemma_two_sharers(t: Syllable, a: Syllable, b: Syllable, index: u8)
    requires
        !phrase(index).contains(t),
        phrase(index).contains(a),
        phrase(index).contains(b),
        a != b,
        shares_axis(a, t),
        shares_axis(b, t),
    ensures
        (a.consonant == t.consonant && a.vowel != t.vowel && b.vowel == t.vowel && b.consonant
            != t.consonant) || (b.consonant == t.consonant && b.vowel != t.vowel && a.vowel
            == t.vowel && a.consonant != t.consonant),
{
    let ph = phrase(index);
    law_phrases_are_transversals(index, t.consonant, t.vowel);
    let i = choose|i: int| 0 <= i < ph.len() && ph[i] == a;
    let j = choose|j: int| 0 <= j < ph.len() && ph[j] == b;
    assert(ph[i] == a && ph[j] == b);
    if a.consonant == t.consonant && a.vowel == t.vowel {
        assert(a == t);
    }
    if b.consonant == t.consonant && b.vowel == t.vowel {
        assert(b == t);
    }
    if i < j {
        assert(ph[i].consonant != ph[j].consonant && ph[i].vowel != ph[j].vowel);
    } else if j < i {
        assert(ph[j].consonant != ph[i].consonant && ph[j].vowel != ph[i].vowel);
    }
}

proof fn lemma_contains_small<A>(a: A, b: A, x: A)
    ensures
        seq![a].contains(x) <==> x == a,
        seq![a, b].contains(x) <==> (x == a || x == b),
{
    if x == a {
        assert(seq![a][0] == x);
        assert(seq![a, b][0] == x);
    }
    if x == b {
        assert(seq![a, b][1] == x);
    }
}

proof fn lemma_shared_two<A>(x: A, y: A, ys: Seq<A>)
    ensures
        shared(seq![x, y], ys) == (if ys.contains(x) {
            seq![x]
        } else {
            seq![]
        }) + (if ys.contains(y) {
            seq![y]
        } else {
            seq![]
        }),
        shared(seq![x], ys) == (if ys.contains(x) {
            seq![x]
        } else {
            seq![]
        }),
{
    reveal_with_fuel(shared, 3);
    assert(seq![x, y].drop_last() =~= seq![x]);
    assert(seq![x].drop_last() =~= Seq::<A>::empty());
    assert(Seq::<A>::empty() + (if ys.contains(x) {
        seq![x]
    } else {
        seq![]
    }) =~= (if ys.contains(x) {
        seq![x]
    } else {
        seq![]
    }));
}

/// Unique reconstruction: for every one of the 16 syllables, when each
/// phrase's Top-2 is the one the syllable's features select, intersecting
/// the candidates of the two phrases yields exactly that syllable.
pub proof fn law_reconstructs_every_syllable(
    t: Syllable,
    p1_top2: Seq<Syllable>,
    p1_dominated: bool,
    p2_top2: Seq<Syllable>,
    p2_dominated: bool,
)
    requires
        top2_of_target(t, p1_top2, p1_dominated, spec_phrase_1()),
        top2_of_target(t, p2_top2, p2_dominated, spec_phrase_2()),
    ensures
        reconstruction(p1_top2, p1_dominated, p2_top2, p2_dominated) == Some(t),
{
    law_phrases_are_orthogonal();
    let c1 = candidate_consonants(p1_top2, p1_dominated);
    let c2 = candidate_consonants(p2_top2, p2_dominated);
    let v1 = candidate_vowels(p1_top2, p1_dominated);
    let v2 = candidate_vowels(p2_top2, p2_dominated);
    lemma_shared_two(p1_top2[0].consonant, p1_top2[1].consonant, c2);
    lemma_shared_two(p1_top2[0].vowel, p1_top2[1].vowel, v2);
    if spec_phrase_1().contains(t) && spec_phrase_2().contains(t) {
        let i = choose|i: int| 0 <= i < 4 && spec_phrase_1()[i] == t;
        let j = choose|j: int| 0 <= j < 4 && spec_phrase_2()[j] == t;
        assert(spec_phrase_1()[i] != spec_phrase_2()[j]);
    }
    if !p1_dominated {
        lemma_two_sharers(t, p1_top2[0], p1_top2[1], 0);
    }
    if !p2_dominated {
        lemma_two_sharers(t, p2_top2[0], p2_top2[1], 1);
    }
    if !p1_dominated && !p2_dominated {
        // The sharers of t's vowel in the two phrases differ (the phrases are
        // orthogonal), so their consonants differ; likewise for t's consonant.
        let a1 = if p1_top2[0].vowel == t.vowel {
            p1_top2[0]
        } else {
            p1_top2[1]
        };
        let a2 = if p2_top2[0].vowel == t.vowel {
            p2_top2[0]
        } else {
            p2_top2[1]
        };
        let b1 = if p1_top2[0].consonant == t.consonant {
            p1_top2[0]
        } else {
            p1_top2[1]
        };
        let b2 = if p2_top2[0].consonant == t.consonant {
            p2_top2[0]
        } else {
            p2_top2[1]
        };
        assert(spec_phrase_1().contains(a1) && spec_phrase_2().contains(a2));
        assert(spec_phrase_1().contains(b1) && spec_phrase_2().contains(b2));
        let ia = choose|i: int| 0 <= i < 4 && spec_phrase_1()[i] == a1;
        let ja = choose|j: int| 0 <= j < 4 && spec_phrase_2()[j] == a2;
        assert(spec_phrase_1()[ia] != spec_phrase_2()[ja]);
        let ib = choose|i: int| 0 <= i < 4 && spec_phrase_1()[i] == b1;
        let jb = choose|j: int| 0 <= j < 4 && spec_phrase_2()[j] == b2;
        assert(spec_phrase_1()[ib] != spec_phrase_2()[jb]);
        assert(a1.consonant != a2.consonant);
        assert(b1.vowel != b2.vowel);
    }
    let q0 = p2_top2[0];
    let q1 = p2_top2[1];
    let r0 = p1_top2[0];
    let r1 = p1_top2[1];
    lemma_contains_small(q0.consonant, q1.consonant, r0.consonant);
    lemma_contains_small(q0.consonant, q1.consonant, r1.consonant);
    lemma_contains_small(q0.vowel, q1.vowel, r0.vowel);
    lemma_contains_small(q0.vowel, q1.vowel, r1.vowel);
    if p1_dominated {
        assert(c1 == seq![r0.consonant]);
        assert(v1 == seq![r0.vowel]);
        assert(c2 == seq![q0.consonant, q1.consonant]);
        assert(c2.contains(t.consonant));
        assert(v2.contains(t.vowel));
        assert(shared(c1, c2) =~= seq![t.consonant]);
        assert(shared(v1, v2) =~= seq![t.vowel]);
    } else if p2_dominated {
        assert(c2 == seq![q0.consonant]);
        assert(v2 == seq![q0.vowel]);
        assert(shared(c1, c2) =~= seq![t.consonant]);
        assert(shared(v1, v2) =~= seq![t.vowel]);
    } else {
        assert(c1 == seq![r0.consonant, r1.consonant]);
        assert(c2 == seq![q0.consonant, q1.consonant]);
        assert(shared(c1, c2) =~= seq![t.consonant]);
        assert(shared(v1, v2) =~= seq![t.vowel]);
    }
}

// ---------------------------------------------------------------------------
// Laws of the label checks
// ---------------------------------------------------------------------------

/// Every label names phrase 0 or 1 and a syllable of that phrase.
pub open spec fn labels_valid(labels: Seq<(u8, Syllable)>) -> bool {
    forall|i: int|
        0 <= i < labels.len() ==> (#[trigger] labels[i]).0 <= 1 && phrase(labels[i].0).contains(
            labels[i].1,
        )
}

/// Every syllable of both phrases has a label naming it with its phrase.
pub open spec fn labels_complete(labels: Seq<(u8, Syllable)>) -> bool {
    forall|p: u8, s: Syllable| p <= 1 && #[trigger] phrase(p).contains(s) ==> labels.contains((p, s))
}

/// Whether no label names syllable `s` with phrase `index`.
pub open spec fn not_labelled(labels: Seq<(u8, Syllable)>, index: u8) -> spec_fn(Syllable) -> bool {
    |s: Syllable| !labels.contains((index, s))
}

/// The syllables of phrase `index` that no label names with that phrase.
pub open spec fn unlabelled(labels: Seq<(u8, Syllable)>, index: u8) -> Seq<Syllable> {
    phrase(index).filter(not_labelled(labels, index))
}

proof fn lemma_first_label_error_none(labels: Seq<(u8, Syllable)>)
    ensures
        first_label_error(labels) is None <==> labels_valid(labels),
        first_label_error(labels) is Some ==> !(first_label_error(
            labels,
        )->Some_0 is IncompletePhraseTraining),
    decreases labels.len(),
{
    if labels.len() > 0 {
        let t = labels.drop_first();
        lemma_first_label_error_none(t);
        if labels_valid(labels) {
            assert forall|i: int| 0 <= i < t.len() implies (#[trigger] t[i]).0 <= 1 && phrase(
                t[i].0,
            ).contains(t[i].1) by {
                assert(t[i] == labels[i + 1]);
            }
        }
        if first_label_error(labels) is None {
            assert forall|i: int| 0 <= i < labels.len() implies (#[trigger] labels[i]).0 <= 1
                && phrase(labels[i].0).contains(labels[i].1) by {
                if i > 0 {
                    assert(labels[i] == t[i - 1]);
                }
            }
        }
    }
}

proof fn lemma_count_missing_filter(labels: Seq<(u8, Syllable)>, index: u8, syllables: Seq<Syllable>)
    ensures
        count_missing(labels, index, syllables) == syllables.filter(not_labelled(labels, index)).len(),
        count_missing(labels, index, syllables) <= syllables.len(),
    decreases syllables.len(),
{
    reveal(Seq::filter);
    if syllables.len() > 0 {
        lemma_count_missing_filter(labels, index, syllables.drop_last());
    }
}

proof fn lemma_no_missing(labels: Seq<(u8, Syllable)>, index: u8)
    ensures
        count_missing(labels, index, phrase(index)) == 0 <==> forall|s: Syllable|
            #[trigger] phrase(index).contains(s) ==> labels.contains((index, s)),
{
    let ph = phrase(index);
    reveal_with_fuel(count_missing, 5);
    assert(ph.drop_last().drop_last().drop_last().drop_last() =~= Seq::<Syllable>::empty());
    assert(ph.drop_last().drop_last().drop_last() =~= seq![ph[0]]);
    assert(ph.drop_last().drop_last() =~= seq![ph[0], ph[1]]);
    assert(ph.drop_last() =~= seq![ph[0], ph[1], ph[2]]);
    if count_missing(labels, index, ph) == 0 {
        assert forall|s: Syllable| #[trigger] ph.contains(s) implies labels.contains((index, s)) by {
            let k = choose|k: int| 0 <= k < ph.len() && ph[k] == s;
            assert(k == 0 || k == 1 || k == 2 || k == 3);
        }
    } else {
        assert(ph.contains(ph[0]) && ph.contains(ph[1]) && ph.contains(ph[2]) && ph.contains(
            ph[3],
        ));
    }
}

/// Transversal training labels are accepted exactly when every label names
/// phrase 0 or 1 and a syllable of that phrase, and every syllable of both
/// phrases is labelled at least once, however many labels there are and in
/// whatever order. When a phrase is incomplete, the error reports that
/// phrase with the number of its syllables that no label names.
pub proof fn law_training_labels_accepted(labels: Seq<(u8, Syllable)>)
    ensures
        training_labels_check(labels) is Ok <==> labels_valid(labels) && labels_complete(labels),
        match training_labels_check(labels) {
            Err(TrainError::IncompletePhraseTraining { phrase_index, missing_count }) => {
                &&& labels_valid(labels)
                &&& phrase_index <= 1
                &&& missing_count == unlabelled(labels, phrase_index).len()
                &&& missing_count > 0
            },
            _ => true,
        },
{
    lemma_first_label_error_none(labels);
    lemma_no_missing(labels, 0);
    lemma_no_missing(labels, 1);
    lemma_count_missing_filter(labels, 0, phrase(0));
    lemma_count_missing_filter(labels, 1, phrase(1));
    if labels_complete(labels) {
        assert forall|s: Syllable| #[trigger] phrase(0).contains(s) implies labels.contains((0u8, s)) by {}
        assert forall|s: Syllable| #[trigger] phrase(1).contains(s) implies labels.contains((1u8, s)) by {}
    }
    if count_missing(labels, 0, phrase(0)) == 0 && count_missing(labels, 1, phrase(1)) == 0 {
        assert forall|p: u8, s: Syllable| p <= 1 && #[trigger] phrase(p).contains(s) implies labels.contains(
            (p, s),
        ) by {
            if p == 0 {
            } else {
                assert(p == 1);
            }
        }
    }
}

proof fn lemma_first_label_error_names(labels: Seq<(u8, Syllable)>)
    ensures
        first_label_error(labels) matches Some(e) ==> exists|i: int|
            0 <= i < labels.len() && labels_valid(labels.take(i)) && (e == (if (#[trigger] labels[i]).0 > 1 {
                TrainError::InvalidPhraseIndex(labels[i].0)
            } else {
                TrainError::WrongSyllableForPhrase { syllable: labels[i].1, phrase_index: labels[i].0 }
            })) && (labels[i].0 > 1 || !phrase(labels[i].0).contains(labels[i].1)),
    decreases labels.len(),
{
    if labels.len() > 0 {
        let t = labels.drop_first();
        lemma_first_label_error_names(t);
        let (p, s) = labels[0];
        if p > 1 || !phrase(p).contains(s) {
            assert(labels.take(0) =~= Seq::<(u8, Syllable)>::empty());
            assert(labels_valid(labels.take(0)));
        } else if let Some(e) = first_label_error(labels) {
            let i = choose|i: int|
                0 <= i < t.len() && labels_valid(t.take(i)) && (e == (if (#[trigger] t[i]).0 > 1 {
                    TrainError::InvalidPhraseIndex(t[i].0)
                } else {
                    TrainError::WrongSyllableForPhrase { syllable: t[i].1, phrase_index: t[i].0 }
                })) && (t[i].0 > 1 || !phrase(t[i].0).contains(t[i].1));
            assert(labels[i + 1] == t[i]);
            let h = labels.take(i + 1);
            assert forall|j: int| 0 <= j < h.len() implies (#[trigger] h[j]).0 <= 1 && phrase(
                h[j].0,
            ).contains(h[j].1) by {
                if j > 0 {
                    assert(h[j] == t.take(i)[j - 1]);
                }
            }
            assert(labels_valid(h));
        }
    }
}

/// The label checks report the first offending label, in sample order:
/// every label before it is valid, and it names a phrase index other than
/// 0 or 1 (`InvalidPhraseIndex`) or a syllable outside its phrase
/// (`WrongSyllableForPhrase`). A missing syllable of phrase 2 is reported
/// only when phrase 1 is complete.
pub proof fn law_training_labels_first_error(labels: Seq<(u8, Syllable)>)
    ensures
        match training_labels_check(labels) {
            Err(TrainError::InvalidPhraseIndex(p)) => exists|i: int|
                0 <= i < labels.len() && labels_valid(labels.take(i)) && (#[trigger] labels[i]).0 == p
                    && p > 1,
            Err(TrainError::WrongSyllableForPhrase { syllable, phrase_index }) => exists|i: int|
                0 <= i < labels.len() && labels_valid(labels.take(i)) && #[trigger] labels[i] == (
                phrase_index,
                syllable,
            ) && phrase_index <= 1 && !phrase(phrase_index).contains(syllable),
            Err(TrainError::IncompletePhraseTraining { phrase_index, missing_count }) => phrase_index
                == 1 ==> unlabelled(labels, 0).len() == 0,
            _ => true,
        },
{
    lemma_first_label_error_names(labels);
    lemma_first_label_error_none(labels);
    lemma_count_missing_filter(labels, 0, phrase(0));
}
} // verus!
