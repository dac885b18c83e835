//! User profile settings that involve no audio features: which calibration
//! strategy trained the profile, and the phoneme remapping applied to
//! classified syllables for accessibility.
use vstd::prelude::*;

use crate::q8::{Consonant, Phoneme, Syllable, Vowel};
use crate::text::{decimal_text, push_decimal};
use crate::transversal::{check_phrase_syllables, first_foreign, phrase, train_error_text, TrainError};

verus! {

/// Which calibration strategy was used to train this profile.
#[derive(Debug, Clone, Copy, PartialEq, Eq, Structural, Hash)]
pub enum CalibrationMode {
    /// 16-sound: all CV pairs calibrated directly
    Full,
    /// 8-sound: two orthogonal transversal phrases, reconstruct via intersection
    Transversal,
}

impl Default for CalibrationMode {
    fn default() -> (m: CalibrationMode)
        ensures
            m == CalibrationMode::Full,
    {
        CalibrationMode::Full
    }
}

/// The replacement for consonant `c` given by the first consonant-to-consonant
/// rule whose source is `c`, if any.
pub open spec fn consonant_target(rules: Seq<(Phoneme, Phoneme)>, c: Consonant) -> Option<Consonant>
    decreases rules.len(),
{
    if rules.len() == 0 {
        None
    } else {
        match rules[0] {
            (Phoneme::Consonant(from), Phoneme::Consonant(to)) => if from == c {
                Some(to)
            } else {
                consonant_target(rules.drop_first(), c)
            },
            _ => consonant_target(rules.drop_first(), c),
        }
    }
}

/// The replacement for vowel `v` given by the first vowel-to-vowel rule
/// whose source is `v`, if any.
pub open spec fn vowel_target(rules: Seq<(Phoneme, Phoneme)>, v: Vowel) -> Option<Vowel>
    decreases rules.len(),
{
    if rules.len() == 0 {
        None
    } else {
        match rules[0] {
            (Phoneme::Vowel(from), Phoneme::Vowel(to)) => if from == v {
                Some(to)
            } else {
                vowel_target(rules.drop_first(), v)
            },
            _ => vowel_target(rules.drop_first(), v),
        }
    }
}

/// A syllable after remapping: each component is replaced by the target of
/// the first same-type rule for it, and kept when there is none.
pub open spec fn remapped(rules: Seq<(Phoneme, Phoneme)>, s: Syllable) -> Syllable {
    Syllable {
        consonant: match consonant_target(rules, s.consonant) {
            Some(c) => c,
            None => s.consonant,
        },
        vowel: match vowel_target(rules, s.vowel) {
            Some(v) => v,
            None => s.vowel,
        },
    }
}

/// Apply a phoneme remapping to a syllable's components.
///
/// Looks up the syllable's consonant and vowel among the `(from, to)` rules;
/// the first rule whose `from` matches a component replaces it (rules do not
/// chain). Cross-type rules (consonant→vowel, vowel→consonant) are skipped,
/// and non-matching components pass through.
pub fn remap_syllable(custom_map: &[(Phoneme, Phoneme)], syllable: Syllable) -> (r: Syllable)
    ensures
        r == remapped(custom_map@, syllable),
{
    let orig_consonant = syllable.consonant;
    let orig_vowel = syllable.vowel;
    let mut consonant = syllable.consonant;
    let mut vowel = syllable.vowel;
    let mut consonant_remapped = false;
    let mut vowel_remapped = false;
    let mut i: usize = 0;
    assert(custom_map@.skip(0) =~= custom_map@);
    while i < custom_map.len()
        invariant
            i <= custom_map@.len(),
            !consonant_remapped ==> consonant == orig_consonant && consonant_target(
                custom_map@,
                orig_consonant,
            ) == consonant_target(custom_map@.skip(i as int), orig_consonant),
            consonant_remapped ==> consonant_target(custom_map@, orig_consonant) == Some(
                consonant,
            ),
            !vowel_remapped ==> vowel == orig_vowel && vowel_target(custom_map@, orig_vowel)
                == vowel_target(custom_map@.skip(i as int), orig_vowel),
            vowel_remapped ==> vowel_target(custom_map@, orig_vowel) == Some(vowel),
        decreases custom_map@.len() - i,
    {
        let (from, to) = custom_map[i];
        assert(custom_map@.skip(i as int)[0] == (from, to));
        assert(custom_map@.skip(i as int).drop_first() =~= custom_map@.skip(i + 1));
        match (from, to) {
            (Phoneme::Consonant(f), Phoneme::Consonant(t)) => {
                if f == orig_consonant && !consonant_remapped {
                    consonant = t;
                    consonant_remapped = true;
                }
            },
            (Phoneme::Vowel(f), Phoneme::Vowel(t)) => {
                if f == orig_vowel && !vowel_remapped {
                    vowel = t;
                    vowel_remapped = true;
                }
            },
            _ => {},
        }
        i += 1;
    }
    assert(custom_map@.skip(custom_map@.len() as int) =~= Seq::<(Phoneme, Phoneme)>::empty());
    Syllable { consonant, vowel }
}

// ---------------------------------------------------------------------------
// Importing a profile
// ---------------------------------------------------------------------------

/// The only profile format version this library reads.
pub const PROFILE_VERSION: u8 = 1;

/// Why an imported profile is refused.
#[derive(Debug, Clone, Copy, PartialEq, Eq, Structural)]
pub enum ProfileImportError {
    /// The profile's format version is not `PROFILE_VERSION`.
    UnsupportedVersion(u8),
    /// A transversal profile holds this many centroids instead of 8.
    WrongCentroidCount(usize),
    /// A transversal centroid is labelled with a syllable outside its phrase.
    Phrase(TrainError),
}

/// The outcome of checking a profile before it replaces the current one:
/// its version must be 1; a transversal profile must hold exactly 8
/// centroids, the first 4 labelled with syllables of phrase 1 and the last 4
/// with syllables of phrase 2.
pub open spec fn profile_import_check(
    version: u8,
    mode: CalibrationMode,
    centroid_syllables: Seq<Syllable>,
) -> Result<(), ProfileImportError> {
    if version != PROFILE_VERSION {
        Err(ProfileImportError::UnsupportedVersion(version))
    } else {
        match mode {
            CalibrationMode::Full => Ok(()),
            CalibrationMode::Transversal => if centroid_syllables.len() != 8 {
                Err(ProfileImportError::WrongCentroidCount(centroid_syllables.len() as usize))
            } else {
                match first_foreign(centroid_syllables.take(4), 0) {
                    Some(s) => Err(
                        ProfileImportError::Phrase(
                            TrainError::WrongSyllableForPhrase { syllable: s, phrase_index: 0 },
                        ),
                    ),
                    None => match first_foreign(centroid_syllables.skip(4), 1) {
                        Some(s) => Err(
                            ProfileImportError::Phrase(
                                TrainError::WrongSyllableForPhrase { syllable: s, phrase_index: 1 },
                            ),
                        ),
                        None => Ok(()),
                    },
                }
            },
        }
    }
}

/// Check the parts of an imported profile that decide whether it can be
/// loaded: its format version, its calibration mode, and the syllable
/// labels of its centroids, in order.
pub fn check_profile_import(
    version: u8,
    mode: CalibrationMode,
    centroid_syllables: &[Syllable],
) -> (r: Result<(), ProfileImportError>)
    ensures
        r == profile_import_check(version, mode, centroid_syllables@),
{
    if version != PROFILE_VERSION {
        return Err(ProfileImportError::UnsupportedVersion(version));
    }
    match mode {
        CalibrationMode::Full => Ok(()),
        CalibrationMode::Transversal => {
            let n = centroid_syllables.len();
            if n != 8 {
                return Err(ProfileImportError::WrongCentroidCount(n));
            }
            let mut first: Vec<Syllable> = Vec::new();
            let mut second: Vec<Syllable> = Vec::new();
            let mut i: usize = 0;
            while i < 8
                invariant
                    n == centroid_syllables@.len(),
                    n == 8,
                    i <= 8,
                    first@ =~= centroid_syllables@.take(if i < 4 { i as int } else { 4 }),
                    second@ =~= centroid_syllables@.subrange(4, if i < 4 { 4 } else { i as int }),
                decreases 8 - i,
            {
                if i < 4 {
                    first.push(centroid_syllables[i]);
                } else {
                    second.push(centroid_syllables[i]);
                }
                i += 1;
            }
            assert(centroid_syllables@.subrange(4, 8) =~= centroid_syllables@.skip(4));
            match check_phrase_syllables(first.as_slice(), second.as_slice()) {
                Ok(()) => Ok(()),
                Err(e) => Err(ProfileImportError::Phrase(e)),
            }
        },
    }
}

/// The human-readable text of a profile import error.
pub open spec fn profile_import_error_text(e: ProfileImportError) -> Seq<char> {
    match e {
        ProfileImportError::UnsupportedVersion(v) => "unsupported profile version "@ + decimal_text(
            v as nat,
        ),
        ProfileImportError::WrongCentroidCount(n) =>
            "transversal profile requires exactly 8 centroids, got "@ + decimal_text(n as nat),
        ProfileImportError::Phrase(t) => train_error_text(t),
    }
}

impl ProfileImportError {
    /// The human-readable message of this error.
    pub fn message(&self) -> (m: String)
        ensures
            m@ == profile_import_error_text(*self),
    {
        match *self {
            ProfileImportError::UnsupportedVersion(v) => {
                let mut m = String::from_str("unsupported profile version ");
                push_decimal(&mut m, v as u64);
                m
            },
            ProfileImportError::WrongCentroidCount(n) => {
                let mut m = String::from_str(
                    "transversal profile requires exactly 8 centroids, got ",
                );
                push_decimal(&mut m, n as u64);
                m
            },
            ProfileImportError::Phrase(t) => t.message(),
        }
    }
}

// ---------------------------------------------------------------------------
// Laws
// ---------------------------------------------------------------------------

/// Rules apply once and do not chain: when a rule for a component comes
/// first, the component becomes that rule's target, whatever rules follow
/// (including rules whose source is that target, and later rules for the
/// same source).
pub proof fn law_remap_first_rule_wins(
    rules: Seq<(Phoneme, Phoneme)>,
    later: Seq<(Phoneme, Phoneme)>,
    s: Syllable,
)
    requires
        consonant_target(rules, s.consonant) is Some,
    ensures
        remapped(rules + later, s).consonant == consonant_target(rules, s.consonant)->0,
    decreases rules.len(),
{
    if rules.len() > 0 {
        assert((rules + later)[0] == rules[0]);
        assert((rules + later).drop_first() =~= rules.drop_first() + later);
        match rules[0] {
            (Phoneme::Consonant(from), Phoneme::Consonant(to)) => {
                if from != s.consonant {
                    law_remap_first_rule_wins(rules.drop_first(), later, s);
                }
            },
            _ => {
                law_remap_first_rule_wins(rules.drop_first(), later, s);
            },
        }
    }
}

/// Rules that map a consonant to a vowel or a vowel to a consonant have no
/// effect: adding them anywhere leaves every remapping unchanged.
pub proof fn law_remap_ignores_cross_type(
    rules: Seq<(Phoneme, Phoneme)>,
    from: Phoneme,
    to: Phoneme,
    s: Syllable,
)
    requires
        (from is Consonant && to is Vowel) || (from is Vowel && to is Consonant),
    ensures
        remapped(seq![(from, to)] + rules, s) == remapped(rules, s),
{
    let all = seq![(from, to)] + rules;
    assert(all[0] == (from, to));
    assert(all.drop_first() =~= rules);
}

/// A syllable with no rule for either component passes through unchanged.
pub proof fn law_remap_passthrough(rules: Seq<(Phoneme, Phoneme)>, s: Syllable)
    requires
        consonant_target(rules, s.consonant) is None,
        vowel_target(rules, s.vowel) is None,
    ensures
        remapped(rules, s) == s,
{
}


/// Rule `r` replaces consonant `c`: it maps `c` to some consonant.
pub open spec fn consonant_rule_for(r: (Phoneme, Phoneme), c: Consonant) -> bool {
    r.0 == Phoneme::Consonant(c) && r.1 is Consonant
}

/// Rule `r` replaces vowel `v`: it maps `v` to some vowel.
pub open spec fn vowel_rule_for(r: (Phoneme, Phoneme), v: Vowel) -> bool {
    r.0 == Phoneme::Vowel(v) && r.1 is Vowel
}

proof fn lemma_consonant_target_at(rules: Seq<(Phoneme, Phoneme)>, c: Consonant, j: int)
    requires
        0 <= j < rules.len(),
        consonant_rule_for(rules[j], c),
        forall|i: int| 0 <= i < j ==> !consonant_rule_for(#[trigger] rules[i], c),
    ensures
        consonant_target(rules, c) matches Some(t) && rules[j].1 == Phoneme::Consonant(t),
    decreases j,
{
    if j > 0 {
        assert(!consonant_rule_for(rules[0], c));
        let t = rules.drop_first();
        assert forall|i: int| 0 <= i < j - 1 implies !consonant_rule_for(#[trigger] t[i], c) by {
            assert(t[i] == rules[i + 1]);
        }
        lemma_consonant_target_at(t, c, j - 1);
    }
}

proof fn lemma_consonant_target_none(rules: Seq<(Phoneme, Phoneme)>, c: Consonant)
    requires
        forall|i: int| 0 <= i < rules.len() ==> !consonant_rule_for(#[trigger] rules[i], c),
    ensures
        consonant_target(rules, c) is None,
    decreases rules.len(),
{
    if rules.len() > 0 {
        assert(!consonant_rule_for(rules[0], c));
        let t = rules.drop_first();
        assert forall|i: int| 0 <= i < t.len() implies !consonant_rule_for(#[trigger] t[i], c) by {
            assert(t[i] == rules[i + 1]);
        }
        lemma_consonant_target_none(t, c);
    }
}

proof fn lemma_vowel_target_at(rules: Seq<(Phoneme, Phoneme)>, v: Vowel, j: int)
    requires
        0 <= j < rules.len(),
        vowel_rule_for(rules[j], v),
        forall|i: int| 0 <= i < j ==> !vowel_rule_for(#[trigger] rules[i], v),
    ensures
        vowel_target(rules, v) matches Some(t) && rules[j].1 == Phoneme::Vowel(t),
    decreases j,
{
    if j > 0 {
        assert(!vowel_rule_for(rules[0], v));
        let t = rules.drop_first();
        assert forall|i: int| 0 <= i < j - 1 implies !vowel_rule_for(#[trigger] t[i], v) by {
            assert(t[i] == rules[i + 1]);
        }
        lemma_vowel_target_at(t, v, j - 1);
    }
}

proof fn lemma_vowel_target_none(rules: Seq<(Phoneme, Phoneme)>, v: Vowel)
    requires
        forall|i: int| 0 <= i < rules.len() ==> !vowel_rule_for(#[trigger] rules[i], v),
    ensures
        vowel_target(rules, v) is None,
    decreases rules.len(),
{
    if rules.len() > 0 {
        assert(!vowel_rule_for(rules[0], v));
        let t = rules.drop_first();
        assert forall|i: int| 0 <= i < t.len() implies !vowel_rule_for(#[trigger] t[i], v) by {
            assert(t[i] == rules[i + 1]);
        }
        lemma_vowel_target_none(t, v);
    }
}

/// Each component is replaced by the target of the first rule, in order,
/// that maps it to the same kind of phoneme, once: the rules after it,
/// including rules whose source is that target, play no part.
pub proof fn law_remap_first_rule_applies_once(rules: Seq<(Phoneme, Phoneme)>, s: Syllable, j: int)
    requires
        0 <= j < rules.len(),
    ensures
        consonant_rule_for(rules[j], s.consonant) && (forall|i: int|
            0 <= i < j ==> !consonant_rule_for(#[trigger] rules[i], s.consonant)) ==> Phoneme::Consonant(
            remapped(rules, s).consonant,
        ) == rules[j].1,
        vowel_rule_for(rules[j], s.vowel) && (forall|i: int|
            0 <= i < j ==> !vowel_rule_for(#[trigger] rules[i], s.vowel)) ==> Phoneme::Vowel(
            remapped(rules, s).vowel,
        ) == rules[j].1,
{
    if consonant_rule_for(rules[j], s.consonant) && (forall|i: int|
        0 <= i < j ==> !consonant_rule_for(#[trigger] rules[i], s.consonant)) {
        lemma_consonant_target_at(rules, s.consonant, j);
    }
    if vowel_rule_for(rules[j], s.vowel) && (forall|i: int|
        0 <= i < j ==> !vowel_rule_for(#[trigger] rules[i], s.vowel)) {
        lemma_vowel_target_at(rules, s.vowel, j);
    }
}

/// A component that no rule maps to the same kind of phoneme is kept.
pub proof fn law_remap_keeps_unruled(rules: Seq<(Phoneme, Phoneme)>, s: Syllable)
    ensures
        (forall|i: int| 0 <= i < rules.len() ==> !consonant_rule_for(#[trigger] rules[i], s.consonant))
            ==> remapped(rules, s).consonant == s.consonant,
        (forall|i: int| 0 <= i < rules.len() ==> !vowel_rule_for(#[trigger] rules[i], s.vowel))
            ==> remapped(rules, s).vowel == s.vowel,
{
    if forall|i: int| 0 <= i < rules.len() ==> !consonant_rule_for(#[trigger] rules[i], s.consonant) {
        lemma_consonant_target_none(rules, s.consonant);
    }
    if forall|i: int| 0 <= i < rules.len() ==> !vowel_rule_for(#[trigger] rules[i], s.vowel) {
        lemma_vowel_target_none(rules, s.vowel);
    }
}

proof fn lemma_first_foreign(syllables: Seq<Syllable>, index: u8)
    ensures
        first_foreign(syllables, index) is None <==> forall|i: int|
            0 <= i < syllables.len() ==> phrase(index).contains(#[trigger] syllables[i]),
        first_foreign(syllables, index) matches Some(s) ==> !phrase(index).contains(s) && exists|
            i: int,
        |
            0 <= i < syllables.len() && #[trigger] syllables[i] == s && forall|j: int|
                0 <= j < i ==> phrase(index).contains(#[trigger] syllables[j]),
    decreases syllables.len(),
{
    if syllables.len() > 0 {
        let t = syllables.drop_first();
        lemma_first_foreign(t, index);
        if first_foreign(syllables, index) is None {
            assert forall|i: int| 0 <= i < syllables.len() implies phrase(index).contains(
                #[trigger] syllables[i],
            ) by {
                if i > 0 {
                    assert(syllables[i] == t[i - 1]);
                }
            }
        }
        if forall|i: int| 0 <= i < syllables.len() ==> phrase(index).contains(#[trigger] syllables[i]) {
            assert forall|i: int| 0 <= i < t.len() implies phrase(index).contains(#[trigger] t[i]) by {
                assert(t[i] == syllables[i + 1]);
            }
            assert(phrase(index).contains(syllables[0]));
        }
        if let Some(s) = first_foreign(syllables, index) {
            if phrase(index).contains(syllables[0]) {
                let k = choose|k: int|
                    0 <= k < t.len() && #[trigger] t[k] == s && forall|j: int|
                        0 <= j < k ==> phrase(index).contains(#[trigger] t[j]);
                assert(syllables[k + 1] == s);
                assert forall|j: int| 0 <= j < k + 1 implies phrase(index).contains(
                    #[trigger] syllables[j],
                ) by {
                    if j > 0 {
                        assert(syllables[j] == t[j - 1]);
                    }
                }
            } else {
                assert(syllables[0] == s);
            }
        }
    }
}

/// An imported profile is accepted exactly when its version is
/// `PROFILE_VERSION` and, for a transversal profile, it holds 8 centroids,
/// the first four labelled with syllables of phrase 1 and the last four with
/// syllables of phrase 2. Each refusal names what is wrong: the version, the
/// centroid count, or the first centroid syllable, in order, that lies
/// outside its half's phrase (phrase index 0 for the first four, 1 for the
/// last four, which are checked only once the first four pass).
pub proof fn law_profile_import_accepts_exported_halves(
    version: u8,
    mode: CalibrationMode,
    labels: Seq<Syllable>,
)
    ensures
        profile_import_check(version, mode, labels) is Ok <==> version == PROFILE_VERSION && (mode
            == CalibrationMode::Full || (labels.len() == 8 && (forall|i: int|
            0 <= i < 4 ==> phrase(0).contains(#[trigger] labels[i])) && (forall|i: int|
            4 <= i < 8 ==> phrase(1).contains(#[trigger] labels[i])))),
        match profile_import_check(version, mode, labels) {
            Ok(()) => true,
            Err(ProfileImportError::UnsupportedVersion(v)) => v == version && version
                != PROFILE_VERSION,
            Err(ProfileImportError::WrongCentroidCount(n)) => mode == CalibrationMode::Transversal
                && n == labels.len() as usize && labels.len() != 8,
            Err(
                ProfileImportError::Phrase(
                    TrainError::WrongSyllableForPhrase { syllable, phrase_index },
                ),
            ) => mode == CalibrationMode::Transversal && labels.len() == 8 && ((phrase_index == 0
                && !phrase(0).contains(syllable) && exists|i: int|
                0 <= i < 4 && #[trigger] labels[i] == syllable && forall|j: int|
                    0 <= j < i ==> phrase(0).contains(#[trigger] labels[j])) || (phrase_index == 1
                && !phrase(1).contains(syllable) && (forall|j: int|
                0 <= j < 4 ==> phrase(0).contains(#[trigger] labels[j])) && exists|i: int|
                4 <= i < 8 && #[trigger] labels[i] == syllable && forall|j: int|
                    4 <= j < i ==> phrase(1).contains(#[trigger] labels[j]))),
            Err(ProfileImportError::Phrase(_)) => false,
        },
{
    if version == PROFILE_VERSION && mode == CalibrationMode::Transversal && labels.len() == 8 {
        let a = labels.take(4);
        let b = labels.skip(4);
        lemma_first_foreign(a, 0);
        lemma_first_foreign(b, 1);
        if forall|i: int| 0 <= i < 4 ==> phrase(0).contains(#[trigger] labels[i]) {
            assert forall|i: int| 0 <= i < a.len() implies phrase(0).contains(#[trigger] a[i]) by {
                assert(a[i] == labels[i]);
            }
        }
        if forall|i: int| 4 <= i < 8 ==> phrase(1).contains(#[trigger] labels[i]) {
            assert forall|i: int| 0 <= i < b.len() implies phrase(1).contains(#[trigger] b[i]) by {
                assert(b[i] == labels[i + 4]);
            }
        }
        if first_foreign(a, 0) is None {
            assert forall|i: int| 0 <= i < 4 implies phrase(0).contains(#[trigger] labels[i]) by {
                assert(a[i] == labels[i]);
            }
        }
        if first_foreign(b, 1) is None {
            assert forall|i: int| 4 <= i < 8 implies phrase(1).contains(#[trigger] labels[i]) by {
                assert(b[i - 4] == labels[i]);
            }
        }
        match first_foreign(a, 0) {
            Some(s) => {
                let k = choose|k: int|
                    0 <= k < a.len() && #[trigger] a[k] == s && forall|j: int|
                        0 <= j < k ==> phrase(0).contains(#[trigger] a[j]);
                assert(labels[k] == s);
                assert forall|j: int| 0 <= j < k implies phrase(0).contains(#[trigger] labels[j]) by {
                    assert(a[j] == labels[j]);
                }
            },
            None => match first_foreign(b, 1) {
                Some(s) => {
                    let k = choose|k: int|
                        0 <= k < b.len() && #[trigger] b[k] == s && forall|j: int|
                            0 <= j < k ==> phrase(1).contains(#[trigger] b[j]);
                    assert(labels[k + 4] == s);
                    assert forall|j: int| 4 <= j < k + 4 implies phrase(1).contains(
                        #[trigger] labels[j],
                    ) by {
                        assert(b[j - 4] == labels[j]);
                    }
                },
                None => {},
            },
        }
    }
}
} // verus!
