//! The structured morphological record (`Pada`) and its dimensions.
//!
//! Each optional dimension (gender, case, number, person, tense-mood, voice)
//! is a closed enumeration; absence of a value is expressed with `Option` at
//! this structured boundary, and with a fixed-width "unspecified" tag inside
//! the packed form (see [`crate::packing`]).
//!
//! Equality of records is full structural equality: the variant and every
//! field must match, and stem or root identity (by text) participates for
//! the variants that carry one. This includes the root of a verb record,
//! which is compared like every other field.

use vstd::prelude::*;
use crate::text::ascii_text;

verus! {

/// The person of a Sanskrit verb.
#[derive(Clone, Copy, Debug, PartialEq, Eq, Structural)]
pub enum Purusha {
    /// The first *purusha* (third person).
    Prathama,
    /// The middle *purusha* (second person).
    Madhyama,
    /// The last *purusha* (first person).
    Uttama,
}

/// The gender of a Sanskrit nominal.
#[derive(Clone, Copy, Debug, PartialEq, Eq, Structural)]
pub enum Linga {
    /// The masculine gender.
    Pum,
    /// The feminine gender.
    Stri,
    /// The neuter gender.
    Napumsaka,
}

/// The number of a Sanskrit word.
#[derive(Clone, Copy, Debug, PartialEq, Eq, Structural)]
pub enum Vacana {
    /// The singular.
    Eka,
    /// The dual.
    Dvi,
    /// The plural.
    Bahu,
}

/// The case of a Sanskrit nominal.
#[derive(Clone, Copy, Debug, PartialEq, Eq, Structural)]
pub enum Vibhakti {
    /// The first *vibhakti* (nominative case).
    V1,
    /// The second *vibhakti* (accusative case).
    V2,
    /// The third *vibhakti* (instrumental case).
    V3,
    /// The fourth *vibhakti* (dative case).
    V4,
    /// The fifth *vibhakti* (ablative case).
    V5,
    /// The sixth *vibhakti* (genitive case).
    V6,
    /// The seventh *vibhakti* (locative case).
    V7,
    /// The first *vibhakti* in the condition of *sambodhana* (vocative case).
    Sambodhana,
}

/// The tense-mood of a Sanskrit verb.
#[derive(Clone, Copy, Debug, PartialEq, Eq, Structural)]
pub enum Lakara {
    /// *lat-lakara* (present indicative).
    Lat,
    /// *lit-lakara* (perfect).
    Lit,
    /// *lut-lakara* (periphrastic future).
    Lut,
    /// *lrt-lakara* (simple future).
    Lrt,
    /// *let-lakara* (Vedic subjunctive).
    Let,
    /// *lot-lakara* (imperative).
    Lot,
    /// *lan-lakara* (imperfect).
    Lan,
    /// *lin-lakara* in the sense of a rule or injunction (optative).
    LinVidhi,
    /// *lin-lakara* in the sense of benediction (benedictive).
    LinAshih,
    /// *lun-lakara* (aorist).
    Lun,
    /// *lun-lakara* without its *a-* prefix (injunctive).
    LunNoAgama,
    /// *lrn-lakara* (conditional).
    Lrn,
}

/// The voice of a Sanskrit verb.
#[derive(Clone, Copy, Debug, PartialEq, Eq, Structural)]
pub enum PadaPrayoga {
    /// A *parasmaipada* form.
    Parasmaipada,
    /// An *atmanepada* form used in the *kartari* sense.
    AtmanepadaKartari,
    /// An *atmanepada* form used outside the *kartari* sense.
    AtmanepadaNotKartari,
}

/// A verb root, identified by its text; equality is by text.
#[derive(Debug)]
pub struct Dhatu {
    /// The text of this dhatu.
    pub text: String,
}

/// A nominal stem, identified by its text; equality is by text.
#[derive(Debug)]
pub struct Pratipadika {
    /// The text of this pratipadika.
    pub text: String,
}

/// An indeclinable word form.
#[derive(Debug)]
pub struct Avyaya {
    /// The nominal stem of this indeclinable.
    pub pratipadika: Pratipadika,
}

/// A nominal word form. Gender, case and number are each independently
/// optional: a form may be ambiguous or underspecified in any one dimension.
#[derive(Debug)]
pub struct Subanta {
    /// The nominal stem.
    pub pratipadika: Pratipadika,
    /// The gender, when specified.
    pub linga: Option<Linga>,
    /// The case, when specified.
    pub vibhakti: Option<Vibhakti>,
    /// The number, when specified.
    pub vacana: Option<Vacana>,
    /// Whether this word occurs as the prior member of a compound.
    pub is_purvapada: bool,
}

/// A verb word form. All five fields are independently optional.
#[derive(Debug)]
pub struct Tinanta {
    /// The verb root, when specified.
    pub dhatu: Option<Dhatu>,
    /// The person, when specified.
    pub purusha: Option<Purusha>,
    /// The number, when specified.
    pub vacana: Option<Vacana>,
    /// The tense-mood, when specified.
    pub lakara: Option<Lakara>,
    /// The voice, when specified.
    pub pada_prayoga: Option<PadaPrayoga>,
}

/// A structured morphological record for one Sanskrit word form.
#[derive(Debug)]
pub enum Pada {
    /// The absence marker: a structural placeholder, never persisted as a
    /// real entry.
    Absent,
    /// An indeclinable.
    Avyaya(Avyaya),
    /// A nominal.
    Subanta(Subanta),
    /// A verb.
    Tinanta(Tinanta),
}

/// The mathematical value of a record: texts become character sequences,
/// everything else is carried as is.
#[verifier::ext_equal]
pub enum PadaView {
    /// The absence marker.
    Absent,
    /// An indeclinable.
    Avyaya { pratipadika: Seq<char> },
    /// A nominal.
    Subanta {
        pratipadika: Seq<char>,
        linga: Option<Linga>,
        vibhakti: Option<Vibhakti>,
        vacana: Option<Vacana>,
        is_purvapada: bool,
    },
    /// A verb.
    Tinanta {
        dhatu: Option<Seq<char>>,
        purusha: Option<Purusha>,
        vacana: Option<Vacana>,
        lakara: Option<Lakara>,
        pada_prayoga: Option<PadaPrayoga>,
    },
}

/// The text of an optional root, as a character sequence.
pub open spec fn opt_dhatu_view(d: Option<Dhatu>) -> Option<Seq<char>> {
    match d {
        Option::Some(x) => Option::Some(x.text@),
        Option::None => Option::None,
    }
}

impl View for Dhatu {
    type V = Seq<char>;

    open spec fn view(&self) -> Seq<char> {
        self.text@
    }
}

impl View for Pratipadika {
    type V = Seq<char>;

    open spec fn view(&self) -> Seq<char> {
        self.text@
    }
}

impl View for Pada {
    type V = PadaView;

    open spec fn view(&self) -> PadaView {
        match self {
            Pada::Absent => PadaView::Absent,
            Pada::Avyaya(a) => PadaView::Avyaya { pratipadika: a.pratipadika.text@ },
            Pada::Subanta(s) => (PadaView::Subanta {
                pratipadika: s.pratipadika.text@,
                linga: s.linga,
                vibhakti: s.vibhakti,
                vacana: s.vacana,
                is_purvapada: s.is_purvapada,
            }),
            Pada::Tinanta(t) => (PadaView::Tinanta {
                dhatu: opt_dhatu_view(t.dhatu),
                purusha: t.purusha,
                vacana: t.vacana,
                lakara: t.lakara,
                pada_prayoga: t.pada_prayoga,
            }),
        }
    }
}

/// The texts a record carries all lie in the transliteration alphabet.
pub open spec fn wf_pada_view(v: PadaView) -> bool {
    match v {
        PadaView::Absent => true,
        PadaView::Avyaya { pratipadika } => ascii_text(pratipadika),
        PadaView::Subanta { pratipadika, .. } => ascii_text(pratipadika),
        PadaView::Tinanta { dhatu, .. } => match dhatu {
            Option::Some(d) => ascii_text(d),
            Option::None => true,
        },
    }
}

impl Dhatu {
    /// Create a new `Dhatu` from its text.
    pub fn new(text: String) -> (r: Dhatu)
        ensures
            r@ == text@,
    {
        Dhatu { text }
    }
}

impl Pratipadika {
    /// Create a new `Pratipadika` from its text.
    pub fn new(text: String) -> (r: Pratipadika)
        ensures
            r@ == text@,
    {
        Pratipadika { text }
    }
}

impl Pada {
    /// Create a new *avyaya* (indeclinable).
    pub fn make_avyaya(pratipadika: Pratipadika) -> (r: Pada)
        ensures
            r@ == (PadaView::Avyaya { pratipadika: pratipadika@ }),
    {
        Pada::Avyaya(Avyaya { pratipadika })
    }

    /// Create a new *subanta* (nominal).
    pub fn make_subanta(
        pratipadika: Pratipadika,
        linga: Option<Linga>,
        vibhakti: Option<Vibhakti>,
        vacana: Option<Vacana>,
    ) -> (r: Pada)
        ensures
            r@ == (PadaView::Subanta {
                pratipadika: pratipadika@,
                linga,
                vibhakti,
                vacana,
                is_purvapada: false,
            }),
    {
        Pada::Subanta(Subanta { pratipadika, linga, vibhakti, vacana, is_purvapada: false })
    }

    /// Create a new *tinanta* (verb).
    pub fn make_tinanta(
        dhatu: Option<Dhatu>,
        purusha: Option<Purusha>,
        vacana: Option<Vacana>,
        lakara: Option<Lakara>,
        pada_prayoga: Option<PadaPrayoga>,
    ) -> (r: Pada)
        ensures
            r@ == (PadaView::Tinanta {
                dhatu: opt_dhatu_view(dhatu),
                purusha,
                vacana,
                lakara,
                pada_prayoga,
            }),
    {
        Pada::Tinanta(Tinanta { dhatu, purusha, vacana, lakara, pada_prayoga })
    }
}

impl PartialEq for Dhatu {
    fn eq(&self, other: &Dhatu) -> (r: bool) {
        self.text == other.text
    }
}

impl vstd::std_specs::cmp::PartialEqSpecImpl for Dhatu {
    open spec fn obeys_eq_spec() -> bool {
        true
    }

    open spec fn eq_spec(&self, other: &Dhatu) -> bool {
        self@ == other@
    }
}

impl Eq for Dhatu {

}

impl PartialEq for Pratipadika {
    fn eq(&self, other: &Pratipadika) -> (r: bool) {
        self.text == other.text
    }
}

impl vstd::std_specs::cmp::PartialEqSpecImpl for Pratipadika {
    open spec fn obeys_eq_spec() -> bool {
        true
    }

    open spec fn eq_spec(&self, other: &Pratipadika) -> bool {
        self@ == other@
    }
}

impl Eq for Pratipadika {

}

impl PartialEq for Pada {
    fn eq(&self, other: &Pada) -> (r: bool) {
        match (self, other) {
            (Pada::Absent, Pada::Absent) => true,
            (Pada::Avyaya(a), Pada::Avyaya(b)) => a.pratipadika.text == b.pratipadika.text,
            (Pada::Subanta(a), Pada::Subanta(b)) => {
                let stems_eq = a.pratipadika.text == b.pratipadika.text;
                let lingas_eq = match (a.linga, b.linga) {
                    (Option::Some(x), Option::Some(y)) => x == y,
                    (Option::None, Option::None) => true,
                    _ => false,
                };
                let vibhaktis_eq = match (a.vibhakti, b.vibhakti) {
                    (Option::Some(x), Option::Some(y)) => x == y,
                    (Option::None, Option::None) => true,
                    _ => false,
                };
                let vacanas_eq = match (a.vacana, b.vacana) {
                    (Option::Some(x), Option::Some(y)) => x == y,
                    (Option::None, Option::None) => true,
                    _ => false,
                };
                stems_eq && lingas_eq && vibhaktis_eq && vacanas_eq && a.is_purvapada
                    == b.is_purvapada
            },
            (Pada::Tinanta(a), Pada::Tinanta(b)) => {
                let dhatus_eq = match (&a.dhatu, &b.dhatu) {
                    (Option::Some(x), Option::Some(y)) => x.text == y.text,
                    (Option::None, Option::None) => true,
                    _ => false,
                };
                let purushas_eq = match (a.purusha, b.purusha) {
                    (Option::Some(x), Option::Some(y)) => x == y,
                    (Option::None, Option::None) => true,
                    _ => false,
                };
                let vacanas_eq = match (a.vacana, b.vacana) {
                    (Option::Some(x), Option::Some(y)) => x == y,
                    (Option::None, Option::None) => true,
                    _ => false,
                };
                let lakaras_eq = match (a.lakara, b.lakara) {
                    (Option::Some(x), Option::Some(y)) => x == y,
                    (Option::None, Option::None) => true,
                    _ => false,
                };
                let prayogas_eq = match (a.pada_prayoga, b.pada_prayoga) {
                    (Option::Some(x), Option::Some(y)) => x == y,
                    (Option::None, Option::None) => true,
                    _ => false,
                };
                dhatus_eq && purushas_eq && vacanas_eq && lakaras_eq && prayogas_eq
            },
            _ => false,
        }
    }
}

impl vstd::std_specs::cmp::PartialEqSpecImpl for Pada {
    open spec fn obeys_eq_spec() -> bool {
        true
    }

    open spec fn eq_spec(&self, other: &Pada) -> bool {
        self@ == other@
    }
}

impl Eq for Pada {

}

} // verus!
