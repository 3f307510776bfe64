//! The record codec: a lossless, compact packing of `Pada`.
//!
//! A packed record is a 32-bit word of fixed-width tag fields together with
//! the text of the stem or root the record carries. The word holds six
//! base-16 digits:
//!
//! * digit 0: the variant discriminant (absent, avyaya, subanta, tinanta);
//! * digits 1 to 4: the optional dimensions of the variant, each with code 0
//!   for "unspecified" and codes 1 and up for the members of its enumeration;
//! * digit 5: whether the record carries a text (a stem or root).
//!
//! The discriminant is stored once per record; each optional dimension has
//! its own "unspecified" sentinel, independent of the discriminant. Encoding
//! never fails; decoding rejects any word whose digits do not name a variant
//! and members exactly, and is atomic: it returns a fully valid `Pada` or an
//! error, never a partial record.

use vstd::prelude::*;
use crate::errors::DecodeError;
use crate::semantics::{Lakara, Linga, Pada, PadaPrayoga, PadaView, Purusha, Vacana, Vibhakti};
use crate::semantics::{Avyaya, Dhatu, Pratipadika, Subanta, Tinanta};
use crate::text::ascii_text;

verus! {

/// A packed record: six base-16 tag digits and the carried text.
#[derive(Debug)]
pub struct PackedPada {
    /// The tag word.
    pub value: u32,
    /// The stem or root text; empty when the record carries none.
    pub text: String,
}

/// The mathematical value of a packed record.
#[verifier::ext_equal]
pub struct PackedPadaView {
    /// The tag word.
    pub value: u32,
    /// The carried text.
    pub text: Seq<char>,
}

impl View for PackedPada {
    type V = PackedPadaView;

    open spec fn view(&self) -> PackedPadaView {
        PackedPadaView { value: self.value, text: self.text@ }
    }
}

impl Clone for PackedPada {
    /// Cloning keeps the packed value.
    fn clone(&self) -> (r: PackedPada)
        ensures
            r@ == self@,
    {
        PackedPada { value: self.value, text: self.text.clone() }
    }
}

impl PartialEq for PackedPada {
    fn eq(&self, other: &PackedPada) -> (r: bool) {
        self.value == other.value && self.text == other.text
    }
}

impl vstd::std_specs::cmp::PartialEqSpecImpl for PackedPada {
    open spec fn obeys_eq_spec() -> bool {
        true
    }

    open spec fn eq_spec(&self, other: &PackedPada) -> bool {
        self@ == other@
    }
}

impl Eq for PackedPada {

}

/// The text of a packed record lies in the transliteration alphabet.
pub open spec fn wf_packed_view(v: PackedPadaView) -> bool {
    ascii_text(v.text)
}

/// The base-16 digit of `v` at the place with weight `place`.
pub open spec fn field_digit(v: u32, place: u32) -> int {
    ((v as int) / (place as int)) % 16
}

/// The code of an optional gender: 0 for unspecified.
pub open spec fn linga_code(x: Option<Linga>) -> u32 {
    match x {
        Option::None => 0,
        Option::Some(Linga::Pum) => 1,
        Option::Some(Linga::Stri) => 2,
        Option::Some(Linga::Napumsaka) => 3,
    }
}

/// The optional gender named by a code, if the code is in range.
pub open spec fn linga_of_code(c: int) -> Option<Option<Linga>> {
    if c == 0 {
        Option::Some(Option::None)
    } else if c == 1 {
        Option::Some(Option::Some(Linga::Pum))
    } else if c == 2 {
        Option::Some(Option::Some(Linga::Stri))
    } else if c == 3 {
        Option::Some(Option::Some(Linga::Napumsaka))
    } else {
        Option::None
    }
}

/// The code of an optional case: 0 for unspecified.
pub open spec fn vibhakti_code(x: Option<Vibhakti>) -> u32 {
    match x {
        Option::None => 0,
        Option::Some(Vibhakti::V1) => 1,
        Option::Some(Vibhakti::V2) => 2,
        Option::Some(Vibhakti::V3) => 3,
        Option::Some(Vibhakti::V4) => 4,
        Option::Some(Vibhakti::V5) => 5,
        Option::Some(Vibhakti::V6) => 6,
        Option::Some(Vibhakti::V7) => 7,
        Option::Some(Vibhakti::Sambodhana) => 8,
    }
}

/// The optional case named by a code, if the code is in range.
pub open spec fn vibhakti_of_code(c: int) -> Option<Option<Vibhakti>> {
    if c == 0 {
        Option::Some(Option::None)
    } else if c == 1 {
        Option::Some(Option::Some(Vibhakti::V1))
    } else if c == 2 {
        Option::Some(Option::Some(Vibhakti::V2))
    } else if c == 3 {
        Option::Some(Option::Some(Vibhakti::V3))
    } else if c == 4 {
        Option::Some(Option::Some(Vibhakti::V4))
    } else if c == 5 {
        Option::Some(Option::Some(Vibhakti::V5))
    } else if c == 6 {
        Option::Some(Option::Some(Vibhakti::V6))
    } else if c == 7 {
        Option::Some(Option::Some(Vibhakti::V7))
    } else if c == 8 {
        Option::Some(Option::Some(Vibhakti::Sambodhana))
    } else {
        Option::None
    }
}

/// The code of an optional number: 0 for unspecified.
pub open spec fn vacana_code(x: Option<Vacana>) -> u32 {
    match x {
        Option::None => 0,
        Option::Some(Vacana::Eka) => 1,
        Option::Some(Vacana::Dvi) => 2,
        Option::Some(Vacana::Bahu) => 3,
    }
}

/// The optional number named by a code, if the code is in range.
pub open spec fn vacana_of_code(c: int) -> Option<Option<Vacana>> {
    if c == 0 {
        Option::Some(Option::None)
    } else if c == 1 {
        Option::Some(Option::Some(Vacana::Eka))
    } else if c == 2 {
        Option::Some(Option::Some(Vacana::Dvi))
    } else if c == 3 {
        Option::Some(Option::Some(Vacana::Bahu))
    } else {
        Option::None
    }
}

/// The code of an optional person: 0 for unspecified.
pub open spec fn purusha_code(x: Option<Purusha>) -> u32 {
    match x {
        Option::None => 0,
        Option::Some(Purusha::Prathama) => 1,
        Option::Some(Purusha::Madhyama) => 2,
        Option::Some(Purusha::Uttama) => 3,
    }
}

/// The optional person named by a code, if the code is in range.
pub open spec fn purusha_of_code(c: int) -> Option<Option<Purusha>> {
    if c == 0 {
        Option::Some(Option::None)
    } else if c == 1 {
        Option::Some(Option::Some(Purusha::Prathama))
    } else if c == 2 {
        Option::Some(Option::Some(Purusha::Madhyama))
    } else if c == 3 {
        Option::Some(Option::Some(Purusha::Uttama))
    } else {
        Option::None
    }
}

/// The code of an optional tense-mood: 0 for unspecified.
pub open spec fn lakara_code(x: Option<Lakara>) -> u32 {
    match x {
        Option::None => 0,
        Option::Some(Lakara::Lat) => 1,
        Option::Some(Lakara::Lit) => 2,
        Option::Some(Lakara::Lut) => 3,
        Option::Some(Lakara::Lrt) => 4,
        Option::Some(Lakara::Let) => 5,
        Option::Some(Lakara::Lot) => 6,
        Option::Some(Lakara::Lan) => 7,
        Option::Some(Lakara::LinVidhi) => 8,
        Option::Some(Lakara::LinAshih) => 9,
        Option::Some(Lakara::Lun) => 10,
        Option::Some(Lakara::LunNoAgama) => 11,
        Option::Some(Lakara::Lrn) => 12,
    }
}

/// The optional tense-mood named by a code, if the code is in range.
pub open spec fn lakara_of_code(c: int) -> Option<Option<Lakara>> {
    if c == 0 {
        Option::Some(Option::None)
    } else if c == 1 {
        Option::Some(Option::Some(Lakara::Lat))
    } else if c == 2 {
        Option::Some(Option::Some(Lakara::Lit))
    } else if c == 3 {
        Option::Some(Option::Some(Lakara::Lut))
    } else if c == 4 {
        Option::Some(Option::Some(Lakara::Lrt))
    } else if c == 5 {
        Option::Some(Option::Some(Lakara::Let))
    } else if c == 6 {
        Option::Some(Option::Some(Lakara::Lot))
    } else if c == 7 {
        Option::Some(Option::Some(Lakara::Lan))
    } else if c == 8 {
        Option::Some(Option::Some(Lakara::LinVidhi))
    } else if c == 9 {
        Option::Some(Option::Some(Lakara::LinAshih))
    } else if c == 10 {
        Option::Some(Option::Some(Lakara::Lun))
    } else if c == 11 {
        Option::Some(Option::Some(Lakara::LunNoAgama))
    } else if c == 12 {
        Option::Some(Option::Some(Lakara::Lrn))
    } else {
        Option::None
    }
}

/// The code of an optional voice: 0 for unspecified.
pub open spec fn prayoga_code(x: Option<PadaPrayoga>) -> u32 {
    match x {
        Option::None => 0,
        Option::Some(PadaPrayoga::Parasmaipada) => 1,
        Option::Some(PadaPrayoga::AtmanepadaKartari) => 2,
        Option::Some(PadaPrayoga::AtmanepadaNotKartari) => 3,
    }
}

/// The optional voice named by a code, if the code is in range.
pub open spec fn prayoga_of_code(c: int) -> Option<Option<PadaPrayoga>> {
    if c == 0 {
        Option::Some(Option::None)
    } else if c == 1 {
        Option::Some(Option::Some(PadaPrayoga::Parasmaipada))
    } else if c == 2 {
        Option::Some(Option::Some(PadaPrayoga::AtmanepadaKartari))
    } else if c == 3 {
        Option::Some(Option::Some(PadaPrayoga::AtmanepadaNotKartari))
    } else {
        Option::None
    }
}

/// The code of the compound-position flag.
pub open spec fn flag_code(b: bool) -> u32 {
    if b {
        1
    } else {
        0
    }
}

/// The packed form of a structured record. Total: every record has one.
pub open spec fn pack_pada(p: PadaView) -> PackedPadaView {
    match p {
        PadaView::Absent => PackedPadaView { value: 0, text: Seq::empty() },
        PadaView::Avyaya { pratipadika } => (PackedPadaView {
            value: (1 + 1048576) as u32,
            text: pratipadika,
        }),
        PadaView::Subanta { pratipadika, linga, vibhakti, vacana, is_purvapada } => {
            PackedPadaView {
                value: (2 + 16 * linga_code(linga) + 256 * vibhakti_code(vibhakti) + 4096
                    * vacana_code(vacana) + 65536 * flag_code(is_purvapada) + 1048576) as u32,
                text: pratipadika,
            }
        },
        PadaView::Tinanta { dhatu, purusha, vacana, lakara, pada_prayoga } => {
            PackedPadaView {
                value: (3 + 16 * purusha_code(purusha) + 256 * lakara_code(lakara) + 4096
                    * vacana_code(vacana) + 65536 * prayoga_code(pada_prayoga) + 1048576 * (match
                    dhatu {
                    Option::Some(_) => 1u32,
                    Option::None => 0u32,
                })) as u32,
                text: match dhatu {
                    Option::Some(d) => d,
                    Option::None => Seq::empty(),
                },
            }
        },
    }
}

/// The structured record a packed form names, or the exact error:
/// `InvalidTag` when some digit lies outside its enumeration, and
/// `MissingRequiredField` when the variant requires a stem the packed form
/// does not carry. The carried text is read only where the variant carries
/// one.
pub open spec fn unpack_pada(v: PackedPadaView) -> Result<PadaView, DecodeError> {
    if v.value >= 16777216 {
        Result::Err(DecodeError::InvalidTag)
    } else {
        let tag = field_digit(v.value, 1);
        let presence = field_digit(v.value, 1048576);
        if tag == 0 {
            if v.value == 0 {
                Result::Ok(PadaView::Absent)
            } else {
                Result::Err(DecodeError::InvalidTag)
            }
        } else if tag == 1 {
            if field_digit(v.value, 16) == 0 && field_digit(v.value, 256) == 0 && field_digit(
                v.value,
                4096,
            ) == 0 && field_digit(v.value, 65536) == 0 {
                if presence == 1 {
                    Result::Ok(PadaView::Avyaya { pratipadika: v.text })
                } else {
                    Result::Err(DecodeError::MissingRequiredField)
                }
            } else {
                Result::Err(DecodeError::InvalidTag)
            }
        } else if tag == 2 {
            match (linga_of_code(field_digit(v.value, 16)), vibhakti_of_code(
                field_digit(v.value, 256),
            ), vacana_of_code(field_digit(v.value, 4096))) {
                (Option::Some(linga), Option::Some(vibhakti), Option::Some(vacana)) => {
                    let flag = field_digit(v.value, 65536);
                    if flag == 0 || flag == 1 {
                        if presence == 1 {
                            Result::Ok(PadaView::Subanta {
                                pratipadika: v.text,
                                linga,
                                vibhakti,
                                vacana,
                                is_purvapada: flag == 1,
                            })
                        } else {
                            Result::Err(DecodeError::MissingRequiredField)
                        }
                    } else {
                        Result::Err(DecodeError::InvalidTag)
                    }
                },
                _ => Result::Err(DecodeError::InvalidTag),
            }
        } else if tag == 3 {
            match (purusha_of_code(field_digit(v.value, 16)), lakara_of_code(
                field_digit(v.value, 256),
            ), vacana_of_code(field_digit(v.value, 4096)), prayoga_of_code(
                field_digit(v.value, 65536),
            )) {
                (
                    Option::Some(purusha),
                    Option::Some(lakara),
                    Option::Some(vacana),
                    Option::Some(pada_prayoga),
                ) => {
                    if presence == 0 {
                        Result::Ok(PadaView::Tinanta {
                            dhatu: Option::None,
                            purusha,
                            vacana,
                            lakara,
                            pada_prayoga,
                        })
                    } else if presence == 1 {
                        Result::Ok(PadaView::Tinanta {
                            dhatu: Option::Some(v.text),
                            purusha,
                            vacana,
                            lakara,
                            pada_prayoga,
                        })
                    } else {
                        Result::Err(DecodeError::InvalidTag)
                    }
                },
                _ => Result::Err(DecodeError::InvalidTag),
            }
        } else {
            Result::Err(DecodeError::InvalidTag)
        }
    }
}

/// Base-16 place values recover the digits of a six-digit word.
proof fn lemma_digits(t: u32, d1: u32, d2: u32, d3: u32, d4: u32, d5: u32, v: u32)
    by (bit_vector)
    requires
        t < 16,
        d1 < 16,
        d2 < 16,
        d3 < 16,
        d4 < 16,
        d5 < 16,
        v == t + 16 * d1 + 256 * d2 + 4096 * d3 + 65536 * d4 + 1048576 * d5,
    ensures
        v < 16777216,
        (v as int) % 16 == t,
        ((v as int) / 16) % 16 == d1,
        ((v as int) / 256) % 16 == d2,
        ((v as int) / 4096) % 16 == d3,
        ((v as int) / 65536) % 16 == d4,
        ((v as int) / 1048576) % 16 == d5,
{
}

/// Round trip: unpacking a packed record yields the record, for every
/// structured record, across all variants and every combination of
/// specified and unspecified optional fields.
pub proof fn lemma_unpack_pack(p: PadaView)
    ensures
        unpack_pada(pack_pada(p)) == Result::<PadaView, DecodeError>::Ok(p),
{
    match p {
        PadaView::Absent => {
            assert(field_digit(0, 1) == 0);
        },
        PadaView::Avyaya { pratipadika } => {
            lemma_digits(1, 0, 0, 0, 0, 1, (1 + 1048576) as u32);
        },
        PadaView::Subanta { pratipadika, linga, vibhakti, vacana, is_purvapada } => {
            let lc = linga_code(linga);
            let vbc = vibhakti_code(vibhakti);
            let vcc = vacana_code(vacana);
            let fc = flag_code(is_purvapada);
            assert(lc < 16 && vbc < 16 && vcc < 16 && fc < 16);
            let v = (2 + 16 * lc + 256 * vbc + 4096 * vcc + 65536 * fc + 1048576) as u32;
            lemma_digits(2, lc, vbc, vcc, fc, 1, v);
            assert(linga_of_code(lc as int) == Option::Some(linga));
            assert(vibhakti_of_code(vbc as int) == Option::Some(vibhakti));
            assert(vacana_of_code(vcc as int) == Option::Some(vacana));
        },
        PadaView::Tinanta { dhatu, purusha, vacana, lakara, pada_prayoga } => {
            let pc = purusha_code(purusha);
            let lkc = lakara_code(lakara);
            let vcc = vacana_code(vacana);
            let ppc = prayoga_code(pada_prayoga);
            let presence: u32 = match dhatu {
                Option::Some(_) => 1,
                Option::None => 0,
            };
            assert(pc < 16 && lkc < 16 && vcc < 16 && ppc < 16);
            let v = (3 + 16 * pc + 256 * lkc + 4096 * vcc + 65536 * ppc + 1048576
                * presence) as u32;
            lemma_digits(3, pc, lkc, vcc, ppc, presence, v);
            assert(purusha_of_code(pc as int) == Option::Some(purusha));
            assert(lakara_of_code(lkc as int) == Option::Some(lakara));
            assert(vacana_of_code(vcc as int) == Option::Some(vacana));
            assert(prayoga_of_code(ppc as int) == Option::Some(pada_prayoga));
        },
    }
}

/// The gender field of a nominal, encoded.
fn encode_linga(x: &Option<Linga>) -> (c: u32)
    ensures
        c == linga_code(*x),
{
    match x {
        Option::None => 0,
        Option::Some(Linga::Pum) => 1,
        Option::Some(Linga::Stri) => 2,
        Option::Some(Linga::Napumsaka) => 3,
    }
}

/// The gender field of a nominal, decoded.
fn decode_linga(c: u32) -> (r: Option<Option<Linga>>)
    ensures
        r == linga_of_code(c as int),
{
    if c == 0 {
        Option::Some(Option::None)
    } else if c == 1 {
        Option::Some(Option::Some(Linga::Pum))
    } else if c == 2 {
        Option::Some(Option::Some(Linga::Stri))
    } else if c == 3 {
        Option::Some(Option::Some(Linga::Napumsaka))
    } else {
        Option::None
    }
}

/// The case field of a nominal, encoded.
fn encode_vibhakti(x: &Option<Vibhakti>) -> (c: u32)
    ensures
        c == vibhakti_code(*x),
{
    match x {
        Option::None => 0,
        Option::Some(Vibhakti::V1) => 1,
        Option::Some(Vibhakti::V2) => 2,
        Option::Some(Vibhakti::V3) => 3,
        Option::Some(Vibhakti::V4) => 4,
        Option::Some(Vibhakti::V5) => 5,
        Option::Some(Vibhakti::V6) => 6,
        Option::Some(Vibhakti::V7) => 7,
        Option::Some(Vibhakti::Sambodhana) => 8,
    }
}

/// The case field of a nominal, decoded.
fn decode_vibhakti(c: u32) -> (r: Option<Option<Vibhakti>>)
    ensures
        r == vibhakti_of_code(c as int),
{
    if c == 0 {
        Option::Some(Option::None)
    } else if c == 1 {
        Option::Some(Option::Some(Vibhakti::V1))
    } else if c == 2 {
        Option::Some(Option::Some(Vibhakti::V2))
    } else if c == 3 {
        Option::Some(Option::Some(Vibhakti::V3))
    } else if c == 4 {
        Option::Some(Option::Some(Vibhakti::V4))
    } else if c == 5 {
        Option::Some(Option::Some(Vibhakti::V5))
    } else if c == 6 {
        Option::Some(Option::Some(Vibhakti::V6))
    } else if c == 7 {
        Option::Some(Option::Some(Vibhakti::V7))
    } else if c == 8 {
        Option::Some(Option::Some(Vibhakti::Sambodhana))
    } else {
        Option::None
    }
}

/// The number field of a record, encoded.
fn encode_vacana(x: &Option<Vacana>) -> (c: u32)
    ensures
        c == vacana_code(*x),
{
    match x {
        Option::None => 0,
        Option::Some(Vacana::Eka) => 1,
        Option::Some(Vacana::Dvi) => 2,
        Option::Some(Vacana::Bahu) => 3,
    }
}

/// The number field of a record, decoded.
fn decode_vacana(c: u32) -> (r: Option<Option<Vacana>>)
    ensures
        r == vacana_of_code(c as int),
{
    if c == 0 {
        Option::Some(Option::None)
    } else if c == 1 {
        Option::Some(Option::Some(Vacana::Eka))
    } else if c == 2 {
        Option::Some(Option::Some(Vacana::Dvi))
    } else if c == 3 {
        Option::Some(Option::Some(Vacana::Bahu))
    } else {
        Option::None
    }
}

/// The person field of a verb, encoded.
fn encode_purusha(x: &Option<Purusha>) -> (c: u32)
    ensures
        c == purusha_code(*x),
{
    match x {
        Option::None => 0,
        Option::Some(Purusha::Prathama) => 1,
        Option::Some(Purusha::Madhyama) => 2,
        Option::Some(Purusha::Uttama) => 3,
    }
}

/// The person field of a verb, decoded.
fn decode_purusha(c: u32) -> (r: Option<Option<Purusha>>)
    ensures
        r == purusha_of_code(c as int),
{
    if c == 0 {
        Option::Some(Option::None)
    } else if c == 1 {
        Option::Some(Option::Some(Purusha::Prathama))
    } else if c == 2 {
        Option::Some(Option::Some(Purusha::Madhyama))
    } else if c == 3 {
        Option::Some(Option::Some(Purusha::Uttama))
    } else {
        Option::None
    }
}

/// The tense-mood field of a verb, encoded.
fn encode_lakara(x: &Option<Lakara>) -> (c: u32)
    ensures
        c == lakara_code(*x),
{
    match x {
        Option::None => 0,
        Option::Some(Lakara::Lat) => 1,
        Option::Some(Lakara::Lit) => 2,
        Option::Some(Lakara::Lut) => 3,
        Option::Some(Lakara::Lrt) => 4,
        Option::Some(Lakara::Let) => 5,
        Option::Some(Lakara::Lot) => 6,
        Option::Some(Lakara::Lan) => 7,
        Option::Some(Lakara::LinVidhi) => 8,
        Option::Some(Lakara::LinAshih) => 9,
        Option::Some(Lakara::Lun) => 10,
        Option::Some(Lakara::LunNoAgama) => 11,
        Option::Some(Lakara::Lrn) => 12,
    }
}

/// The tense-mood field of a verb, decoded.
fn decode_lakara(c: u32) -> (r: Option<Option<Lakara>>)
    ensures
        r == lakara_of_code(c as int),
{
    if c == 0 {
        Option::Some(Option::None)
    } else if c == 1 {
        Option::Some(Option::Some(Lakara::Lat))
    } else if c == 2 {
        Option::Some(Option::Some(Lakara::Lit))
    } else if c == 3 {
        Option::Some(Option::Some(Lakara::Lut))
    } else if c == 4 {
        Option::Some(Option::Some(Lakara::Lrt))
    } else if c == 5 {
        Option::Some(Option::Some(Lakara::Let))
    } else if c == 6 {
        Option::Some(Option::Some(Lakara::Lot))
    } else if c == 7 {
        Option::Some(Option::Some(Lakara::Lan))
    } else if c == 8 {
        Option::Some(Option::Some(Lakara::LinVidhi))
    } else if c == 9 {
        Option::Some(Option::Some(Lakara::LinAshih))
    } else if c == 10 {
        Option::Some(Option::Some(Lakara::Lun))
    } else if c == 11 {
        Option::Some(Option::Some(Lakara::LunNoAgama))
    } else if c == 12 {
        Option::Some(Option::Some(Lakara::Lrn))
    } else {
        Option::None
    }
}

/// The voice field of a verb, encoded.
fn encode_prayoga(x: &Option<PadaPrayoga>) -> (c: u32)
    ensures
        c == prayoga_code(*x),
{
    match x {
        Option::None => 0,
        Option::Some(PadaPrayoga::Parasmaipada) => 1,
        Option::Some(PadaPrayoga::AtmanepadaKartari) => 2,
        Option::Some(PadaPrayoga::AtmanepadaNotKartari) => 3,
    }
}

/// The voice field of a verb, decoded.
fn decode_prayoga(c: u32) -> (r: Option<Option<PadaPrayoga>>)
    ensures
        r == prayoga_of_code(c as int),
{
    if c == 0 {
        Option::Some(Option::None)
    } else if c == 1 {
        Option::Some(Option::Some(PadaPrayoga::Parasmaipada))
    } else if c == 2 {
        Option::Some(Option::Some(PadaPrayoga::AtmanepadaKartari))
    } else if c == 3 {
        Option::Some(Option::Some(PadaPrayoga::AtmanepadaNotKartari))
    } else {
        Option::None
    }
}

/// Encode a structured record into its packed form. Never fails: every
/// structured value has a defined packed representation.
pub fn encode(pada: &Pada) -> (r: PackedPada)
    ensures
        r@ == pack_pada(pada@),
{
    match pada {
        Pada::Absent => PackedPada { value: 0, text: String::new() },
        Pada::Avyaya(a) => PackedPada { value: 1 + 1048576, text: a.pratipadika.text.clone() },
        Pada::Subanta(s) => {
            let value = 2 + 16 * encode_linga(&s.linga) + 256 * encode_vibhakti(&s.vibhakti) + 4096
                * encode_vacana(&s.vacana) + 65536 * (if s.is_purvapada {
                1
            } else {
                0u32
            }) + 1048576;
            PackedPada { value, text: s.pratipadika.text.clone() }
        },
        Pada::Tinanta(t) => {
            let presence: u32 = match &t.dhatu {
                Option::Some(_) => 1,
                Option::None => 0,
            };
            let value = 3 + 16 * encode_purusha(&t.purusha) + 256 * encode_lakara(&t.lakara) + 4096
                * encode_vacana(&t.vacana) + 65536 * encode_prayoga(&t.pada_prayoga) + 1048576
                * presence;
            let text = match &t.dhatu {
                Option::Some(d) => d.text.clone(),
                Option::None => String::new(),
            };
            PackedPada { value, text }
        },
    }
}

/// Decode a packed record back into its structured form, or report why the
/// packed form is not the encoding of any structured record.
pub fn decode(packed: &PackedPada) -> (r: Result<Pada, DecodeError>)
    ensures
        match r {
            Result::Ok(p) => unpack_pada(packed@) == Result::<PadaView, DecodeError>::Ok(p@),
            Result::Err(e) => unpack_pada(packed@) == Result::<PadaView, DecodeError>::Err(e),
        },
{
    let value = packed.value;
    if value >= 16777216 {
        return Result::Err(DecodeError::InvalidTag);
    }
    let tag = value % 16;
    let presence = (value / 1048576) % 16;
    if tag == 0 {
        if value == 0 {
            Result::Ok(Pada::Absent)
        } else {
            Result::Err(DecodeError::InvalidTag)
        }
    } else if tag == 1 {
        if (value / 16) % 16 == 0 && (value / 256) % 16 == 0 && (value / 4096) % 16 == 0 && (value
            / 65536) % 16 == 0 {
            if presence == 1 {
                Result::Ok(
                    Pada::Avyaya(Avyaya { pratipadika: Pratipadika { text: packed.text.clone() } }),
                )
            } else {
                Result::Err(DecodeError::MissingRequiredField)
            }
        } else {
            Result::Err(DecodeError::InvalidTag)
        }
    } else if tag == 2 {
        let linga = decode_linga((value / 16) % 16);
        let vibhakti = decode_vibhakti((value / 256) % 16);
        let vacana = decode_vacana((value / 4096) % 16);
        let flag = (value / 65536) % 16;
        match (linga, vibhakti, vacana) {
            (Option::Some(linga), Option::Some(vibhakti), Option::Some(vacana)) => {
                if flag == 0 || flag == 1 {
                    if presence == 1 {
                        Result::Ok(
                            Pada::Subanta(
                                Subanta {
                                    pratipadika: Pratipadika { text: packed.text.clone() },
                                    linga,
                                    vibhakti,
                                    vacana,
                                    is_purvapada: flag == 1,
                                },
                            ),
                        )
                    } else {
                        Result::Err(DecodeError::MissingRequiredField)
                    }
                } else {
                    Result::Err(DecodeError::InvalidTag)
                }
            },
            _ => Result::Err(DecodeError::InvalidTag),
        }
    } else if tag == 3 {
        let purusha = decode_purusha((value / 16) % 16);
        let lakara = decode_lakara((value / 256) % 16);
        let vacana = decode_vacana((value / 4096) % 16);
        let prayoga = decode_prayoga((value / 65536) % 16);
        match (purusha, lakara, vacana, prayoga) {
            (
                Option::Some(purusha),
                Option::Some(lakara),
                Option::Some(vacana),
                Option::Some(pada_prayoga),
            ) => {
                if presence == 0 {
                    Result::Ok(
                        Pada::Tinanta(
                            Tinanta { dhatu: Option::None, purusha, vacana, lakara, pada_prayoga },
                        ),
                    )
                } else if presence == 1 {
                    Result::Ok(
                        Pada::Tinanta(
                            Tinanta {
                                dhatu: Option::Some(Dhatu { text: packed.text.clone() }),
                                purusha,
                                vacana,
                                lakara,
                                pada_prayoga,
                            },
                        ),
                    )
                } else {
                    Result::Err(DecodeError::InvalidTag)
                }
            },
            _ => Result::Err(DecodeError::InvalidTag),
        }
    } else {
        Result::Err(DecodeError::InvalidTag)
    }
}

/// A record in the transliteration alphabet packs to a record in it.
pub proof fn lemma_pack_preserves_wf(p: PadaView)
    requires
        crate::semantics::wf_pada_view(p),
    ensures
        wf_packed_view(pack_pada(p)),
{
    assert(ascii_text(Seq::<char>::empty()));
}

} // verus!
