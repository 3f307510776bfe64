//! Tests for the record codec: lossless round trips and exact error kinds.

use kosha::packing::{decode, encode, PackedPada};
use kosha::semantics::{Avyaya, Dhatu, Pada, Pratipadika, Subanta, Tinanta};
use kosha::semantics::{Lakara, Linga, PadaPrayoga, Purusha, Vacana, Vibhakti};
use kosha::DecodeError;

fn stem(text: &str) -> Pratipadika {
    Pratipadika::new(text.to_string())
}

fn root(text: &str) -> Dhatu {
    Dhatu::new(text.to_string())
}

fn assert_round_trip(p: Pada) {
    let packed = encode(&p);
    let decoded = decode(&packed).expect("an encoded record must decode");
    assert_eq!(decoded, p);
}

#[test]
fn round_trip_absent() {
    assert_round_trip(Pada::Absent);
}

#[test]
fn round_trip_avyaya() {
    assert_round_trip(Pada::make_avyaya(stem("ca")));
}

#[test]
fn round_trip_avyaya_empty_stem_text() {
    assert_round_trip(Pada::make_avyaya(stem("")));
}

#[test]
fn round_trip_subanta_all_combinations() {
    let lingas = [None, Some(Linga::Pum), Some(Linga::Stri), Some(Linga::Napumsaka)];
    let vibhaktis = [
        None,
        Some(Vibhakti::V1),
        Some(Vibhakti::V2),
        Some(Vibhakti::V3),
        Some(Vibhakti::V4),
        Some(Vibhakti::V5),
        Some(Vibhakti::V6),
        Some(Vibhakti::V7),
        Some(Vibhakti::Sambodhana),
    ];
    let vacanas = [None, Some(Vacana::Eka), Some(Vacana::Dvi), Some(Vacana::Bahu)];
    for linga in lingas {
        for vibhakti in vibhaktis {
            for vacana in vacanas {
                for is_purvapada in [false, true] {
                    assert_round_trip(Pada::Subanta(Subanta {
                        pratipadika: stem("deva"),
                        linga,
                        vibhakti,
                        vacana,
                        is_purvapada,
                    }));
                }
            }
        }
    }
}

#[test]
fn round_trip_tinanta_all_combinations() {
    let purushas = [
        None,
        Some(Purusha::Prathama),
        Some(Purusha::Madhyama),
        Some(Purusha::Uttama),
    ];
    let lakaras = [
        None,
        Some(Lakara::Lat),
        Some(Lakara::Lit),
        Some(Lakara::Lut),
        Some(Lakara::Lrt),
        Some(Lakara::Let),
        Some(Lakara::Lot),
        Some(Lakara::Lan),
        Some(Lakara::LinVidhi),
        Some(Lakara::LinAshih),
        Some(Lakara::Lun),
        Some(Lakara::LunNoAgama),
        Some(Lakara::Lrn),
    ];
    let vacanas = [None, Some(Vacana::Eka), Some(Vacana::Dvi), Some(Vacana::Bahu)];
    let prayogas = [
        None,
        Some(PadaPrayoga::Parasmaipada),
        Some(PadaPrayoga::AtmanepadaKartari),
        Some(PadaPrayoga::AtmanepadaNotKartari),
    ];
    for purusha in purushas {
        for lakara in lakaras {
            for vacana in vacanas {
                for pada_prayoga in prayogas {
                    for with_root in [false, true] {
                        let dhatu = if with_root { Some(root("BU")) } else { None };
                        assert_round_trip(Pada::Tinanta(Tinanta {
                            dhatu,
                            purusha,
                            vacana,
                            lakara,
                            pada_prayoga,
                        }));
                    }
                }
            }
        }
    }
}

#[test]
fn encode_absent_is_zero() {
    let packed = encode(&Pada::Absent);
    assert_eq!(packed.value, 0);
    assert_eq!(packed.text, "");
}

#[test]
fn encode_avyaya_exact_value() {
    let packed = encode(&Pada::make_avyaya(stem("iti")));
    // discriminant 1 plus the text-presence digit
    assert_eq!(packed.value, 1 + 1048576);
    assert_eq!(packed.text, "iti");
}

#[test]
fn encode_subanta_exact_value() {
    let packed = encode(&Pada::make_subanta(
        stem("rAma"),
        Some(Linga::Stri),
        Some(Vibhakti::V2),
        Some(Vacana::Dvi),
    ));
    // 2 + 16*2 + 256*2 + 4096*2 + 65536*0 + 1048576
    assert_eq!(packed.value, 2 + 32 + 512 + 8192 + 1048576);
    assert_eq!(packed.text, "rAma");
}

#[test]
fn encode_tinanta_exact_value() {
    let packed = encode(&Pada::make_tinanta(
        Some(root("gam")),
        Some(Purusha::Prathama),
        Some(Vacana::Eka),
        Some(Lakara::Lat),
        Some(PadaPrayoga::Parasmaipada),
    ));
    // 3 + 16*1 + 256*1 + 4096*1 + 65536*1 + 1048576*1
    assert_eq!(packed.value, 3 + 16 + 256 + 4096 + 65536 + 1048576);
    assert_eq!(packed.text, "gam");
}

#[test]
fn decode_unknown_discriminant_is_invalid_tag() {
    let packed = PackedPada { value: 4, text: String::new() };
    assert_eq!(decode(&packed), Err(DecodeError::InvalidTag));
    let packed = PackedPada { value: 15, text: String::new() };
    assert_eq!(decode(&packed), Err(DecodeError::InvalidTag));
}

#[test]
fn decode_oversized_word_is_invalid_tag() {
    let packed = PackedPada { value: 16777216, text: String::new() };
    assert_eq!(decode(&packed), Err(DecodeError::InvalidTag));
    let packed = PackedPada { value: u32::MAX, text: String::new() };
    assert_eq!(decode(&packed), Err(DecodeError::InvalidTag));
}

#[test]
fn decode_bad_member_code_is_invalid_tag() {
    // a subanta whose case digit (9..15 unused) is out of range
    let packed = PackedPada { value: 2 + 256 * 9 + 1048576, text: "a".to_string() };
    assert_eq!(decode(&packed), Err(DecodeError::InvalidTag));
    // a tinanta whose tense-mood digit (13..15 unused) is out of range
    let packed = PackedPada { value: 3 + 256 * 13 + 1048576, text: "a".to_string() };
    assert_eq!(decode(&packed), Err(DecodeError::InvalidTag));
}

#[test]
fn decode_stray_digit_on_absent_is_invalid_tag() {
    // the absent marker carries nothing: any other digit is malformed
    let packed = PackedPada { value: 16, text: String::new() };
    assert_eq!(decode(&packed), Err(DecodeError::InvalidTag));
}

#[test]
fn decode_missing_stem_is_missing_required_field() {
    // an avyaya without its stem text
    let packed = PackedPada { value: 1, text: String::new() };
    assert_eq!(decode(&packed), Err(DecodeError::MissingRequiredField));
    // a subanta without its stem text
    let packed = PackedPada { value: 2, text: String::new() };
    assert_eq!(decode(&packed), Err(DecodeError::MissingRequiredField));
}

#[test]
fn decode_tinanta_without_root_gives_no_root() {
    // a tinanta's root is optional: presence digit 0 decodes to an absent root
    let packed = PackedPada { value: 3 + 16 * 2, text: String::new() };
    let decoded = decode(&packed).expect("a rootless tinanta is a valid record");
    match decoded {
        Pada::Tinanta(t) => {
            assert_eq!(t.dhatu, None);
            assert_eq!(t.purusha, Some(Purusha::Madhyama));
        }
        other => panic!("expected a tinanta, got {:?}", other),
    }
}

#[test]
fn equality_includes_the_root() {
    // full structural equality: two verb records differing only in the
    // root are different records
    let a = Pada::make_tinanta(Some(root("BU")), None, None, None, None);
    let b = Pada::make_tinanta(Some(root("gam")), None, None, None, None);
    let c = Pada::make_tinanta(Some(root("BU")), None, None, None, None);
    assert_ne!(a, b);
    assert_eq!(a, c);
}

#[test]
fn equality_distinguishes_variants() {
    let a = Pada::make_avyaya(stem("ca"));
    let b = Pada::make_subanta(stem("ca"), None, None, None);
    assert_ne!(a, b);
    assert_ne!(Pada::Absent, a);
    let avyaya = Pada::Avyaya(Avyaya { pratipadika: stem("ca") });
    assert_eq!(a, avyaya);
}
