use mzio::annotation::{
    decode_annotation_field, encode_annotation_field, MspFragAnnotation, MspPeakAnnotation,
    MspPeakUnknownData, MspSeqAnnotation,
};
use mzio::error::Error;
use mzio::number::NumLit;

fn round_trip(field: &str) -> String {
    let (a, u) = decode_annotation_field(field).unwrap();
    encode_annotation_field(&a, &u)
}

#[test]
fn fragment_annotation_scenario() {
    let (a, u) = decode_annotation_field("y4-17^2/-0.02").unwrap();
    assert!(u.is_none());
    assert_eq!(a.len(), 1);
    match &a[0] {
        MspPeakAnnotation::Fragment(f) => {
            assert_eq!(f.ion_type, 'y');
            assert_eq!(f.frag_index, 4);
            assert_eq!(f.neutral_loss, Some(17));
            assert_eq!(f.charge, Some(2));
            let err: f64 = f.mz_error.as_ref().unwrap().as_str().parse().unwrap();
            assert_eq!(err, -0.02);
        }
        _ => panic!("expected a fragment"),
    }
}

#[test]
fn unmatched_annotation_scenario() {
    let (a, u) = decode_annotation_field("?").unwrap();
    assert!(a.is_empty());
    assert!(u.is_none());
    assert_eq!(encode_annotation_field(&a, &u), "?");
}

#[test]
fn annotations_round_trip() {
    for field in [
        "y4-17^2/-0.02 3/4 0.6",
        "IKC/0.12,b3",
        "b12^3,a2-44,y7/0.5",
        "? 0/1 0.1",
        "?i",
        "p",
    ] {
        assert_eq!(round_trip(field), field);
    }
    assert_eq!(round_trip("  b3   1/2\t0.5 "), "b3 1/2 0.5");
}

#[test]
fn encoding_writes_every_optional_field() {
    let lit = |s: &str| NumLit::parse(s).unwrap();
    let annotations = vec![
        MspPeakAnnotation::Fragment(MspFragAnnotation {
            ion_type: 'b',
            frag_index: 10,
            neutral_loss: None,
            charge: Some(3),
            mz_error: None,
        }),
        MspPeakAnnotation::Sequence(MspSeqAnnotation {
            sequence: "PEP".to_string(),
            mz_error: Some(lit("1e-3")),
        }),
    ];
    let unknown = Some(MspPeakUnknownData { numerator: 12, denominator: 345, value: lit("0.75") });
    let text = encode_annotation_field(&annotations, &unknown);
    assert_eq!(text, "b10^3,PEP/1e-3 12/345 0.75");
    let (a, u) = decode_annotation_field(&text).unwrap();
    assert_eq!(a, annotations);
    assert_eq!(u, unknown);
    let empty: Vec<MspPeakAnnotation> = Vec::new();
    assert_eq!(encode_annotation_field(&empty, &None), "?");
}

#[test]
fn annotation_syntax_errors() {
    for field in [
        "y4x",
        "b70000",
        "y4^200",
        "y4-",
        "y4^",
        "a b",
        "b3 1/2 0.5 extra",
        "",
        "b3/x",
        "a,,b",
        "b3 1-2 0.5",
        "b3 1/2 zz",
    ] {
        assert!(
            matches!(decode_annotation_field(field), Err(Error::InvalidAnnotationSyntax)),
            "{}",
            field
        );
    }
}

#[test]
fn error_messages() {
    assert_eq!(Error::IncompletePeakList.message(), "incomplete peak list");
    assert_eq!(Error::MalformedHeader.message(), "malformed header");
}
