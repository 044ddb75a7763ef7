use mzio::error::Error;
use mzio::mgf::{read_spectra, MgfReader, MgfSpectrum, MgfWriter};
use mzio::number::NumLit;

fn lit(s: &str) -> NumLit {
    NumLit::parse(s).unwrap()
}

fn charge_of(value: &str) -> Option<i8> {
    let text = format!("BEGIN IONS\nTITLE=t\nPEPMASS=100.5\nCHARGE={}\nEND IONS\n", value);
    let spectra = read_spectra(&text).unwrap();
    spectra[0].get_header().get_precursor_charge()
}

#[test]
fn charge_sign_scenarios() {
    assert_eq!(charge_of("2-"), Some(-2));
    assert_eq!(charge_of("3+"), Some(3));
    assert_eq!(charge_of("3"), Some(3));
    assert_eq!(charge_of("128-"), Some(-128));
    assert_eq!(charge_of("2+ and 3+"), Some(2));
}

#[test]
fn bad_charges_are_rejected() {
    let text = "BEGIN IONS\nPEPMASS=100.5\nCHARGE=+2\nEND IONS\n";
    assert!(matches!(read_spectra(text), Err(Error::InvalidNumericLiteral)));
    let text = "BEGIN IONS\nPEPMASS=100.5\nCHARGE=128+\nEND IONS\n";
    assert!(matches!(read_spectra(text), Err(Error::InvalidNumericLiteral)));
}

#[test]
fn read_write_read_reproduces_spectrum() {
    let spectrum = MgfSpectrum::new(
        "scan=12 file=a.raw".to_string(),
        lit("512.2634"),
        Some(-2),
        Some(lit("1234.5")),
        vec![lit("100.1"), lit("200.25"), lit("150")],
        vec![lit("10"), lit("2e3"), lit("0.5")],
    );
    let mut writer = MgfWriter::new();
    let n = writer.write_spectrum(&spectrum);
    let text = writer.flush();
    assert_eq!(n, text.len());
    assert_eq!(
        text,
        "BEGIN IONS\nTITLE=scan=12 file=a.raw\nPEPMASS=512.2634\nRTINSECONDS=1234.5\nCHARGE=2-\n100.1 10\n200.25 2e3\n150 0.5\nEND IONS\n"
    );
    let back = read_spectra(&text).unwrap();
    assert_eq!(back.len(), 1);
    let h = back[0].get_header();
    assert_eq!(h.get_title(), "scan=12 file=a.raw");
    assert_eq!(h.get_precursor_mz().as_str(), "512.2634");
    assert_eq!(h.get_precursor_charge(), Some(-2));
    assert_eq!(h.get_retention_time().as_ref().map(|r| r.as_str()), Some("1234.5"));
    let mzs: Vec<&str> = back[0].get_mz_list().iter().map(|m| m.as_str()).collect();
    let ints: Vec<&str> = back[0].get_intensity_list().iter().map(|m| m.as_str()).collect();
    assert_eq!(mzs, vec!["100.1", "200.25", "150"]);
    assert_eq!(ints, vec!["10", "2e3", "0.5"]);
    assert_eq!(back[0].len(), 3);
    let mz_value: f64 = back[0].get_mz_list()[1].as_str().parse().unwrap();
    assert!((mz_value - 200.25).abs() < 1e-9);
}

#[test]
fn spectra_without_optional_fields() {
    let text = "MASS=Monoisotopic\n\nBEGIN IONS\nPEPMASS=300.1 5000\nUNKNOWN=1\n\n101 7\nEND IONS\nBEGIN IONS\nTITLE=two\nPEPMASS=400\nEND IONS\n";
    let spectra = read_spectra(text).unwrap();
    assert_eq!(spectra.len(), 2);
    let h = spectra[0].get_header();
    assert_eq!(h.get_title(), "");
    assert_eq!(h.get_precursor_mz().as_str(), "300.1");
    assert_eq!(h.get_precursor_charge(), None);
    assert!(h.get_retention_time().is_none());
    assert!(h.get_precursor_mass().is_none());
    assert_eq!(spectra[1].len(), 0);
    let mut writer = MgfWriter::new();
    let written = writer.write_all(&spectra);
    let text = writer.flush();
    assert_eq!(written, Some(text.len()));
    assert_eq!(
        text,
        "BEGIN IONS\nTITLE=\nPEPMASS=300.1\n101 7\nEND IONS\nBEGIN IONS\nTITLE=two\nPEPMASS=400\nEND IONS\n"
    );
}

#[test]
fn incomplete_spectrum_at_end_of_input() {
    let text = "BEGIN IONS\nPEPMASS=300.1\n101 7\n";
    assert!(matches!(read_spectra(text), Err(Error::IncompletePeakList)));
    let nested = "BEGIN IONS\nPEPMASS=300.1\nBEGIN IONS\n";
    assert!(matches!(read_spectra(nested), Err(Error::IncompletePeakList)));
}

#[test]
fn missing_precursor_mz_is_malformed() {
    let text = "BEGIN IONS\nTITLE=x\n101 7\nEND IONS\n";
    assert!(matches!(read_spectra(text), Err(Error::MalformedHeader)));
}

#[test]
fn invalid_peaks_are_rejected() {
    assert!(matches!(
        read_spectra("BEGIN IONS\nPEPMASS=1\n101\nEND IONS\n"),
        Err(Error::InvalidNumericLiteral)
    ));
    assert!(matches!(
        read_spectra("BEGIN IONS\nPEPMASS=1\n101 abc\nEND IONS\n"),
        Err(Error::InvalidNumericLiteral)
    ));
    assert!(matches!(
        read_spectra("BEGIN IONS\nPEPMASS=x1\nEND IONS\n"),
        Err(Error::InvalidNumericLiteral)
    ));
}

#[test]
fn numeric_literals_are_checked_by_the_parser() {
    assert!(NumLit::parse("1e5").is_some());
    assert!(NumLit::parse("-0.02").is_some());
    assert!(NumLit::parse("abc").is_none());
    assert!(NumLit::parse("1.2.3").is_none());
    assert!(NumLit::parse("").is_none());
    assert!(NumLit::parse("1 2").is_none());
    assert_eq!(NumLit::parse("17").unwrap().as_str(), "17");
}

#[test]
fn precursor_mass_can_be_set() {
    let mut h = mzio::mgf::MgfSpectrumHeader::new("t".to_string(), lit("2"), None, None);
    h.set_precursor_mass(lit("3.5"));
    assert_eq!(h.get_precursor_mass().as_ref().unwrap().as_str(), "3.5");
    let spectrum = read_spectra("BEGIN IONS\nPEPMASS=1\nEND IONS\n").unwrap().remove(0);
    assert_eq!(spectrum.get_header().get_precursor_mz().as_str(), "1");
}

#[test]
fn line_reader_matches_whole_text_reader() {
    let text = "BEGIN IONS\nTITLE=a\nPEPMASS=10\n1 2\nEND IONS\n";
    let mut reader = MgfReader::new();
    let mut count = 0;
    for line in text.lines() {
        if reader.push_line(line).unwrap().is_some() {
            count += 1;
        }
    }
    assert!(reader.finish().is_ok());
    assert_eq!(count, read_spectra(text).unwrap().len());
}
