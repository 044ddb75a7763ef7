use mzio::error::Error;
use mzio::msp::{MspBufferWriter, MspPsm, MspReader, MspWriter};
use mzio::number::NumLit;

const MSP_CONTENT: &str = "Name: AAAK/2
MW: 388.2329
Comment: Spec=Consensus Pep=Tryptic
Num peaks: 3
101.07\t1000\t\"b1/0.01 1/2 0.5\"
147.11\t2000\t\"y1/-0.02,IKC/0.12 2/3 0.7\"
201.1\t300\t\"?\"

Name: PEPTIDE/3
MW: 799.36
Comment: Mods=0
Num peaks: 2
98.06\t500\t\"y4-17^2/-0.02\"
120.5\t50\t\"? 0/1 0.1\"
";

fn read_psms(text: &str) -> Result<Vec<MspPsm>, Error> {
    let mut reader = MspReader::new();
    let mut psms = Vec::new();
    for line in text.split('\n') {
        if let Some(p) = reader.push_line(line)? {
            psms.push(p);
        }
    }
    if let Some(p) = reader.finish()? {
        psms.push(p);
    }
    Ok(psms)
}

fn write_and_compare_entries(entries: Vec<MspPsm>) {
    let mut msp_writer = MspWriter::from_buffer(String::new());
    msp_writer.write_all(&entries).unwrap();
    let tmp_msp_content = msp_writer.flush();
    assert_eq!(
        MSP_CONTENT.lines().count(),
        tmp_msp_content.lines().count(),
        "different number of lines between the test and generated MSP contents"
    );
    for (test_line, tmp_line) in MSP_CONTENT.lines().zip(tmp_msp_content.lines()) {
        assert_eq!(test_line, tmp_line)
    }
}

#[test]
fn mod_test_reading_and_writing() {
    let entries = read_psms(MSP_CONTENT).unwrap();
    assert_eq!(entries.len(), 2);
    write_and_compare_entries(entries)
}

#[test]
fn test_parsing_roundtrip() {
    let entries = read_psms(MSP_CONTENT)
        .unwrap()
        .iter()
        .map(|read_psm| {
            let parsed_psm = read_psm.to_parsed_psm().unwrap();
            parsed_psm.to_psm()
        })
        .collect::<Vec<MspPsm>>();
    write_and_compare_entries(entries)
}

#[test]
fn record_fields_are_read() {
    let entries = read_psms(MSP_CONTENT).unwrap();
    let h = entries[0].get_header();
    assert_eq!(h.get_name(), "AAAK/2");
    assert_eq!(h.get_mw().as_str(), "388.2329");
    assert_eq!(h.get_comment(), "Spec=Consensus Pep=Tryptic");
    assert_eq!(h.get_num_peaks(), 3);
    assert_eq!(entries[0].peak_count(), 3);
    assert_eq!(entries[0].get_mz_list().len(), 3);
    assert_eq!(entries[0].get_intensity_list().len(), 3);
    assert_eq!(entries[0].get_annotation_list()[1], "y1/-0.02,IKC/0.12 2/3 0.7");
    let parsed = entries[1].to_parsed_psm().unwrap();
    assert_eq!(parsed.sequence, "PEPTIDE");
    assert_eq!(parsed.charge, 3);
    assert_eq!(parsed.peaks.len(), 2);
    assert_eq!(parsed.peaks[1].peak_index, 1);
    assert!(parsed.peaks[1].annotations.is_empty());
    assert_eq!(parsed.peaks[1].unknown.as_ref().unwrap().denominator, 1);
}

#[test]
fn peak_count_mismatch_is_incomplete() {
    let text = "Name: A/1\nMW: 1\nComment: c\nNum peaks: 2\n100\t1\t\"?\"\n";
    assert!(matches!(read_psms(text), Err(Error::IncompletePeakList)));
    let lit = |s: &str| NumLit::parse(s).unwrap();
    let made = MspPsm::new(
        "A/1".to_string(),
        lit("1"),
        String::new(),
        2,
        vec![lit("100")],
        vec![lit("1")],
        vec!["?".to_string()],
    );
    assert!(matches!(made, Err(Error::IncompletePeakList)));
    let ok = MspPsm::new(
        "A/1".to_string(),
        lit("1"),
        String::new(),
        1,
        vec![lit("100")],
        vec![lit("1")],
        vec!["?".to_string()],
    );
    assert_eq!(ok.unwrap().peak_count(), 1);
}

#[test]
fn malformed_msp_lines() {
    assert!(matches!(read_psms("Name A/1\n"), Err(Error::MalformedHeader)));
    assert!(matches!(read_psms("100\t1\t\"?\"\n"), Err(Error::MalformedHeader)));
    assert!(matches!(read_psms("MW: 1\nNum peaks: 0\n"), Err(Error::MalformedHeader)));
    assert!(matches!(
        read_psms("Name: A/1\nMW: x\n"),
        Err(Error::InvalidNumericLiteral)
    ));
    assert!(matches!(
        read_psms("Name: A/1\nMW: 1\nNum peaks: many\n"),
        Err(Error::InvalidNumericLiteral)
    ));
    assert!(matches!(
        read_psms("Name: A/1\nMW: 1\nNum peaks: 1\n100\t1\t?\n"),
        Err(Error::InvalidAnnotationSyntax)
    ));
    assert!(matches!(
        read_psms("Name: A/1\nMW: 1\nNum peaks: 1\n100\n"),
        Err(Error::InvalidNumericLiteral)
    ));
}

#[test]
fn parsed_form_errors() {
    let no_slash = read_psms("Name: AAAK\nMW: 1\nNum peaks: 0\n").unwrap();
    assert!(matches!(no_slash[0].to_parsed_psm(), Err(Error::MalformedHeader)));
    let bad_charge = read_psms("Name: AAAK/x\nMW: 1\nNum peaks: 0\n").unwrap();
    assert!(matches!(bad_charge[0].to_parsed_psm(), Err(Error::InvalidNumericLiteral)));
    let bad_annotation = read_psms("Name: AAAK/2\nMW: 1\nNum peaks: 1\n100\t1\t\"y4x\"\n").unwrap();
    assert!(matches!(
        bad_annotation[0].to_parsed_psm(),
        Err(Error::InvalidAnnotationSyntax)
    ));
    let negative = read_psms("Name: AAAK/-1\nMW: 1\nNum peaks: 0\n").unwrap();
    let parsed = negative[0].to_parsed_psm().unwrap();
    assert_eq!(parsed.charge, -1);
    assert_eq!(parsed.to_psm().get_header().get_name(), "AAAK/-1");
}

#[test]
fn writer_separates_records_by_one_blank_line() {
    let entries = read_psms(MSP_CONTENT).unwrap();
    let mut writer = MspWriter::new();
    let first = writer.write_psm(&entries[0]);
    let first_text = writer.flush();
    assert_eq!(first, first_text.len());
    assert!(first_text.starts_with("Name: AAAK/2\n"));
    let second = writer.write_psm(&entries[1]);
    let second_text = writer.flush();
    assert_eq!(second, second_text.len());
    assert!(second_text.starts_with("\nName: PEPTIDE/3\n"));
    let mut appending = MspWriter::from_buffer("# library\n".to_string());
    appending.write_psm(&entries[1]);
    assert!(appending.flush().starts_with("# library\nName: PEPTIDE/3\n"));
}
