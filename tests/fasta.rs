use mzio::error::Error;
use mzio::fasta::{format_sequence, Entry, Reader, Writer, DEFAULT_MAX_AMINO_ACIDS_PER_LINE};
use mzio::header::{Header, KeywordAttributes, Plain, UniProt};

const TEST_HEADER: &str = ">sp|P27748|ACOX_CUPNH Acetoin catabolism protein X OS=Cupriavidus necator (strain ATCC 17699 / H16 / DSM 428 / Stanier 337) OX=381666 GN=acoX PE=4 SV=2";
const EXPECTED_DATABASE: &str = "sp";
const EXPECTED_ACCESSION: &str = "P27748";
const EXPECTED_ENTRY_NAME: &str = "ACOX_CUPNH";
const EXPECTED_PROTEIN_NAME: &str = "Acetoin catabolism protein X";
const EXPECTED_KEYWORD_ATTRIBUTES: [(&str, &str); 5] = [
    (
        "OS",
        "Cupriavidus necator (strain ATCC 17699 / H16 / DSM 428 / Stanier 337)",
    ),
    ("OX", "381666"),
    ("GN", "acoX"),
    ("PE", "4"),
    ("SV", "2"),
];
const EXPECTED_HEADER: &str = ">sp|P27748|ACOX_CUPNH Acetoin catabolism protein X GN=acoX OS=Cupriavidus necator (strain ATCC 17699 / H16 / DSM 428 / Stanier 337) OX=381666 PE=4 SV=2";

const READER_TEST_SEQUENCE: &str = "MGHAAGASAQIAPVVGIIANPISARDIRRVIANANSLQLADRVNIVLRLLAALASCGVER
VLMMPDREGLRVMLARHLARRQGPDSGLPAVDYLDMPVTARVDDTLRAARCMADAGVAAI
IVLGGDGTHRAVVRECGAVPIAGLSTGTNNAYPEMREPTIIGLATGLYATGRIPPAQALA
SNKRLDIVIRDGNGGFRRDIALVDAVISHEHFIGARALWKTDTLAAVYVSFADPEAIGLS
SIAGLLEPVGRREEGGLAIELAAPGEGEFDLCAPIAPGLMCTVPVAGWQRLEHGRPHRVR
QRSGIVALDGERELAFGPDDEVTVTLHDHAFRSIDVAACMRHAGRHHLMRSLPQPAAVG";
const JOINED_SEQUENCE: &str = "MGHAAGASAQIAPVVGIIANPISARDIRRVIANANSLQLADRVNIVLRLLAALASCGVER\
    VLMMPDREGLRVMLARHLARRQGPDSGLPAVDYLDMPVTARVDDTLRAARCMADAGVAAI\
    IVLGGDGTHRAVVRECGAVPIAGLSTGTNNAYPEMREPTIIGLATGLYATGRIPPAQALA\
    SNKRLDIVIRDGNGGFRRDIALVDAVISHEHFIGARALWKTDTLAAVYVSFADPEAIGLS\
    SIAGLLEPVGRREEGGLAIELAAPGEGEFDLCAPIAPGLMCTVPVAGWQRLEHGRPHRVR\
    QRSGIVALDGERELAFGPDDEVTVTLHDHAFRSIDVAACMRHAGRHHLMRSLPQPAAVG";

fn read_all(text: &str, keep_plain_header: bool) -> Result<Vec<Entry>, Error> {
    let mut reader = Reader::new(keep_plain_header);
    let mut entries = Vec::new();
    for line in text.split('\n') {
        if let Some(e) = reader.push_line(line)? {
            entries.push(e);
        }
    }
    if let Some(e) = reader.finish()? {
        entries.push(e);
    }
    Ok(entries)
}

#[test]
fn plain_test_display() {
    let plain = <Plain as Header>::new(TEST_HEADER).unwrap();
    assert_eq!(plain.to_string(), TEST_HEADER.to_owned());
    assert_eq!(plain.get_header(), TEST_HEADER);
}

#[test]
fn test_creation() {
    let uniprot = <UniProt as Header>::new(TEST_HEADER).unwrap();
    assert_eq!(uniprot.get_accession(), EXPECTED_ACCESSION);
    assert_eq!(uniprot.get_database(), EXPECTED_DATABASE);
    assert_eq!(uniprot.get_entry_name(), EXPECTED_ENTRY_NAME);
    assert_eq!(uniprot.get_protein_name(), EXPECTED_PROTEIN_NAME);
    for (key, value) in EXPECTED_KEYWORD_ATTRIBUTES.iter() {
        let found = uniprot.get_keyword_attributes().get(key);
        assert_eq!(found, Some(&(*value).to_owned()));
    }
}

#[test]
fn uniprot_test_display() {
    let uniprot = UniProt::parse(TEST_HEADER).unwrap();
    assert_eq!(uniprot.to_string(), EXPECTED_HEADER.to_owned());
}

#[test]
fn test_entry_creation() {
    let entry = Reader::create_entry(TEST_HEADER, READER_TEST_SEQUENCE).unwrap();
    assert_eq!(entry.get_database(), EXPECTED_DATABASE);
    assert_eq!(entry.get_accession(), EXPECTED_ACCESSION);
    assert_eq!(entry.get_entry_name(), EXPECTED_ENTRY_NAME);
    assert_eq!(entry.get_protein_name(), EXPECTED_PROTEIN_NAME);
    assert_eq!(entry.get_sequence(), JOINED_SEQUENCE);
    for key_value in EXPECTED_KEYWORD_ATTRIBUTES {
        assert!(entry.get_keyword_attributes().contains_key(key_value.0));
        assert_eq!(
            entry.get_keyword_attributes().get(key_value.0).unwrap(),
            key_value.1
        );
    }
}

#[test]
fn test_sequence_formatting() {
    let formatted_sequence = format_sequence(JOINED_SEQUENCE, DEFAULT_MAX_AMINO_ACIDS_PER_LINE);
    assert_eq!(formatted_sequence, READER_TEST_SEQUENCE)
}

#[test]
fn test_header_creation() {
    let mut attributes = KeywordAttributes::new();
    for (key, value) in EXPECTED_KEYWORD_ATTRIBUTES {
        attributes.insert(key.to_string(), value.to_string());
    }
    let entry = Entry::new(
        EXPECTED_DATABASE.to_string(),
        EXPECTED_ACCESSION.to_string(),
        EXPECTED_ENTRY_NAME.to_string(),
        EXPECTED_PROTEIN_NAME.to_string(),
        attributes,
        JOINED_SEQUENCE.to_string(),
        None,
    );
    let header = Writer::create_header(&entry, true);
    assert_eq!(header, EXPECTED_HEADER);
}

#[test]
fn header_scenario_fields() {
    let h = ">sp|P27748|ACOX_CUPNH Acetoin catabolism protein X OS=Cupriavidus necator (strain ATCC 17699) OX=381666 GN=acoX PE=4 SV=2";
    let u = UniProt::parse(h).unwrap();
    assert_eq!(u.get_database(), "sp");
    assert_eq!(u.get_accession(), "P27748");
    assert_eq!(u.get_entry_name(), "ACOX_CUPNH");
    assert_eq!(u.get_protein_name(), "Acetoin catabolism protein X");
    assert_eq!(u.get_keyword_attributes().get("GN").unwrap(), "acoX");
    assert_eq!(
        u.get_keyword_attributes().get("OS").unwrap(),
        "Cupriavidus necator (strain ATCC 17699)"
    );
    assert_eq!(u.get_keyword_attributes().len(), 5);
}

#[test]
fn header_round_trip_after_one_pass() {
    for sort in [false, true] {
        let first = UniProt::parse(TEST_HEADER).unwrap();
        let again = UniProt::parse(&first.encode(sort)).unwrap();
        assert_eq!(again.get_database(), first.get_database());
        assert_eq!(again.get_accession(), first.get_accession());
        assert_eq!(again.get_entry_name(), first.get_entry_name());
        assert_eq!(again.get_protein_name(), first.get_protein_name());
        let a = first.get_keyword_attributes();
        let b = again.get_keyword_attributes();
        assert_eq!(a.len(), b.len());
        for i in 0..a.len() {
            let (k, v) = a.entry(i);
            assert_eq!(b.get(k), Some(v));
        }
    }
    let unsorted = UniProt::parse(TEST_HEADER).unwrap().encode(false);
    assert_eq!(unsorted, TEST_HEADER);
}

#[test]
fn header_without_keyword_attributes() {
    let h = ">tr|Q00001|Q00001_HUMAN Some protein";
    let u = UniProt::parse(h).unwrap();
    assert_eq!(u.get_protein_name(), "Some protein");
    assert!(u.get_keyword_attributes().is_empty());
    assert_eq!(u.encode(true), h);
}

#[test]
fn header_keeps_bars_after_the_second() {
    let u = UniProt::parse(">db|acc|ENTRY name|with|bars").unwrap();
    assert_eq!(u.get_entry_name(), "ENTRY");
    assert_eq!(u.get_protein_name(), "name|with|bars");
}

#[test]
fn keyword_attribute_last_write_wins() {
    let u = UniProt::parse(">a|b|c protein K=1 L=x y K=2").unwrap();
    let attrs = u.get_keyword_attributes();
    assert_eq!(attrs.len(), 2);
    assert_eq!(attrs.get("K").unwrap(), "2");
    assert_eq!(attrs.get("L").unwrap(), "x y");
    let (first_key, _) = attrs.entry(0);
    assert_eq!(first_key, "K");
    assert_eq!(attrs.get("M"), None);
}

#[test]
fn malformed_headers_are_rejected() {
    assert!(matches!(UniProt::parse(">sp|P27748"), Err(Error::MalformedHeader)));
    assert!(matches!(UniProt::parse("sp|P27748|X Y"), Err(Error::MalformedHeader)));
    assert!(matches!(UniProt::parse(""), Err(Error::MalformedHeader)));
    assert!(matches!(
        Reader::create_entry(">only one|bar", "AAA"),
        Err(Error::MalformedHeader)
    ));
}

#[test]
fn wrapped_lines_have_the_width() {
    let w = format_sequence("ABCDEFG", 3);
    assert_eq!(w, "ABC\nDEF\nG");
    let lines: Vec<&str> = w.split('\n').collect();
    for line in &lines[..lines.len() - 1] {
        assert_eq!(line.len(), 3);
    }
    assert_eq!(lines.concat(), "ABCDEFG");
    assert_eq!(format_sequence("ABCDEF", 3), "ABC\nDEF");
    assert_eq!(format_sequence("", 3), "");
    assert_eq!(format_sequence("ABCDEFG", 0), "ABCDEFG");
}

#[test]
fn reader_pairs_headers_and_sequences() {
    let text = ">sp|A|E1 First protein GN=a\nAAAA\nCCCC\n\n>sp|B|E2 Second protein\r\n  GGG  \nTT\n";
    let entries = read_all(text, true).unwrap();
    assert_eq!(entries.len(), 2);
    assert_eq!(entries[0].get_sequence(), "AAAACCCC");
    assert_eq!(entries[0].get_entry_name(), "E1");
    assert_eq!(
        entries[0].get_plain_header().as_deref(),
        Some(">sp|A|E1 First protein GN=a")
    );
    assert_eq!(entries[1].get_sequence(), "GGGTT");
    assert_eq!(entries[1].get_protein_name(), "Second protein");
    let without = read_all(text, false).unwrap();
    assert_eq!(without[0].get_plain_header(), &None);
    assert_eq!(read_all("", false).unwrap().len(), 0);
}

#[test]
fn sequence_before_any_header_is_reported() {
    assert!(matches!(read_all("AAAA\n>sp|A|E1 P\n", false), Err(Error::MalformedHeader)));
}

#[test]
fn writer_wraps_and_flushes() {
    let entries = read_all(">sp|A|E1 First protein GN=a\nAAAAACCCCCGG\n", false).unwrap();
    let mut writer = Writer::new(true, Some(5));
    let n = writer.write_entry(&entries[0]);
    let text = writer.flush();
    assert_eq!(text, ">sp|A|E1 First protein GN=a\nAAAAA\nCCCCC\nGG\n");
    assert_eq!(n, text.len());
    assert_eq!(writer.flush(), "");
    let mut one_line = Writer::new_without_seq_formatting(false);
    assert_eq!(one_line.write_all(&entries), Some(41));
    assert_eq!(one_line.flush(), ">sp|A|E1 First protein GN=a\nAAAAACCCCCGG\n");
    let mut default = Writer::new_with_default_seq_formatting(false);
    default.write_entry(&entries[0]);
    assert_eq!(
        Writer::stringify_entry(&entries[0], false, None),
        ">sp|A|E1 First protein GN=a\nAAAAACCCCCGG"
    );
}
