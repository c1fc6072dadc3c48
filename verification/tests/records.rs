use fasta::map::FastaMap;
use fasta::pieces::{FastaAccessions, FastaEntry, FastaLengths};
use fasta::read::{decode_all, FastaHandle, FastaReader};
use fasta::errors::ErrorKind;
use fasta::helpers::seq_id_from_description;

fn bytes(s: &str) -> Vec<u8> {
    s.as_bytes().to_vec()
}

const Q2HZH0_SEQ_A: &str = "MATVPEPTSEMMSYYYSDNENDLFFEADGPRKMKCCFQDLNNSSLKDEGIQLHISHQLQN";
const Q2HZH0_SEQ_B: &str = "KSLRHFVSVVVALEKLKKISLPCSQPLQDDDLKNVFCCIFEEEPIVCEVYDDDAFVCDAP";
const P93158_SEQ_A: &str = "TLKVPVHVPSPSEDAEWQLRKAFEGWGTNEQLIIDILAHRNAAQRNSIRKVYGEAYGEDL";
const P93158_SEQ_B: &str = "LKCLEKELTSDFERAVLLFTLDPAERDAHLANEATKKFTSSNWILMEIACSRSSHELLNV";
const H0VS30_SEQ_A: &str = "MEAAAAAPRHQLLLLMLVAAAATLLPGAKALQCFCQLCAKDNYTCVTDGLCFVSITETTD";
const H0VS30_SEQ_B: &str = "RIIHNTMCIAEIDLIPRDRPFVCAPSSKTGAVTTTHCCNQDHCNKIELPTTEKQSSGLGP";
const H0VS30_SEQ_C: &str = "VELAAVIAGPVCFVCISLMLMVYICHNRTVIHHRVPNEEDPSLDRPFISEGTTLKDLIYD";

const Q2HZH0_DESCR: &str =
    ">sp|Q2HZH0|IL1B_PUSHI Interleukin-1 beta OS=Pusa hispida OX=9718 GN=IL1B PE=2 SV=1";
const P93158_DESCR: &str = ">tr|P93158|P93158_GOSHI Annexin (Fragment) OS=Gossypium hirsutum \
     OX=3635 GN=AnnGh2 PE=2 SV=1";
const H0VS30_DESCR: &str = ">tr|H0VS30|H0VS30_LATCH Transforming growth factor beta receptor \
     OS=Latimeria chalumnae OX=7897 GN=TGFBR1 PE=4 SV=1";

/// The sample source with short description lines.
fn short_descr_fasta() -> Vec<u8> {
    let mut s = String::new();
    s.push_str(">Q2HZH0\n");
    s.push_str(Q2HZH0_SEQ_A);
    s.push('\n');
    s.push_str(Q2HZH0_SEQ_B);
    s.push('\n');
    s.push_str(">P93158\n");
    s.push_str(P93158_SEQ_A);
    s.push('\n');
    s.push_str(P93158_SEQ_B);
    s.push('\n');
    s.push_str(">H0VS30\n");
    s.push_str(H0VS30_SEQ_A);
    s.push('\n');
    s.push_str(H0VS30_SEQ_B);
    s.push('\n');
    s.push_str(H0VS30_SEQ_C);
    s.push('\n');
    s.into_bytes()
}

/// The sample source with UniProt-style description lines.
fn long_descr_fasta() -> Vec<u8> {
    let mut s = String::new();
    s.push_str(Q2HZH0_DESCR);
    s.push('\n');
    s.push_str(Q2HZH0_SEQ_A);
    s.push('\n');
    s.push_str(Q2HZH0_SEQ_B);
    s.push('\n');
    s.push_str(P93158_DESCR);
    s.push('\n');
    s.push_str(P93158_SEQ_A);
    s.push('\n');
    s.push_str(P93158_SEQ_B);
    s.push('\n');
    s.push_str(H0VS30_DESCR);
    s.push('\n');
    s.push_str(H0VS30_SEQ_A);
    s.push('\n');
    s.push_str(H0VS30_SEQ_B);
    s.push('\n');
    s.push_str(H0VS30_SEQ_C);
    s.push('\n');
    s.into_bytes()
}

fn plain(data: Vec<u8>) -> FastaHandle {
    FastaHandle::open_fasta(data, false).unwrap()
}

#[test]
fn seq_id_short_descr() {
    let descr = ">Q2HZH0";
    assert_eq!(
        seq_id_from_description(&bytes(descr), &bytes("|"), 1).unwrap(),
        bytes("Q2HZH0")
    );
}

#[test]
fn seq_id_long_descr() {
    let descr =
        ">sp|Q2HZH0|IL1B_PUSHI Interleukin-1 beta OS=Pusa hispida OX=9718 GN=IL1B PE=2 SV=1";
    assert_eq!(
        seq_id_from_description(&bytes(descr), &bytes("|"), 1).unwrap(),
        bytes("Q2HZH0")
    );
}

#[test]
fn seq_id_field_zero_strips_marker() {
    let descr = ">sp|Q2HZH0|IL1B_PUSHI";
    assert_eq!(
        seq_id_from_description(&bytes(descr), &bytes("|"), 0).unwrap(),
        bytes("sp")
    );
}

#[test]
fn seq_id_out_of_range_field_is_an_error() {
    let descr = ">sp|Q2HZH0|IL1B_PUSHI";
    let err = seq_id_from_description(&bytes(descr), &bytes("|"), 9).unwrap_err();
    assert_eq!(err.kind, ErrorKind::FieldIndexOutOfRange);
    assert_eq!(err.message, bytes(descr));
}

#[test]
fn fasta_map_from_fasta() {
    let mut exp_entries: Vec<(Vec<u8>, Vec<u8>)> = Vec::new();
    exp_entries.push((
        bytes(">Q2HZH0"),
        bytes(&(Q2HZH0_SEQ_A.to_string() + Q2HZH0_SEQ_B)),
    ));
    exp_entries.push((
        bytes(">P93158"),
        bytes(&(P93158_SEQ_A.to_string() + P93158_SEQ_B)),
    ));
    exp_entries.push((
        bytes(">H0VS30"),
        bytes(&(H0VS30_SEQ_A.to_string() + H0VS30_SEQ_B + H0VS30_SEQ_C)),
    ));

    assert_eq!(
        FastaMap { id_to_seq: exp_entries },
        FastaMap::from_fasta(&plain(short_descr_fasta())).unwrap()
    );
}

#[test]
fn accessions_from_fasta_short() {
    assert_eq!(
        FastaAccessions::from_fasta(&plain(short_descr_fasta()), &bytes("|"), 1)
            .unwrap()
            .accessions,
        vec![bytes("Q2HZH0"), bytes("P93158"), bytes("H0VS30")]
    )
}

#[test]
fn accessions_from_fasta_long() {
    assert_eq!(
        FastaAccessions::from_fasta(&plain(long_descr_fasta()), &bytes("|"), 1)
            .unwrap()
            .accessions,
        vec![bytes("Q2HZH0"), bytes("P93158"), bytes("H0VS30")]
    )
}

#[test]
fn lengths_from_fasta() {
    let lengths = FastaLengths::from_fasta(&plain(long_descr_fasta()), &bytes("|"), 1).unwrap();
    let exp_entries: Vec<(Vec<u8>, usize)> = vec![
        (bytes("Q2HZH0"), 120),
        (bytes("P93158"), 120),
        (bytes("H0VS30"), 180),
    ];
    assert_eq!(
        lengths,
        FastaLengths { sequence_lengths: exp_entries }
    );
    println!("{:?}", lengths);
}

#[test]
fn streaming_decode_counts_description_lines() {
    // Lines before the first record are discarded; each description line
    // afterwards yields exactly one record, even with an empty sequence.
    let data = bytes("; a comment line\n>one\nAC\nGT\n>two\n>three\nTT\n");
    let records = decode_all(&plain(data)).unwrap();
    assert_eq!(records.len(), 3);
    assert_eq!(records[0].description, bytes(">one"));
    assert_eq!(records[0].sequence, bytes("ACGT"));
    assert_eq!(records[1].description, bytes(">two"));
    assert_eq!(records[1].sequence, bytes(""));
    assert_eq!(records[2].description, bytes(">three"));
    assert_eq!(records[2].sequence, bytes("TT"));
}

#[test]
fn decode_without_description_is_malformed() {
    let err = decode_all(&plain(bytes("no marker here\nAC\n"))).unwrap_err();
    assert_eq!(err.kind, ErrorKind::MalformedInput);
}

#[test]
fn decode_empty_input_is_malformed() {
    let err = FastaReader::new(&plain(Vec::new())).unwrap_err();
    assert_eq!(err.kind, ErrorKind::MalformedInput);
}

#[test]
fn reader_yields_records_in_order_then_none() {
    let mut reader = FastaReader::new(&plain(bytes(">a\nAA\n>b\nBB\n"))).unwrap();
    let first = reader.next().unwrap();
    assert_eq!(first.description, bytes(">a"));
    assert_eq!(first.sequence, bytes("AA"));
    let second = reader.next().unwrap();
    assert_eq!(second.description, bytes(">b"));
    assert_eq!(second.sequence, bytes("BB"));
    assert!(reader.next().is_none());
}

#[test]
fn streaming_scenario_three_records() {
    // Three records separated by blank lines decode in order with their
    // exact sequences.
    let data = bytes(">A|acc1\nSEQ1\n\n>A|acc2\nSEQ2\n\n>A|acc3\nSEQ3\n");
    let records = decode_all(&plain(data)).unwrap();
    assert_eq!(records.len(), 3);
    assert_eq!(records[0].sequence, bytes("SEQ1"));
    assert_eq!(records[1].sequence, bytes("SEQ2"));
    assert_eq!(records[2].sequence, bytes("SEQ3"));
}

#[test]
fn map_to_fasta_serializes_each_record() {
    let map = FastaMap {
        id_to_seq: vec![(bytes("a"), bytes("AC")), (bytes("b"), bytes("GT"))],
    };
    assert_eq!(map.to_fasta(), bytes(">a\nAC\n\n>b\nGT\n\n"));
}

#[test]
fn entry_equality_matches_fields() {
    let a = FastaEntry { description: bytes("d"), sequence: bytes("s") };
    let b = FastaEntry { description: bytes("d"), sequence: bytes("s") };
    assert_eq!(a, b);
}

#[test]
fn later_record_overwrites_equal_header_in_map() {
    let data = bytes(">a\nAAA\n>a\nCCC\n");
    let map = FastaMap::from_fasta(&plain(data)).unwrap();
    assert_eq!(map.id_to_seq.len(), 1);
    assert_eq!(map.get(&bytes(">a")).unwrap(), &bytes("CCC"));
}

#[test]
fn error_kinds_describe_themselves() {
    assert_eq!(
        ErrorKind::IndexNotAtDescription.as_str(),
        "Index points to a non-description line."
    );
    assert_eq!(
        ErrorKind::UnseekableSource.as_str(),
        "Cannot seek in a compressed source."
    );
    assert_eq!(
        ErrorKind::DuplicateAccession.as_str(),
        "Multiple entries found for one accession."
    );
}

#[test]
fn crlf_lines_decode_without_terminators() {
    let data = bytes(">a\r\nAC\r\nGT\r\n");
    let records = decode_all(&plain(data)).unwrap();
    assert_eq!(records.len(), 1);
    assert_eq!(records[0].description, bytes(">a"));
    assert_eq!(records[0].sequence, bytes("ACGT"));
}
