use std::io::Write;

use fasta::errors::ErrorKind;
use fasta::index::FastaIndex;
use fasta::map::FastaMap;
use fasta::pieces::FastaEntry;
use fasta::read::{decode_all, gzip_extension, FastaHandle};

fn bytes(s: &str) -> Vec<u8> {
    s.as_bytes().to_vec()
}

const Q2HZH0_SEQ_A: &str = "MATVPEPTSEMMSYYYSDNENDLFFEADGPRKMKCCFQDLNNSSLKDEGIQLHISHQLQN";
const Q2HZH0_SEQ_B: &str = "KSLRHFVSVVVALEKLKKISLPCSQPLQDDDLKNVFCCIFEEEPIVCEVYDDDAFVCDAP";
const P93158_SEQ_A: &str = "TLKVPVHVPSPSEDAEWQLRKAFEGWGTNEQLIIDILAHRNAAQRNSIRKVYGEAYGEDL";
const P93158_SEQ_B: &str = "LKCLEKELTSDFERAVLLFTLDPAERDAHLANEATKKFTSSNWILMEIACSRSSHELLNV";
const H0VS30_SEQ_A: &str = "MEAAAAAPRHQLLLLMLVAAAATLLPGAKALQCFCQLCAKDNYTCVTDGLCFVSITETTD";
const H0VS30_SEQ_B: &str = "RIIHNTMCIAEIDLIPRDRPFVCAPSSKTGAVTTTHCCNQDHCNKIELPTTEKQSSGLGP";
const H0VS30_SEQ_C: &str = "VELAAVIAGPVCFVCISLMLMVYICHNRTVIHHRVPNEEDPSLDRPFISEGTTLKDLIYD";

const Q2HZH0_DESCR: &str =
    ">sp|Q2HZH0|IL1B_PUSHI Interleukin-1 beta OS=Pusa hispida OX=9718 GN=IL1B PE=2 SV=1";
const P93158_DESCR: &str = ">tr|P93158|P93158_GOSHI Annexin (Fragment) OS=Gossypium hirsutum \
     OX=3635 GN=AnnGh2 PE=2 SV=1";
const H0VS30_DESCR: &str = ">tr|H0VS30|H0VS30_LATCH Transforming growth factor beta receptor \
     OS=Latimeria chalumnae OX=7897 GN=TGFBR1 PE=4 SV=1";

/// The sample source with UniProt-style description lines.
fn long_descr_fasta() -> Vec<u8> {
    let mut s = String::new();
    s.push_str(Q2HZH0_DESCR);
    s.push('\n');
    s.push_str(Q2HZH0_SEQ_A);
    s.push('\n');
    s.push_str(Q2HZH0_SEQ_B);
    s.push('\n');
    s.push_str(P93158_DESCR);
    s.push('\n');
    s.push_str(P93158_SEQ_A);
    s.push('\n');
    s.push_str(P93158_SEQ_B);
    s.push('\n');
    s.push_str(H0VS30_DESCR);
    s.push('\n');
    s.push_str(H0VS30_SEQ_A);
    s.push('\n');
    s.push_str(H0VS30_SEQ_B);
    s.push('\n');
    s.push_str(H0VS30_SEQ_C);
    s.push('\n');
    s.into_bytes()
}

fn plain(data: Vec<u8>) -> FastaHandle {
    FastaHandle::open_fasta(data, false).unwrap()
}

fn gzip(data: &[u8]) -> Vec<u8> {
    let mut encoder =
        flate2::write::GzEncoder::new(Vec::new(), flate2::Compression::default());
    encoder.write_all(data).unwrap();
    encoder.finish().unwrap()
}

#[test]
fn index_building() {
    let index = FastaIndex::new(&plain(long_descr_fasta()), &bytes("|"), 1).unwrap();
    let durable = index.to_json();
    assert_eq!(index, FastaIndex::from_json(&durable).unwrap());
}

#[test]
fn indexed_reading() {
    let handle = plain(long_descr_fasta());
    let index = FastaIndex::new(&handle, &bytes("|"), 1).unwrap();
    let (fasta_map, failures) = FastaMap::from_index_with_ids(
        &handle,
        &index,
        &vec![bytes("P93158"), bytes("Q2HZH0")],
    )
    .unwrap();
    assert!(failures.is_empty());
    assert_eq!(fasta_map.id_to_seq.len(), 2);
    assert!(fasta_map.get(&bytes("P93158")).is_some());
    assert!(fasta_map.get(&bytes("Q2HZH0")).is_some());
}

#[test]
fn individual_entry_from_index() {
    let handle = plain(long_descr_fasta());
    let index = FastaIndex::new(&handle, &bytes("|"), 1).unwrap();
    let entry =
        FastaEntry::from_index(&handle, index.get(&bytes("P93158")).unwrap()).unwrap();

    let exp_entry = FastaEntry {
        description: bytes(&P93158_DESCR[1..]),
        sequence: bytes(&(P93158_SEQ_A.to_string() + P93158_SEQ_B)),
    };
    assert_eq!(exp_entry, entry);
}

#[test]
fn get_single_fasta_entry() {
    let handle = plain(long_descr_fasta());
    let built = FastaIndex::new(&handle, &bytes("|"), 1).unwrap();
    let index = FastaIndex::from_json(&built.to_json()).unwrap();
    let entry =
        FastaEntry::from_index(&handle, index.get(&bytes("P93158")).unwrap()).unwrap();
    let expected = FastaEntry {
        description: bytes(&P93158_DESCR[1..]),
        sequence: bytes(&(P93158_SEQ_A.to_string() + P93158_SEQ_B)),
    };
    assert_eq!(entry, expected);
}

#[test]
fn index_offsets_scenario_three_records() {
    let data = bytes(">A|acc1\nSEQ1\n\n>A|acc2\nSEQ2\n\n>A|acc3\nSEQ3\n");
    let handle = plain(data);
    let index = FastaIndex::new(&handle, &bytes("|"), 1).unwrap();
    assert_eq!(index.get(&bytes("acc1")), Some(0));
    assert_eq!(index.get(&bytes("acc2")), Some(14));
    assert_eq!(index.get(&bytes("acc3")), Some(28));

    let entry = FastaEntry::from_index(&handle, 14).unwrap();
    assert_eq!(entry.description, bytes("A|acc2"));
    assert_eq!(entry.sequence, bytes("SEQ2"));
}

#[test]
fn seek_to_each_offset_reads_the_description() {
    // For every key of a built index, reading at the recorded offset
    // gives back exactly that key's description line.
    let handle = plain(long_descr_fasta());
    let index = FastaIndex::new(&handle, &bytes("|"), 1).unwrap();
    let expected = [
        ("Q2HZH0", Q2HZH0_DESCR),
        ("P93158", P93158_DESCR),
        ("H0VS30", H0VS30_DESCR),
    ];
    for (id, descr) in expected {
        let offset = index.get(&bytes(id)).unwrap();
        let entry = FastaEntry::from_index(&handle, offset).unwrap();
        assert_eq!(entry.description, bytes(&descr[1..]));
    }
}

#[test]
fn duplicate_accession_fails_index_build() {
    let data = bytes(">A|dup\nAAA\n>B|dup\nCCC\n");
    let err = FastaIndex::new(&plain(data), &bytes("|"), 1).unwrap_err();
    assert_eq!(err.kind, ErrorKind::DuplicateAccession);
    assert_eq!(err.message, bytes("dup"));
}

#[test]
fn missing_accession_is_reported_per_id() {
    let handle = plain(bytes(">A|here\nAAA\n"));
    let index = FastaIndex::new(&handle, &bytes("|"), 1).unwrap();
    let (map, failures) = FastaMap::from_index_with_ids(
        &handle,
        &index,
        &vec![bytes("absent"), bytes("here")],
    )
    .unwrap();
    assert_eq!(map.id_to_seq.len(), 1);
    assert!(map.get(&bytes("here")).is_some());
    assert_eq!(failures.len(), 1);
    assert_eq!(failures[0].kind, ErrorKind::MissingAccession);
    assert_eq!(failures[0].message, bytes("absent"));
}

#[test]
fn index_lookup_of_absent_id_is_none() {
    let index = FastaIndex::new(&plain(bytes(">A|x\nAA\n")), &bytes("|"), 1).unwrap();
    assert_eq!(index.get(&bytes("y")), None);
}

#[test]
fn compressed_source_cannot_be_indexed() {
    let gz = gzip(b">A|acc1\nSEQ1\n");
    let handle = FastaHandle::open_fasta(gz, true).unwrap();
    let err = FastaIndex::new(&handle, &bytes("|"), 1).unwrap_err();
    assert_eq!(err.kind, ErrorKind::UnseekableSource);
}

#[test]
fn compressed_source_cannot_be_read_randomly() {
    let gz = gzip(b">A|acc1\nSEQ1\n");
    let handle = FastaHandle::open_fasta(gz, true).unwrap();
    assert!(!handle.supports_seek());

    let err = FastaEntry::from_index(&handle, 0).unwrap_err();
    assert_eq!(err.kind, ErrorKind::UnseekableSource);

    let index = FastaIndex { id_to_offset: vec![(bytes("acc1"), 0)] };
    let err = FastaMap::from_index_with_ids(&handle, &index, &vec![bytes("acc1")])
        .unwrap_err();
    assert_eq!(err.kind, ErrorKind::UnseekableSource);
}

#[test]
fn offset_not_at_description_fails() {
    let handle = plain(bytes(">A|acc1\nSEQ1\n"));
    // Offset 8 points at the sequence line, offset 100 beyond the end.
    let err = FastaEntry::from_index(&handle, 8).unwrap_err();
    assert_eq!(err.kind, ErrorKind::IndexNotAtDescription);
    let err = FastaEntry::from_index(&handle, 100).unwrap_err();
    assert_eq!(err.kind, ErrorKind::IndexNotAtDescription);
}

#[test]
fn random_access_stops_at_blank_line() {
    let data = bytes(">a\nAC\nGT\n\nTRAILING\n>b\nTT\n");
    let entry = FastaEntry::from_index(&plain(data), 0).unwrap();
    assert_eq!(entry.description, bytes("a"));
    assert_eq!(entry.sequence, bytes("ACGT"));
}

#[test]
fn random_access_stops_at_next_description() {
    let data = bytes(">a\nAC\nGT\n>b\nTT\n");
    let entry = FastaEntry::from_index(&plain(data), 0).unwrap();
    assert_eq!(entry.sequence, bytes("ACGT"));
}

#[test]
fn gzip_decodes_through_the_handle() {
    let plain_data = long_descr_fasta();
    let gz = gzip(&plain_data);
    assert_ne!(gz, plain_data);
    let handle = FastaHandle::open_fasta(gz, true).unwrap();
    let records = decode_all(&handle).unwrap();
    let plain_records = decode_all(&plain(plain_data)).unwrap();
    assert_eq!(records, plain_records);
    assert_eq!(records.len(), 3);
}

#[test]
fn multi_member_gzip_decodes_as_one_stream() {
    let mut gz = gzip(b">a\nAC\n");
    gz.extend_from_slice(&gzip(b">b\nGT\n"));
    let handle = FastaHandle::open_fasta(gz, true).unwrap();
    let records = decode_all(&handle).unwrap();
    assert_eq!(records.len(), 2);
    assert_eq!(records[0].sequence, b"AC".to_vec());
    assert_eq!(records[1].sequence, b"GT".to_vec());
}

#[test]
fn garbage_compressed_bytes_fail_to_open() {
    let err = FastaHandle::open_fasta(bytes("not gzip at all"), true).unwrap_err();
    assert_eq!(err.kind, ErrorKind::IOFailure);
}

#[test]
fn gzip_extension_selects_compression() {
    assert!(gzip_extension(&bytes("gz")));
    assert!(!gzip_extension(&bytes("fasta")));
    assert!(!gzip_extension(&bytes("")));
}
