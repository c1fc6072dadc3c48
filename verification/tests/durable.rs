use fasta::errors::ErrorKind;
use fasta::index::FastaIndex;
use fasta::pieces::{FastaAccessions, FastaLengths};

fn bytes(s: &str) -> Vec<u8> {
    s.as_bytes().to_vec()
}

#[test]
fn durable_round_trip_plain_keys() {
    let index = FastaIndex {
        id_to_offset: vec![(bytes("acc1"), 0), (bytes("acc2"), 14), (bytes("acc3"), 28)],
    };
    let durable = index.to_json();
    assert_eq!(
        durable,
        bytes("{\"id_to_offset\":{\"acc1\":0,\"acc2\":14,\"acc3\":28}}")
    );
    assert_eq!(FastaIndex::from_json(&durable).unwrap(), index);
}

#[test]
fn durable_round_trip_empty_index() {
    let index = FastaIndex { id_to_offset: Vec::new() };
    let durable = index.to_json();
    assert_eq!(durable, bytes("{\"id_to_offset\":{}}"));
    assert_eq!(FastaIndex::from_json(&durable).unwrap(), index);
}

#[test]
fn durable_round_trip_escaped_keys() {
    let mut odd_key = bytes("a\"b\\c");
    odd_key.push(7);
    let index = FastaIndex {
        id_to_offset: vec![(odd_key, 3), (bytes(""), u64::MAX)],
    };
    let durable = index.to_json();
    assert_eq!(FastaIndex::from_json(&durable).unwrap(), index);
}

#[test]
fn malformed_index_file_is_rejected() {
    for case in [
        "",
        "{}",
        "{\"id_to_offset\":{}",
        "{\"id_to_offset\":{}}}",
        "{\"id_to_offset\":{\"a\":}}",
        "{\"id_to_offset\":{\"a\":1,}}",
        "{\"id_to_offset\":{\"a\":1} }",
        "{\"id_to_offset\": {\"a\":1}}",
        "{\"wrong_field\":{\"a\":1}}",
        "{\"id_to_offset\":{\"a\":99999999999999999999999}}",
        "{\"id_to_offset\":{\"a\":1,\"a\":2}}",
    ] {
        let err = FastaIndex::from_json(&bytes(case)).unwrap_err();
        assert_eq!(err.kind, ErrorKind::MalformedIndexFile, "case: {}", case);
    }
}

#[test]
fn durable_form_is_real_json() {
    let index = FastaIndex {
        id_to_offset: vec![(bytes("Q2HZH0"), 0), (bytes("P93158"), 205)],
    };
    let value: serde_json::Value = serde_json::from_slice(&index.to_json()).unwrap();
    assert_eq!(value["id_to_offset"]["Q2HZH0"], 0);
    assert_eq!(value["id_to_offset"]["P93158"], 205);
}

#[test]
fn accessions_to_json_is_real_json() {
    let accessions = FastaAccessions {
        accessions: vec![bytes("Q2HZH0"), bytes("P93158")],
    };
    let out = accessions.to_json();
    assert_eq!(out, bytes("[\"Q2HZH0\",\"P93158\"]"));
    let value: serde_json::Value = serde_json::from_slice(&out).unwrap();
    assert_eq!(value[0], "Q2HZH0");
    assert_eq!(value[1], "P93158");
}

#[test]
fn accessions_to_tsv_one_per_line() {
    let accessions = FastaAccessions {
        accessions: vec![bytes("a"), bytes("b")],
    };
    assert_eq!(accessions.to_tsv(), bytes("a\nb\n"));
}

#[test]
fn lengths_to_json_is_real_json() {
    let lengths = FastaLengths {
        sequence_lengths: vec![(bytes("Q2HZH0"), 120), (bytes("H0VS30"), 180)],
    };
    let out = lengths.to_json();
    assert_eq!(out, bytes("{\"Q2HZH0\":120,\"H0VS30\":180}"));
    let value: serde_json::Value = serde_json::from_slice(&out).unwrap();
    assert_eq!(value["Q2HZH0"], 120);
    assert_eq!(value["H0VS30"], 180);
}
