use disseqt::dsv::{DsvError, DsvFile};
use disseqt::shape::ShapeError;
use std::collections::HashMap;

const GRADIENT: &str = "\
[HEADER]
FORMAT=1
[DEFINITIONS]
SAMPLES = 14
HORIUNITNAME=\u{b5}s
HORIDELTA=10

VERTUNITNAME = mT/m
VERTFACTOR=1000
[VALUES]
5
5
3
1
1
7

[CHECKSUM]
1
";

fn text(key: &str) -> Vec<u8> {
    key.as_bytes().to_vec()
}

fn pairs(file: &DsvFile) -> Vec<(String, String)> {
    file.definitions
        .iter()
        .map(|(k, v)| {
            (
                String::from_utf8_lossy(k).into_owned(),
                String::from_utf8_lossy(v).into_owned(),
            )
        })
        .collect()
}

// The same file read with the standard library alone.
fn by_std(bytes: &[u8]) -> Option<(HashMap<String, String>, Vec<i64>)> {
    let file_str = String::from_utf8_lossy(bytes);
    let definitions_raw = file_str
        .split('[')
        .find(|s| s.starts_with("DEFINITIONS"))?;
    let definitions = definitions_raw
        .lines()
        .skip(1)
        .filter(|l| !l.is_empty())
        .map_while(|def| def.split_once('='))
        .map(|(key, val)| (key.trim().to_owned(), val.trim().to_owned()))
        .collect();
    let values_raw = file_str.split('[').find(|s| s.starts_with("VALUES"))?;
    let values = values_raw
        .lines()
        .skip(1)
        .map_while(|s| s.parse().ok())
        .collect();
    Some((definitions, values))
}

fn by_library(bytes: &[u8]) -> Option<(HashMap<String, String>, Vec<i64>)> {
    let file = DsvFile::load(bytes)?;
    Some((pairs(&file).into_iter().collect(), file.values))
}

#[test]
fn reads_definitions_and_values() {
    let file = DsvFile::load(GRADIENT.as_bytes()).unwrap();
    assert_eq!(
        pairs(&file),
        vec![
            ("SAMPLES".to_owned(), "14".to_owned()),
            ("HORIUNITNAME".to_owned(), "\u{b5}s".to_owned()),
            ("HORIDELTA".to_owned(), "10".to_owned()),
            ("VERTUNITNAME".to_owned(), "mT/m".to_owned()),
            ("VERTFACTOR".to_owned(), "1000".to_owned()),
        ]
    );
    assert_eq!(file.values, vec![5, 5, 3, 1, 1, 7]);
}

#[test]
fn decodes_the_waveform_of_a_file() {
    let file = DsvFile::load(GRADIENT.as_bytes()).unwrap();
    assert_eq!(file.samples(), Some(14));
    assert_eq!(
        file.shape(),
        Ok(vec![5, 10, 15, 20, 25, 26, 27, 28, 29, 30, 31, 32, 33, 34])
    );
}

#[test]
fn looks_definitions_up() {
    let file = DsvFile::load(GRADIENT.as_bytes()).unwrap();
    assert_eq!(file.get(b"HORIDELTA"), Some(&text("10")));
    assert_eq!(file.get(b"VERTUNITNAME"), Some(&text("mT/m")));
    assert_eq!(file.get(b"FORMAT"), None);
    assert_eq!(file.get(b"samples"), None);
    assert_eq!(file.get(b""), None);
}

#[test]
fn last_definition_of_a_key_counts() {
    let file = DsvFile::load(b"[DEFINITIONS]\nA=1\nB=2\nA=3\n[VALUES]\n").unwrap();
    assert_eq!(file.get(b"A"), Some(&text("3")));
    assert_eq!(file.get(b"B"), Some(&text("2")));
}

#[test]
fn missing_section_is_reported() {
    assert!(DsvFile::load(b"").is_none());
    assert!(DsvFile::load(b"[DEFINITIONS]\nA=1\n").is_none());
    assert!(DsvFile::load(b"[VALUES]\n1\n").is_none());
    assert!(DsvFile::load(b"[ DEFINITIONS]\n[VALUES]\n").is_none());
    assert!(DsvFile::load(b"[definitions]\n[VALUES]\n").is_none());
    assert!(DsvFile::load(b"[VALUES]\n1\n[DEFINITIONS]\nA=1").is_some());
}

#[test]
fn section_at_the_start_of_the_text_counts() {
    let file = DsvFile::load(b"DEFINITIONS\nA=1\n[VALUES]\n7\n").unwrap();
    assert_eq!(pairs(&file), vec![("A".to_owned(), "1".to_owned())]);
    assert_eq!(file.values, vec![7]);
}

#[test]
fn first_section_of_a_name_counts() {
    let file =
        DsvFile::load(b"[VALUES]\n1\n[DEFINITIONS]\nA=1\n[VALUES]\n2\n[DEFINITIONS]\nA=2\n")
            .unwrap();
    assert_eq!(pairs(&file), vec![("A".to_owned(), "1".to_owned())]);
    assert_eq!(file.values, vec![1]);
}

#[test]
fn section_name_may_go_on() {
    let file = DsvFile::load(b"[DEFINITIONS2] A=0\nA=1\n[VALUES and more\n3\n").unwrap();
    assert_eq!(pairs(&file), vec![("A".to_owned(), "1".to_owned())]);
    assert_eq!(file.values, vec![3]);
}

#[test]
fn definitions_end_with_the_first_line_without_equals_sign() {
    let file = DsvFile::load(b"[DEFINITIONS]\nA=1\n\n\nB=2\nend\nC=3\n[VALUES]\n").unwrap();
    assert_eq!(
        pairs(&file),
        vec![
            ("A".to_owned(), "1".to_owned()),
            ("B".to_owned(), "2".to_owned())
        ]
    );
    // A line of white space is not empty, and holds no equals sign.
    let file = DsvFile::load(b"[DEFINITIONS]\nA=1\n \nB=2\n[VALUES]\n").unwrap();
    assert_eq!(pairs(&file), vec![("A".to_owned(), "1".to_owned())]);
}

#[test]
fn key_and_value_are_split_at_the_first_equals_sign() {
    let file = DsvFile::load(b"[DEFINITIONS]\n a = b = c \n=\n x=\n=y\n[VALUES]\n").unwrap();
    assert_eq!(
        pairs(&file),
        vec![
            ("a".to_owned(), "b = c".to_owned()),
            ("".to_owned(), "".to_owned()),
            ("x".to_owned(), "".to_owned()),
            ("".to_owned(), "y".to_owned()),
        ]
    );
}

#[test]
fn values_end_with_the_first_line_that_is_no_integer() {
    let file = DsvFile::load(b"[DEFINITIONS]\n[VALUES]\n1\n-2\n+3\n\n4\n").unwrap();
    assert_eq!(file.values, vec![1, -2, 3]);
    let file = DsvFile::load(b"[DEFINITIONS]\n[VALUES]\n1\n2 \n3\n").unwrap();
    assert_eq!(file.values, vec![1]);
    let file = DsvFile::load(b"[DEFINITIONS]\n[VALUES]\n1\n9223372036854775808\n3\n").unwrap();
    assert_eq!(file.values, vec![1]);
    let file = DsvFile::load(b"[DEFINITIONS]\n[VALUES] 5\n6").unwrap();
    assert_eq!(file.values, vec![6]);
    let file = DsvFile::load(b"[DEFINITIONS]\n[VALUES]").unwrap();
    assert_eq!(file.values, vec![]);
}

#[test]
fn carriage_returns_end_lines_with_their_line_feeds() {
    let file =
        DsvFile::load(b"[DEFINITIONS]\r\nA=1\r\n\r\nB=2\r\n[VALUES]\r\n1\r\n2\r\n3").unwrap();
    assert_eq!(
        pairs(&file),
        vec![
            ("A".to_owned(), "1".to_owned()),
            ("B".to_owned(), "2".to_owned())
        ]
    );
    assert_eq!(file.values, vec![1, 2, 3]);
    // Without a line feed the carriage return stays with the last line.
    let file = DsvFile::load(b"[DEFINITIONS]\r\n[VALUES]\r\n1\r\n2\r").unwrap();
    assert_eq!(file.values, vec![1]);
}

#[test]
fn sample_count_must_be_spelled_out() {
    let file = DsvFile::load(b"[DEFINITIONS]\nSAMPLES=\n[VALUES]\n1\n").unwrap();
    assert_eq!(file.samples(), None);
    assert_eq!(file.shape(), Err(DsvError::NoSampleCount));
    let file = DsvFile::load(b"[DEFINITIONS]\nSAMPLE=1\n[VALUES]\n1\n").unwrap();
    assert_eq!(file.shape(), Err(DsvError::NoSampleCount));
    let file = DsvFile::load(b"[DEFINITIONS]\nSAMPLES=-1\n[VALUES]\n1\n").unwrap();
    assert_eq!(file.shape(), Err(DsvError::NoSampleCount));
    let file = DsvFile::load(b"[DEFINITIONS]\nSAMPLES=1.0\n[VALUES]\n1\n").unwrap();
    assert_eq!(file.shape(), Err(DsvError::NoSampleCount));
    let file = DsvFile::load(b"[DEFINITIONS]\nSAMPLES=+1\n[VALUES]\n1\n").unwrap();
    assert_eq!(file.shape(), Ok(vec![1]));
}

#[test]
fn stream_that_does_not_decode_is_reported() {
    let file = DsvFile::load(b"[DEFINITIONS]\nSAMPLES=3\n[VALUES]\n1\n2\n").unwrap();
    assert_eq!(
        file.shape(),
        Err(DsvError::Stream(ShapeError::LengthMismatch))
    );
    let file = DsvFile::load(b"[DEFINITIONS]\nSAMPLES=3\n[VALUES]\n1\n1\n-1\n").unwrap();
    assert_eq!(
        file.shape(),
        Err(DsvError::Stream(ShapeError::NegativeRepeat))
    );
    let file =
        DsvFile::load(b"[DEFINITIONS]\nSAMPLES=2\n[VALUES]\n9223372036854775807\n1\n").unwrap();
    assert_eq!(file.shape(), Err(DsvError::Stream(ShapeError::Overflow)));
}

#[test]
fn reads_files_as_the_standard_library_does() {
    let texts: Vec<&[u8]> = vec![
        GRADIENT.as_bytes(),
        b"",
        b"[",
        b"[[",
        b"DEFINITIONS",
        b"[DEFINITIONS][VALUES]",
        b"[DEFINITIONS]\n[VALUES]\n",
        b"[DEFINITIONS]A=1\nB=2[VALUES]\n1\n2",
        b"[DEFINITIONS]\nA=[1]\nB=2\n[VALUES]\n1\n[2\n",
        b"[DEFINITIONS]\n\nA=1\n\n\n[VALUES]\n\n1\n",
        b"[DEFINITIONS]\r\nA = 1 \r\nB\r=2\r\n\r\r\nC=3\r\n[VALUES]\r\n1\r\n2\r",
        b"[DEFINITIONS]\nA=1\r[VALUES]\n1\r",
        b"[DEFINITIONS]\n\xa0A\xa0=\xb5s\n\xc2\xa0B\xc2\xa0=\xe2\x80\x83x\xe2\x80\n[VALUES]\n1\n",
        b"[DEFINITIONS]\n\xe2\x80=\xe2\x80\xa8\n\xff=\xfe\n[VALUES]\n1\n\xff\n2\n",
        b"[VALUES]\n+1\n-1\n01\n1.5\n[DEFINITIONS]\n= \n =\n  =  \n",
        b"[VALUESDEFINITIONS]\n1\n[DEFINITIONSVALUES]\nA=1\n",
        b"[DEFINITIONS]\nA=1\n[VALUES]\n9223372036854775807\n-9223372036854775808\n0\n",
        b"x[DEFINITIONS\nA=1\nA=2\n A =3\n[VALUES\n",
    ];
    for bytes in texts {
        assert_eq!(by_library(bytes), by_std(bytes));
    }
}
