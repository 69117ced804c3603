use ssm_env::error::ResolutionError;
use ssm_env::object::flatten_object;
use ssm_env::order::{merge_order_of, rank_of};
use ssm_env::resolve::{decode_record, resolve, resolve_decoded, DecodedRecord, Record};

fn record(name: &str, value: &str) -> Record {
    Record { name: name.to_string(), value: Some(value.to_string()) }
}

fn strings(items: &[&str]) -> Vec<String> {
    items.iter().map(|item| item.to_string()).collect()
}

fn pair(key: &str, value: &str) -> (String, String) {
    (key.to_string(), value.to_string())
}

#[test]
fn resolves_one_object_to_its_members() {
    let paths = strings(&["/app/config"]);
    let records = vec![record("/app/config", r#"{"A":"1","B":"2"}"#)];
    let overlay = resolve(&paths, &records).unwrap();
    assert_eq!(overlay.entries(), vec![pair("A", "1"), pair("B", "2")]);
    assert_eq!(overlay.len(), 2);
}

#[test]
fn later_path_wins_on_collision() {
    let paths = strings(&["/p1", "/p2"]);
    let records = vec![record("/p1", r#"{"K":"1"}"#), record("/p2", r#"{"K":"2"}"#)];
    let overlay = resolve(&paths, &records).unwrap();
    assert_eq!(overlay.entries(), vec![pair("K", "2")]);
}

#[test]
fn later_path_wins_whatever_the_response_order() {
    let paths = strings(&["/p1", "/p2"]);
    let records = vec![record("/p2", r#"{"K":"2"}"#), record("/p1", r#"{"K":"1"}"#)];
    let overlay = resolve(&paths, &records).unwrap();
    assert_eq!(overlay.entries(), vec![pair("K", "2")]);
    let swapped = strings(&["/p2", "/p1"]);
    let overlay = resolve(&swapped, &records).unwrap();
    assert_eq!(overlay.entries(), vec![pair("K", "1")]);
}

#[test]
fn text_that_is_not_json_is_malformed() {
    let paths = strings(&["/p"]);
    let records = vec![record("/p", "not json")];
    assert_eq!(resolve(&paths, &records).unwrap_err(), ResolutionError::Malformed("/p".to_string()));
}

#[test]
fn empty_text_is_malformed() {
    let paths = strings(&["/p"]);
    let records = vec![record("/p", "")];
    assert_eq!(resolve(&paths, &records).unwrap_err(), ResolutionError::Malformed("/p".to_string()));
}

#[test]
fn json_array_is_malformed() {
    let paths = strings(&["/p"]);
    let records = vec![record("/p", "[1,2]")];
    assert_eq!(resolve(&paths, &records).unwrap_err(), ResolutionError::Malformed("/p".to_string()));
}

#[test]
fn json_scalars_are_malformed() {
    let paths = strings(&["/p"]);
    for text in ["5", "\"text\"", "true", "null", "1.5"] {
        let records = vec![record("/p", text)];
        assert_eq!(
            resolve(&paths, &records).unwrap_err(),
            ResolutionError::Malformed("/p".to_string())
        );
    }
}

#[test]
fn trailing_text_after_an_object_is_malformed() {
    let paths = strings(&["/p"]);
    let records = vec![record("/p", r#"{"A":"1"} x"#)];
    assert_eq!(resolve(&paths, &records).unwrap_err(), ResolutionError::Malformed("/p".to_string()));
}

#[test]
fn member_that_is_a_number_is_an_invalid_value() {
    let paths = strings(&["/p"]);
    let records = vec![record("/p", r#"{"A": 1}"#)];
    assert_eq!(
        resolve(&paths, &records).unwrap_err(),
        ResolutionError::InvalidValue("/p".to_string(), "A".to_string())
    );
}

#[test]
fn members_that_are_no_strings_are_invalid_values() {
    let paths = strings(&["/p"]);
    for text in [r#"{"A": null}"#, r#"{"A": true}"#, r#"{"A": ["x"]}"#, r#"{"A": {"B": "x"}}"#] {
        let records = vec![record("/p", text)];
        assert_eq!(
            resolve(&paths, &records).unwrap_err(),
            ResolutionError::InvalidValue("/p".to_string(), "A".to_string())
        );
    }
}

#[test]
fn first_invalid_member_in_written_order_is_reported() {
    let paths = strings(&["/p"]);
    let records = vec![record("/p", r#"{"Z": "ok", "B": 1, "A": 2}"#)];
    assert_eq!(
        resolve(&paths, &records).unwrap_err(),
        ResolutionError::InvalidValue("/p".to_string(), "B".to_string())
    );
}

#[test]
fn no_records_is_not_found() {
    let paths = strings(&["/p"]);
    let records: Vec<Record> = Vec::new();
    assert_eq!(resolve(&paths, &records).unwrap_err(), ResolutionError::NotFound);
    let decoded: Vec<DecodedRecord> = Vec::new();
    assert_eq!(resolve_decoded(&paths, &decoded).unwrap_err(), ResolutionError::NotFound);
}

#[test]
fn a_path_without_a_record_is_accepted() {
    let paths = strings(&["/a", "/b", "/c"]);
    let records = vec![record("/b", r#"{"K":"b"}"#)];
    let overlay = resolve(&paths, &records).unwrap();
    assert_eq!(overlay.entries(), vec![pair("K", "b")]);
}

#[test]
fn an_empty_object_gives_no_bindings() {
    let paths = strings(&["/a"]);
    let records = vec![record("/a", "{}")];
    let overlay = resolve(&paths, &records).unwrap();
    assert!(overlay.is_empty());
    assert_eq!(overlay.len(), 0);
}

#[test]
fn first_fault_in_path_order_ends_the_resolution() {
    let paths = strings(&["/a", "/b"]);
    let records = vec![record("/b", "nope"), record("/a", r#"{"A": 1}"#)];
    assert_eq!(
        resolve(&paths, &records).unwrap_err(),
        ResolutionError::InvalidValue("/a".to_string(), "A".to_string())
    );
}

#[test]
fn records_that_no_path_names_are_merged_last() {
    let paths = strings(&["/a"]);
    let records = vec![
        record("/x", r#"{"K":"x","X":"1"}"#),
        record("/a", r#"{"K":"a"}"#),
        record("/y", r#"{"K":"y"}"#),
    ];
    let overlay = resolve(&paths, &records).unwrap();
    assert_eq!(overlay.entries(), vec![pair("K", "y"), pair("X", "1")]);
}

#[test]
fn keys_keep_the_place_of_their_first_writing() {
    let paths = strings(&["/a", "/b"]);
    let records = vec![
        record("/a", r#"{"ONE":"1","TWO":"2"}"#),
        record("/b", r#"{"THREE":"3","ONE":"uno"}"#),
    ];
    let overlay = resolve(&paths, &records).unwrap();
    assert_eq!(overlay.entries(), vec![pair("ONE", "uno"), pair("TWO", "2"), pair("THREE", "3")]);
}

#[test]
fn resolving_twice_gives_the_same_overlay() {
    let paths = strings(&["/p1", "/p2"]);
    let records = vec![
        record("/p2", r#"{"K":"2","B":"b"}"#),
        record("/p1", r#"{"K":"1","A":"a"}"#),
    ];
    let first = resolve(&paths, &records).unwrap();
    let second = resolve(&paths, &records).unwrap();
    assert_eq!(first.entries(), second.entries());
    assert_eq!(first.entries(), vec![pair("K", "2"), pair("A", "a"), pair("B", "b")]);
    let bad = vec![record("/p1", "{")];
    assert_eq!(resolve(&paths, &bad).unwrap_err(), resolve(&paths, &bad).unwrap_err());
}

#[test]
fn decoding_reads_members_in_written_order() {
    let read = decode_record(&record("/p", r#"{"B":"2","A":1,"C":"x\ny"}"#));
    assert_eq!(read.name, "/p");
    assert_eq!(
        read.object,
        Some(vec![
            ("B".to_string(), Some("2".to_string())),
            ("A".to_string(), None),
            ("C".to_string(), Some("x\ny".to_string())),
        ])
    );
}

#[test]
fn decoding_keeps_the_last_value_of_a_repeated_key() {
    let read = decode_record(&record("/p", r#"{"A":"1","B":"2","A":"3"}"#));
    assert_eq!(
        read.object,
        Some(vec![("A".to_string(), Some("3".to_string())), ("B".to_string(), Some("2".to_string()))])
    );
}

#[test]
fn decoding_what_is_no_object_gives_none() {
    assert_eq!(decode_record(&record("/p", "[]")).object, None);
    assert_eq!(decode_record(&record("/p", "{")).object, None);
    assert_eq!(decode_record(&record("/p", "{}")).object, Some(Vec::new()));
}

#[test]
fn flattening_a_decoded_object() {
    let name = "/p".to_string();
    let object = Some(vec![
        ("A".to_string(), Some("1".to_string())),
        ("B".to_string(), Some("".to_string())),
    ]);
    assert_eq!(flatten_object(&name, &object), Ok(vec![pair("A", "1"), pair("B", "")]));
    assert_eq!(flatten_object(&name, &None), Err(ResolutionError::Malformed("/p".to_string())));
    let bad = Some(vec![
        ("A".to_string(), Some("1".to_string())),
        ("B".to_string(), None),
        ("C".to_string(), None),
    ]);
    assert_eq!(
        flatten_object(&name, &bad),
        Err(ResolutionError::InvalidValue("/p".to_string(), "B".to_string()))
    );
}

#[test]
fn resolving_decoded_records() {
    let paths = strings(&["/p1", "/p2"]);
    let records = vec![
        DecodedRecord {
            name: "/p2".to_string(),
            object: Some(vec![("K".to_string(), Some("2".to_string()))]),
        },
        DecodedRecord {
            name: "/p1".to_string(),
            object: Some(vec![("K".to_string(), Some("1".to_string()))]),
        },
    ];
    let overlay = resolve_decoded(&paths, &records).unwrap();
    assert_eq!(overlay.get("K"), Some(&"2".to_string()));
    assert_eq!(overlay.len(), 1);
}

#[test]
fn rank_is_the_last_place_among_the_paths() {
    let paths = strings(&["/a", "/b", "/a", ""]);
    assert_eq!(rank_of(&paths, &"/a".to_string()), 2);
    assert_eq!(rank_of(&paths, &"/b".to_string()), 1);
    assert_eq!(rank_of(&paths, &"".to_string()), 3);
    assert_eq!(rank_of(&paths, &"/c".to_string()), 4);
    assert_eq!(rank_of(&Vec::new(), &"/c".to_string()), 0);
    let repeated = strings(&["/a", "/a", "/a"]);
    assert_eq!(rank_of(&repeated, &"/a".to_string()), 2);
    assert_eq!(rank_of(&repeated, &"/b".to_string()), 3);
}

#[test]
fn a_path_listed_twice_counts_where_it_is_listed_last() {
    let paths = strings(&["/a", "/b", "/a"]);
    let reply = vec![record("/b", r#"{"K":"2"}"#), record("/a", r#"{"K":"1"}"#)];
    assert_eq!(resolve(&paths, &reply).unwrap().entries(), vec![pair("K", "1")]);
    let turned = vec![record("/a", r#"{"K":"1"}"#), record("/b", r#"{"K":"2"}"#)];
    assert_eq!(resolve(&paths, &turned).unwrap().entries(), vec![pair("K", "1")]);
    let other = strings(&["/b", "/a", "/b"]);
    assert_eq!(resolve(&other, &reply).unwrap().entries(), vec![pair("K", "2")]);
    assert_eq!(resolve(&other, &turned).unwrap().entries(), vec![pair("K", "2")]);
}

#[test]
fn merge_order_with_a_path_listed_twice() {
    let paths = strings(&["/a", "/b", "/a"]);
    let names = strings(&["/a", "/b", "/x"]);
    assert_eq!(merge_order_of(&paths, &names), vec![1, 0, 2]);
    let names = strings(&["/b", "/a"]);
    assert_eq!(merge_order_of(&paths, &names), vec![0, 1]);
}

#[test]
fn each_key_holds_the_value_of_the_last_path_that_has_it() {
    let paths = strings(&["/p0", "/p1", "/p2"]);
    let reply = vec![
        record("/p2", r#"{"C":"c2","B":"b2"}"#),
        record("/p0", r#"{"A":"a0","B":"b0","D":"d0"}"#),
        record("/p1", r#"{"A":"a1","D":"d1"}"#),
    ];
    let overlay = resolve(&paths, &reply).unwrap();
    assert_eq!(overlay.len(), 4);
    assert_eq!(overlay.get("A"), Some(&"a1".to_string()));
    assert_eq!(overlay.get("B"), Some(&"b2".to_string()));
    assert_eq!(overlay.get("C"), Some(&"c2".to_string()));
    assert_eq!(overlay.get("D"), Some(&"d1".to_string()));
    assert_eq!(overlay.get("E"), None);
}

#[test]
fn a_record_without_a_value_is_malformed() {
    let paths = strings(&["/a", "/b"]);
    let records = vec![
        record("/a", r#"{"K":"1"}"#),
        Record { name: "/b".to_string(), value: None },
    ];
    assert_eq!(resolve(&paths, &records).unwrap_err(), ResolutionError::Malformed("/b".to_string()));
    let read = decode_record(&Record { name: "/b".to_string(), value: None });
    assert_eq!(read.name, "/b");
    assert_eq!(read.object, None);
}

#[test]
fn merge_order_follows_the_paths_and_is_stable() {
    let paths = strings(&["/a", "/b", "/c"]);
    let names = strings(&["/c", "/x", "/a", "/b", "/a", "/y"]);
    assert_eq!(merge_order_of(&paths, &names), vec![2, 4, 3, 0, 1, 5]);
    assert_eq!(merge_order_of(&paths, &Vec::new()), Vec::<usize>::new());
    assert_eq!(merge_order_of(&Vec::new(), &names), vec![0, 1, 2, 3, 4, 5]);
}
