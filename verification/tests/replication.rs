use peer_cluster::json::{Json, Member};
use peer_cluster::sync::{
    decode_replication_message, encode_replication_message, number_string, read_message,
    split_document, ChunkPlace, ReplicationMessage, SyncChunkBuffer, SyncError,
};

fn place(index: u64, total: u64) -> ChunkPlace {
    ChunkPlace { index, total }
}

#[test]
fn a_whole_document_message() {
    let message = decode_replication_message(r#"{"file_name":"directory.json","data":"{\"a\":1}"}"#)
        .unwrap();
    assert_eq!(message.file_name, "directory.json");
    assert_eq!(message.data, "{\"a\":1}");
    assert_eq!(message.place, None);
}

#[test]
fn a_chunk_message() {
    let message = decode_replication_message(
        r#"{"file_name":"clients.json","chunk_index":2,"total_chunks":5,"data":"abc"}"#,
    )
    .unwrap();
    assert_eq!(message.file_name, "clients.json");
    assert_eq!(message.data, "abc");
    assert_eq!(message.place, Some(place(2, 5)));
}

#[test]
fn each_way_a_message_can_be_wrong() {
    let err = |line: &str| decode_replication_message(line).err();
    assert_eq!(err("not json"), Some(SyncError::InvalidJson));
    assert_eq!(err(""), Some(SyncError::InvalidJson));
    assert_eq!(err(r#"{"data":"x"}"#), Some(SyncError::MissingFileName));
    assert_eq!(err(r#"{"file_name":7,"data":"x"}"#), Some(SyncError::MissingFileName));
    assert_eq!(err(r#"["file_name","data"]"#), Some(SyncError::MissingFileName));
    assert_eq!(err(r#"{"file_name":"f"}"#), Some(SyncError::MissingData));
    assert_eq!(err(r#"{"file_name":"f","data":{"a":1}}"#), Some(SyncError::MissingData));
    assert_eq!(err(r#"{"file_name":"f","data":"x","chunk_index":1}"#), Some(SyncError::InvalidChunk));
    assert_eq!(err(r#"{"file_name":"f","data":"x","total_chunks":1}"#), Some(SyncError::InvalidChunk));
    assert_eq!(
        err(r#"{"file_name":"f","data":"x","chunk_index":-1,"total_chunks":2}"#),
        Some(SyncError::InvalidChunk)
    );
    assert_eq!(
        err(r#"{"file_name":"f","data":"x","chunk_index":1.5,"total_chunks":2}"#),
        Some(SyncError::InvalidChunk)
    );
    assert_eq!(
        err(r#"{"file_name":"f","data":"x","chunk_index":"1","total_chunks":2}"#),
        Some(SyncError::InvalidChunk)
    );
}

#[test]
fn messages_are_written_as_json() {
    let whole = ReplicationMessage {
        file_name: "directory.json".to_string(),
        data: "{\"a\":1}".to_string(),
        place: None,
    };
    assert_eq!(
        encode_replication_message(&whole).as_deref(),
        Some(r#"{"data":"{\"a\":1}","file_name":"directory.json"}"#)
    );
    let chunk = ReplicationMessage {
        file_name: "f".to_string(),
        data: "x".to_string(),
        place: Some(place(3, 10)),
    };
    assert_eq!(
        encode_replication_message(&chunk).as_deref(),
        Some(r#"{"chunk_index":3,"data":"x","file_name":"f","total_chunks":10}"#)
    );
}

#[test]
fn written_messages_read_back() {
    for p in [None, Some(place(0, 1)), Some(place(7, 18_446_744_073_709_551_615))] {
        let message = ReplicationMessage {
            file_name: "d\"q.json".to_string(),
            data: "line\n{\"k\":[1,2]}".to_string(),
            place: p,
        };
        let back = decode_replication_message(&encode_replication_message(&message).unwrap()).unwrap();
        assert_eq!(back.file_name, message.file_name);
        assert_eq!(back.data, message.data);
        assert_eq!(back.place, p);
    }
}

#[test]
fn numbers_as_text() {
    assert_eq!(number_string(0), "0");
    assert_eq!(number_string(7), "7");
    assert_eq!(number_string(10), "10");
    assert_eq!(number_string(1234567890), "1234567890");
    assert_eq!(number_string(u64::MAX), "18446744073709551615");
}

#[test]
fn chunks_are_joined_in_index_order() {
    let mut buffer = SyncChunkBuffer::new();
    assert_eq!(buffer.insert("d".to_string(), place(2, 3), "C".to_string()), None);
    assert_eq!(buffer.len(), 1);
    assert_eq!(buffer.insert("d".to_string(), place(0, 3), "A".to_string()), None);
    assert_eq!(buffer.insert("d".to_string(), place(1, 3), "B".to_string()), Some("ABC".to_string()));
    assert_eq!(buffer.len(), 0);
}

#[test]
fn documents_are_kept_apart() {
    let mut buffer = SyncChunkBuffer::new();
    assert_eq!(buffer.insert("a".to_string(), place(0, 2), "a0".to_string()), None);
    assert_eq!(buffer.insert("b".to_string(), place(1, 2), "b1".to_string()), None);
    assert_eq!(buffer.len(), 2);
    assert_eq!(buffer.insert("b".to_string(), place(0, 2), "b0".to_string()), Some("b0b1".to_string()));
    assert_eq!(buffer.len(), 1);
    assert_eq!(buffer.insert("a".to_string(), place(1, 2), "a1".to_string()), Some("a0a1".to_string()));
    assert_eq!(buffer.len(), 0);
}

#[test]
fn a_repeated_chunk_replaces_the_earlier_one() {
    let mut buffer = SyncChunkBuffer::new();
    assert_eq!(buffer.insert("d".to_string(), place(0, 2), "old".to_string()), None);
    assert_eq!(buffer.insert("d".to_string(), place(0, 2), "new".to_string()), None);
    assert_eq!(buffer.insert("d".to_string(), place(1, 2), "!".to_string()), Some("new!".to_string()));
}

#[test]
fn a_single_chunk_document_is_whole_at_once() {
    let mut buffer = SyncChunkBuffer::new();
    assert_eq!(buffer.insert("d".to_string(), place(0, 1), "all".to_string()), Some("all".to_string()));
    assert_eq!(buffer.len(), 0);
}

#[test]
fn a_chunk_out_of_range_never_completes() {
    let mut buffer = SyncChunkBuffer::new();
    assert_eq!(buffer.insert("d".to_string(), place(5, 2), "x".to_string()), None);
    assert_eq!(buffer.insert("d".to_string(), place(0, 2), "a".to_string()), None);
    assert_eq!(buffer.insert("d".to_string(), place(1, 2), "b".to_string()), None);
    assert_eq!(buffer.len(), 1);
    assert_eq!(buffer.insert("e".to_string(), place(0, 0), "x".to_string()), None);
}

#[test]
fn a_document_that_fits_goes_whole() {
    for size in [0usize, 5, 6, 100] {
        let messages = split_document("d.json", "{\"a\"}", size);
        assert_eq!(messages.len(), 1);
        assert_eq!(messages[0].file_name, "d.json");
        assert_eq!(messages[0].data, "{\"a\"}");
        assert_eq!(messages[0].place, None);
    }
    let empty = split_document("d.json", "", 4);
    assert_eq!(empty.len(), 1);
    assert_eq!(empty[0].data, "");
}

#[test]
fn a_long_document_is_cut_every_so_many_characters() {
    let messages = split_document("d.json", "abcdefghij", 4);
    let seen: Vec<(&str, Option<ChunkPlace>)> =
        messages.iter().map(|m| (m.data.as_str(), m.place)).collect();
    assert_eq!(
        seen,
        vec![("abcd", Some(place(0, 3))), ("efgh", Some(place(1, 3))), ("ij", Some(place(2, 3)))]
    );
    let even = split_document("d.json", "abcdefgh", 4);
    assert_eq!(even.len(), 2);
    assert_eq!(even[1].data, "efgh");
    assert_eq!(even[1].place, Some(place(1, 2)));
    let by_one = split_document("d", "xyz", 1);
    assert_eq!(by_one.len(), 3);
    assert_eq!(by_one[2].data, "z");
}

#[test]
fn characters_are_never_cut_in_two() {
    let messages = split_document("d", "a\u{e9}\u{4e16}\u{1f600}b", 2);
    let seen: Vec<&str> = messages.iter().map(|m| m.data.as_str()).collect();
    assert_eq!(seen, vec!["a\u{e9}", "\u{4e16}\u{1f600}", "b"]);
}

#[test]
fn cut_documents_are_put_together_in_any_order() {
    let text = r#"{"clients":{"c1":["img1","img2"],"c2":[]},"note":"x"}"#;
    let messages = split_document("directory.json", text, 7);
    assert_eq!(messages.len(), (text.len() + 6) / 7);
    let orders: Vec<Vec<usize>> = vec![
        (0..messages.len()).collect(),
        (0..messages.len()).rev().collect(),
        (0..messages.len()).map(|i| (i * 3) % messages.len()).collect(),
    ];
    for order in orders {
        let mut buffer = SyncChunkBuffer::new();
        let mut whole = None;
        for &i in &order {
            let line = encode_replication_message(&messages[i]).unwrap();
            let message = decode_replication_message(&line).unwrap();
            let out = buffer.insert(message.file_name, message.place.unwrap(), message.data);
            if out.is_some() {
                assert!(whole.is_none());
                whole = out;
            }
        }
        assert_eq!(whole.as_deref(), Some(text));
        assert_eq!(buffer.len(), 0);
    }
}

#[test]
fn a_message_from_a_value_built_by_hand() {
    let member = |key: &str, value: Json| Member { key: key.to_string(), value };
    let value = Json::Object(vec![
        member("total_chunks", Json::Number("4".to_string())),
        member("data", Json::Text("piece".to_string())),
        member("chunk_index", Json::Number("3".to_string())),
        member("file_name", Json::Text("clients.json".to_string())),
        member("extra", Json::Null),
    ]);
    let message = read_message(&value).unwrap();
    assert_eq!(message.file_name, "clients.json");
    assert_eq!(message.data, "piece");
    assert_eq!(message.place, Some(place(3, 4)));
    assert_eq!(read_message(&Json::Null).err(), Some(SyncError::MissingFileName));
    let big = Json::Object(vec![
        member("file_name", Json::Text("f".to_string())),
        member("data", Json::Text("d".to_string())),
        member("chunk_index", Json::Number("18446744073709551616".to_string())),
        member("total_chunks", Json::Number("1".to_string())),
    ]);
    assert_eq!(read_message(&big).err(), Some(SyncError::InvalidChunk));
}
