use stream_store::{
    MemoryStreamStore, Message, MessagePosition, ReadDirection, StreamVersion, WriteResult,
};

fn message(message_type: &str, data: &str) -> Message {
    Message {
        message_type: message_type.to_owned(),
        data: data.as_bytes().to_vec(),
    }
}

#[test]
fn it_can_write_and_read() {
    let data = r#"{"test": "data"}"#.as_bytes().to_vec();
    let msg = Message {
        message_type: "TestMessage".to_owned(),
        data: data.clone(),
    };
    let mut store = MemoryStreamStore::new();

    let append_result = store.write_to_stream("test stream", StreamVersion::NoStream, &[msg]);
    assert_eq!(
        append_result,
        WriteResult::Written(MessagePosition { position: 0, revision: 0 })
    );

    let (version, messages) = store.read_stream("test stream", None);
    assert_eq!(version, StreamVersion::Revision(0));
    assert_eq!(messages.len(), 1);
    assert_eq!(messages[0].data, data);
    assert_eq!(messages[0].message_type, "TestMessage");
}

#[test]
fn it_can_write_multiple_events() {
    let mut store = MemoryStreamStore::new();
    let msg = message("TestMessage", r#"{"test": "data"}"#);
    let _ = store.write_to_stream("test stream", StreamVersion::NoStream, &[msg]);
    let msg = message("AnotherMessage", r#"{"test2": "data2"}"#);
    let _ = store.write_to_stream("test stream", StreamVersion::Revision(0), &[msg]);

    let (version, messages) = store.read_stream("test stream", None);

    assert_eq!(version, StreamVersion::Revision(1));
    assert_eq!(messages.len(), 2);
    assert_eq!(messages[0].message_type, "TestMessage");
    assert_eq!(messages[1].message_type, "AnotherMessage");
}

#[test]
fn it_does_not_append_when_wrong_version() {
    let msg = message("TestMessage", r#"{"test": "data"}"#);
    let mut store = MemoryStreamStore::new();
    store.write_to_stream("test stream", StreamVersion::NoStream, &[msg.clone()]);

    let append_result = store.write_to_stream("test stream", StreamVersion::NoStream, &[msg]);
    assert_eq!(append_result, WriteResult::WrongExpectedVersion);

    let (version, messages) = store.read_stream("test stream", None);
    assert_eq!(messages.len(), 1);
    assert_eq!(version, StreamVersion::Revision(0));
}

#[test]
fn mod_it_reads_events_forwards() {
    let mut store = MemoryStreamStore::new();
    let msg = message("TestMessage", r#"{"test": "data"}"#);
    let _ = store.write_to_stream("TestStream-1", StreamVersion::NoStream, &[msg]);
    let msg = message("AnotherMessage", r#"{"test2": "data2"}"#);
    let _ = store.write_to_stream("TestStream-1", StreamVersion::Revision(0), &[msg]);

    let (version, messages) = store.read_from_stream("TestStream-1", ReadDirection::Forwards);

    assert_eq!(version, StreamVersion::Revision(1));
    assert_eq!(messages.len(), 2);
    assert_eq!(messages[0].message_type, "TestMessage");
    assert_eq!(messages[1].message_type, "AnotherMessage");
}

#[test]
fn mod_it_reads_a_category() {
    let mut store = MemoryStreamStore::new();
    let msg = message("TestMessage", r#"{"test": "data"}"#);
    store.write_to_stream("TestStream-1", StreamVersion::NoStream, &[msg]);
    let msg = message("AnotherMessage", r#"{"test2": "data2"}"#);
    store.write_to_stream("TestStream-1", StreamVersion::Revision(0), &[msg]);
    let msg = message("A third message", r#"{"test3": "data3"}"#);
    store.write_to_stream("TestStream-2", StreamVersion::NoStream, &[msg]);
    let msg = message("A fourth message", r#"{"test3": "data3"}"#);
    store.write_to_stream("DifferentCategory", StreamVersion::NoStream, &[msg]);

    let messages = store.read_from_category("TestStream", 0, None);
    assert_eq!(messages.len(), 3);
    assert_eq!(messages[0].message_type, "TestMessage");
    assert_eq!(messages[1].message_type, "AnotherMessage");
    assert_eq!(messages[2].message_type, "A third message");
}

#[test]
fn mod_it_reads_a_category_max_messages() {
    let mut store = MemoryStreamStore::new();
    let msg = message("TestMessage", r#"{"test": "data"}"#);
    store.write_to_stream("TestStream-1", StreamVersion::NoStream, &[msg]);
    let msg = message("A second message", r#"{"test3": "data3"}"#);
    store.write_to_stream("TestStream-2", StreamVersion::NoStream, &[msg]);
    let msg = message("A third message", r#"{"test3": "data3"}"#);
    store.write_to_stream("TestStream-1", StreamVersion::Revision(0), &[msg]);

    let messages = store.read_from_category("TestStream", 0, Some(2));
    assert_eq!(messages.len(), 2);
    assert_eq!(messages[0].message_type, "TestMessage");
    assert_eq!(messages[1].message_type, "A second message");
}

#[test]
fn mod_it_reads_a_category_from_offset() {
    let mut store = MemoryStreamStore::new();
    let msg = message("TestMessage", r#"{"test": "data"}"#);
    store.write_to_stream("TestStream-1", StreamVersion::NoStream, &[msg]);
    let msg = message("A second message", r#"{"test3": "data3"}"#);
    let global_position =
        match store.write_to_stream("TestStream-2", StreamVersion::NoStream, &[msg]) {
            WriteResult::Written(position) => position.position,
            _ => unreachable!(),
        };
    let msg = message("A third message", r#"{"test3": "data3"}"#);
    store.write_to_stream("TestStream-1", StreamVersion::Revision(0), &[msg]);

    let messages = store.read_from_category("TestStream", global_position, Some(2));
    assert_eq!(messages.len(), 2);
    assert_eq!(messages[0].message_type, "A second message");
    assert_eq!(messages[1].message_type, "A third message");
}

#[test]
fn mod_it_reads_events_backwards() {
    let mut store = MemoryStreamStore::new();
    let msg = message("TestMessage", r#"{"test": "data"}"#);
    let _ = store.write_to_stream("TestStream-1", StreamVersion::NoStream, &[msg]);
    let msg = message("AnotherMessage", r#"{"test2": "data2"}"#);
    let _ = store.write_to_stream("TestStream-1", StreamVersion::Revision(0), &[msg]);

    let (version, messages) = store.read_from_stream("TestStream-1", ReadDirection::Backwards);

    assert_eq!(version, StreamVersion::Revision(1));
    assert_eq!(messages.len(), 2);
    assert_eq!(messages[0].message_type, "AnotherMessage");
    assert_eq!(messages[1].message_type, "TestMessage");
}

#[test]
fn it_handles_wrong_version() {
    let msg = message("TestMessage", r#"{"test": "data"}"#);
    let mut store = MemoryStreamStore::new();
    store.write_to_stream("TestStream-1", StreamVersion::NoStream, &[msg.clone()]);

    let append_result = store.write_to_stream("TestStream-1", StreamVersion::NoStream, &[msg]);
    assert_eq!(append_result, WriteResult::WrongExpectedVersion);

    let (version, messages) = store.read_from_stream("TestStream-1", ReadDirection::Forwards);
    assert_eq!(messages.len(), 1);
    assert_eq!(version, StreamVersion::Revision(0));
}

#[test]
fn store_it_reads_events_forwards() {
    let mut store = MemoryStreamStore::new();
    let msg_1 = message("TestMessage", r#"{"test": "data"}"#);
    let msg_2 = message("AnotherMessage", r#"{"test2": "data2"}"#);

    let _ = store.write_to_stream("TestStream-1", StreamVersion::NoStream, &[msg_1, msg_2]);

    let (version, messages) = store.read_from_stream("TestStream-1", ReadDirection::Forwards);

    assert_eq!(version, StreamVersion::Revision(1));
    assert_eq!(messages.len(), 2);
    assert_eq!(messages[0].message_type, "TestMessage");
    assert_eq!(messages[1].message_type, "AnotherMessage");
}

#[test]
fn store_it_reads_a_category() {
    let mut store = MemoryStreamStore::new();
    let msg_1 = message("TestMessage", r#"{"test": "data"}"#);
    let msg_2 = message("AnotherMessage", r#"{"test2": "data2"}"#);
    store.write_to_stream("TestStream-1", StreamVersion::NoStream, &[msg_1, msg_2]);

    let msg = message("A third message", r#"{"test3": "data3"}"#);
    store.write_to_stream("TestStream-2", StreamVersion::NoStream, &[msg]);
    let msg = message("A fourth message", r#"{"test3": "data3"}"#);
    store.write_to_stream("DifferentCategory", StreamVersion::NoStream, &[msg]);

    let messages = store.read_from_category("TestStream", 0, None);
    assert_eq!(messages.len(), 3);
    assert_eq!(messages[0].message_type, "TestMessage");
    assert_eq!(messages[1].message_type, "AnotherMessage");
    assert_eq!(messages[2].message_type, "A third message");
}

#[test]
fn store_it_reads_a_category_max_messages() {
    let mut store = MemoryStreamStore::new();
    let msg = message("TestMessage", r#"{"test": "data"}"#);
    store.write_to_stream("TestStream-1", StreamVersion::NoStream, &[msg]);
    let msg = message("A second message", r#"{"test3": "data3"}"#);
    store.write_to_stream("TestStream-2", StreamVersion::NoStream, &[msg]);
    let msg = message("A third message", r#"{"test3": "data3"}"#);
    store.write_to_stream("TestStream-1", StreamVersion::Revision(0), &[msg]);

    let messages = store.read_from_category("TestStream", 0, Some(2));
    assert_eq!(messages.len(), 2);
    assert_eq!(messages[0].message_type, "TestMessage");
    assert_eq!(messages[1].message_type, "A second message");
}

#[test]
fn store_it_reads_a_category_from_offset() {
    let mut store = MemoryStreamStore::new();
    let msg = message("TestMessage", r#"{"test": "data"}"#);
    store.write_to_stream("TestStream-1", StreamVersion::NoStream, &[msg]);
    let msg = message("A second message", r#"{"test3": "data3"}"#);
    let global_position =
        match store.write_to_stream("TestStream-2", StreamVersion::NoStream, &[msg]) {
            WriteResult::Written(position) => position.position,
            _ => unreachable!(),
        };
    let msg = message("A third message", r#"{"test3": "data3"}"#);
    store.write_to_stream("TestStream-1", StreamVersion::Revision(0), &[msg]);

    let messages = store.read_from_category("TestStream", global_position, Some(2));
    assert_eq!(messages.len(), 2);
    assert_eq!(messages[0].message_type, "A second message");
    assert_eq!(messages[1].message_type, "A third message");
}

#[test]
fn store_it_reads_events_backwards() {
    let mut store = MemoryStreamStore::new();
    let msg_1 = message("TestMessage", r#"{"test": "data"}"#);
    let msg_2 = message("AnotherMessage", r#"{"test2": "data2"}"#);
    let _ = store.write_to_stream("TestStream-1", StreamVersion::NoStream, &[msg_1, msg_2]);

    let (version, messages) = store.read_from_stream("TestStream-1", ReadDirection::Backwards);

    assert_eq!(version, StreamVersion::Revision(1));
    assert_eq!(messages.len(), 2);
    assert_eq!(messages[0].message_type, "AnotherMessage");
    assert_eq!(messages[1].message_type, "TestMessage");
}

#[test]
fn it_handles_conflict() {
    let msg = message("TestMessage", r#"{"test": "data"}"#);
    let mut store = MemoryStreamStore::new();
    store.write_to_stream("TestStream-1", StreamVersion::NoStream, &[msg.clone()]);

    let append_result = store.write_to_stream("TestStream-1", StreamVersion::NoStream, &[msg]);
    assert_eq!(append_result, WriteResult::WrongExpectedVersion);

    let (version, messages) = store.read_from_stream("TestStream-1", ReadDirection::Forwards);
    assert_eq!(messages.len(), 1);
    assert_eq!(version, StreamVersion::Revision(0));
}
