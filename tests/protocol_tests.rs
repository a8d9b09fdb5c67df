use tinydb::protocol::{FieldDescription, RowDescriptor, AuthenticationOk, CommandComplete, FrontendMessage, Query, ReadyForQuery, StartupMessage};
use tinydb::Error;

#[test]
fn authentication_ok_bytes() {
    assert_eq!(AuthenticationOk::encode(), vec![b'R', 0, 0, 0, 8, 0, 0, 0, 0]);
}

#[test]
fn command_complete_bytes() {
    let mut want = vec![b'C', 0, 0, 0, 13];
    want.extend_from_slice(b"SELECT 0\0");
    assert_eq!(CommandComplete::encode(), want);
}

#[test]
fn ready_for_query_bytes() {
    let mut want = vec![b'K', 0, 0, 0, 12, 0, 0, 0, 42, 0, 0, 0x30, 0x39, b'S', 0, 0, 0, 31];
    want.extend_from_slice(b"TimeZone\0America/Sao_Paulo\0");
    want.extend_from_slice(&[b'Z', 0, 0, 0, 5, b'I']);
    assert_eq!(ReadyForQuery::encode(), want);
}

#[test]
fn query_decode_drops_terminator() {
    let mut msg = vec![0, 0, 0, 13];
    msg.extend_from_slice(b"select 1\0");
    assert_eq!(Query::decode(&msg), Ok(FrontendMessage::Query(Query { query: b"select 1".to_vec() })));
    assert_eq!(Query::decode(&vec![0, 0, 0, 20, 1]), Err(Error::CodecError));
}

#[test]
fn startup_message_parameters() {
    let mut msg = vec![0, 3, 0, 0];
    msg.extend_from_slice(b"user\0bob\0database\0db\0\0");
    let want = StartupMessage {
        protocol_version: 196608,
        parameters: vec![(b"user".to_vec(), b"bob".to_vec()), (b"database".to_vec(), b"db".to_vec())],
    };
    assert_eq!(StartupMessage::decode(&msg), Ok(FrontendMessage::StartupMessage(want)));
    assert_eq!(StartupMessage::decode(&vec![0, 3]), Err(Error::CodecError));
    assert_eq!(StartupMessage::decode(&vec![0, 3, 0, 0, b'x']), Err(Error::CodecError));
}

#[test]
fn row_descriptor_bytes() {
    let rd = RowDescriptor {
        fields: vec![FieldDescription {
            name: b"a".to_vec(),
            table_oid: 1,
            table_attribute_number: 2,
            data_type_oid: 23,
            data_type_size: 4,
            type_modifier: -1,
            format: 0,
        }],
    };
    let want = vec![
        b'T', 0, 0, 0, 26, 0, 1, b'a', 0, 0, 0, 0, 1, 0, 2, 0, 0, 0, 23, 0, 4, 0xff, 0xff, 0xff, 0xff, 0, 0,
    ];
    assert_eq!(rd.encode(), Ok(want));
    assert_eq!(RowDescriptor { fields: vec![] }.encode(), Ok(vec![b'T', 0, 0, 0, 6, 0, 0]));
}
