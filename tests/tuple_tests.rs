use tinydb::tuple::{
    get_bit, Datum, HeapTuple, PgAttribute, TupleDesc, BOOL_TYPE_OID, INT4_TYPE_OID, INT8_TYPE_OID,
    TEXT_TYPE_OID,
};
use tinydb::Error;

fn desc(types: &[u32]) -> TupleDesc {
    TupleDesc {
        attrs: types
            .iter()
            .enumerate()
            .map(|(i, t)| PgAttribute {
                attrelid: 1,
                attname: vec![b'a' + i as u8],
                atttypid: *t,
                attlen: 4,
                attnum: i as u16 + 1,
                attnotnull: false,
            })
            .collect(),
    }
}

#[test]
fn encode_decode_round_trip() {
    let d = desc(&[BOOL_TYPE_OID, INT4_TYPE_OID, INT8_TYPE_OID, TEXT_TYPE_OID, INT4_TYPE_OID]);
    let row = vec![
        Some(Datum::Bool(true)),
        Some(Datum::Int32(-5)),
        None,
        Some(Datum::Text("héllo".as_bytes().to_vec())),
        Some(Datum::Int32(i32::MAX)),
    ];
    let t = HeapTuple::from_datums(&d, &row).unwrap();
    let bytes = t.encode().unwrap();
    let back = HeapTuple::decode(&bytes).unwrap();
    assert_eq!(back, t);
    assert_eq!(back.datums(&d).unwrap(), row);
}

#[test]
fn int_encodings_are_little_endian() {
    let d = desc(&[INT4_TYPE_OID, INT8_TYPE_OID]);
    let row = vec![Some(Datum::Int32(0x01020304)), Some(Datum::Int64(-2))];
    let t = HeapTuple::from_datums(&d, &row).unwrap();
    assert_eq!(t.data, vec![4, 3, 2, 1, 0xfe, 0xff, 0xff, 0xff, 0xff, 0xff, 0xff, 0xff]);
    assert_eq!(t.encode().unwrap()[0..3], [1, 0, 3]);
}

#[test]
fn bitmap_bits_follow_presence() {
    let d = desc(&[INT4_TYPE_OID; 10]);
    let mut row: Vec<Option<Datum>> = vec![None; 10];
    row[0] = Some(Datum::Int32(1));
    row[9] = Some(Datum::Int32(2));
    let t = HeapTuple::from_datums(&d, &row).unwrap();
    assert_eq!(t.header.null_bitmap, vec![1, 2]);
    assert!(get_bit(&t.header.null_bitmap, 9));
    assert!(!get_bit(&t.header.null_bitmap, 8));
    assert!(!get_bit(&t.header.null_bitmap, 40));
}

#[test]
fn newer_schema_reads_missing_attributes_as_null() {
    let old = desc(&[INT4_TYPE_OID]);
    let t = HeapTuple::from_datums(&old, &vec![Some(Datum::Int32(3))]).unwrap();
    let newer = desc(&[INT4_TYPE_OID, INT4_TYPE_OID, TEXT_TYPE_OID, INT4_TYPE_OID, INT4_TYPE_OID, INT4_TYPE_OID, INT4_TYPE_OID, INT4_TYPE_OID, INT4_TYPE_OID]);
    let got = t.datums(&newer).unwrap();
    assert_eq!(got.len(), 9);
    assert_eq!(got[0], Some(Datum::Int32(3)));
    assert!(got[1..].iter().all(|v| v.is_none()));
}

#[test]
fn mismatched_row_is_codec_error() {
    let d = desc(&[INT4_TYPE_OID]);
    assert_eq!(HeapTuple::from_datums(&d, &vec![Some(Datum::Bool(true))]), Err(Error::CodecError));
    assert_eq!(HeapTuple::from_datums(&d, &vec![]), Err(Error::CodecError));
    assert_eq!(HeapTuple::decode(&vec![5, 0, 1]), Err(Error::CodecError));
    let t = HeapTuple::from_datums(&d, &vec![Some(Datum::Int32(1))]).unwrap();
    let short = HeapTuple { header: t.header.clone(), data: vec![1, 2] };
    assert_eq!(short.datums(&d), Err(Error::CodecError));
}
