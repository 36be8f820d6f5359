use pipedb::storage::catalog::Catalog;
use pipedb::storage::tuple::{FieldType, FieldValue, Tuple, TupleMetadata};

#[test]
fn tuple_serializes_and_deserializes() {
    let metadata = TupleMetadata {
        columns: vec!["column1".to_string(), "column2".to_string()],
        types: vec![FieldType::Integer, FieldType::Text(20)],
    };
    let data = vec![
        FieldValue::Integer(3),
        FieldValue::Text("test_text".to_string()),
    ];
    let tuple = Tuple {
        metadata: metadata.clone(),
        data,
    };

    let bytes = tuple.to_bytes();
    let parsed_tuple = Tuple::from_bytes(metadata, &bytes);

    assert_eq!(parsed_tuple.data, tuple.data);
}

fn metadata(types: Vec<FieldType>) -> TupleMetadata {
    TupleMetadata {
        columns: (0..types.len()).map(|i| format!("c{}", i)).collect(),
        types,
    }
}

#[test]
fn field_sizes_add_up() {
    assert_eq!(FieldType::Integer.size(), 4);
    assert_eq!(FieldType::Text(0).size(), 0);
    assert_eq!(FieldType::Text(17).size(), 17);
    assert_eq!(metadata(vec![]).size(), 0);
    assert_eq!(
        metadata(vec![
            FieldType::Integer,
            FieldType::Text(20),
            FieldType::Integer,
            FieldType::Text(3)
        ])
        .size(),
        31
    );
}

#[test]
fn a_tuple_is_encoded_field_by_field() {
    let tuple = Tuple {
        metadata: metadata(vec![
            FieldType::Integer,
            FieldType::Text(5),
            FieldType::Integer,
        ]),
        data: vec![
            FieldValue::Integer(0x0102_0304),
            FieldValue::Text("hé".to_string()),
            FieldValue::Integer(-2),
        ],
    };
    assert_eq!(
        tuple.to_bytes(),
        vec![4, 3, 2, 1, b'h', 0xC3, 0xA9, 0, 0, 0xFE, 0xFF, 0xFF, 0xFF]
    );
}

#[test]
fn a_tuple_is_decoded_field_by_field() {
    let tuple = Tuple::from_bytes(
        metadata(vec![
            FieldType::Text(4),
            FieldType::Integer,
            FieldType::Text(2),
            FieldType::Text(3),
        ]),
        &[b'a', b'b', 0, b'c', 0xFF, 0xFF, 0xFF, 0x7F, b'x', b'y', 0, 0, 0],
    );
    assert_eq!(
        tuple.data,
        vec![
            // a text ends at the first zero byte
            FieldValue::Text("ab".to_string()),
            FieldValue::Integer(i32::MAX),
            // or at the end of its field
            FieldValue::Text("xy".to_string()),
            FieldValue::Text("".to_string()),
        ]
    );
}

#[test]
fn negative_integers_round_trip() {
    let tuple = Tuple {
        metadata: metadata(vec![FieldType::Integer, FieldType::Integer]),
        data: vec![FieldValue::Integer(i32::MIN), FieldValue::Integer(-1)],
    };
    let bytes = tuple.to_bytes();
    assert_eq!(bytes, vec![0, 0, 0, 0x80, 0xFF, 0xFF, 0xFF, 0xFF]);
    assert_eq!(
        Tuple::from_bytes(metadata(vec![FieldType::Integer, FieldType::Integer]), &bytes).data,
        tuple.data
    );
}

#[test]
fn a_tuple_may_have_fewer_values_than_columns() {
    let tuple = Tuple {
        metadata: metadata(vec![FieldType::Integer, FieldType::Text(8)]),
        data: vec![FieldValue::Integer(1)],
    };
    assert_eq!(tuple.to_bytes(), vec![1, 0, 0, 0]);
    let empty = Tuple {
        metadata: metadata(vec![FieldType::Integer]),
        data: vec![],
    };
    assert!(empty.to_bytes().is_empty());
}

#[test]
fn the_catalog_numbers_tables_in_sequence() {
    let mut catalog = Catalog::new();
    assert!(catalog.get_tuple_metadata(0).is_none());
    let users = catalog.add_table(
        "users".to_string(),
        metadata(vec![FieldType::Integer, FieldType::Text(20)]),
    );
    let orders = catalog.add_table("orders".to_string(), metadata(vec![FieldType::Integer]));
    let again = catalog.add_table("users".to_string(), metadata(vec![]));
    assert_eq!((users, orders, again), (0, 1, 2));
    assert_eq!(catalog.get_tuple_metadata(0).unwrap().size(), 24);
    assert_eq!(catalog.get_tuple_metadata(1).unwrap().size(), 4);
    assert_eq!(catalog.get_tuple_metadata(1).unwrap().columns, vec!["c0"]);
    assert_eq!(catalog.get_tuple_metadata(2).unwrap().size(), 0);
    assert!(catalog.get_tuple_metadata(3).is_none());
}
