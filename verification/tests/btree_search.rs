use lib::btree::{interior_binsearch, InteriorTablePayload};

#[test]
fn test_interior_tbl_binsearch() {
    let payloads = vec![
        InteriorTablePayload { leftptr: 100, rightptr: 101, key: 25 },
        InteriorTablePayload { leftptr: 101, rightptr: 102, key: 100 },
        InteriorTablePayload { leftptr: 102, rightptr: 103, key: 200 },
        InteriorTablePayload { leftptr: 103, rightptr: 104, key: 300 },
        InteriorTablePayload { leftptr: 104, rightptr: 105, key: 400 },
        InteriorTablePayload { leftptr: 105, rightptr: 106, key: 510 },
        InteriorTablePayload { leftptr: 106, rightptr: 107, key: 620 },
        InteriorTablePayload { leftptr: 107, rightptr: 108, key: 730 },
        InteriorTablePayload { leftptr: 108, rightptr: 109, key: 840 },
        InteriorTablePayload { leftptr: 109, rightptr: 110, key: 950 },
    ];

    let arr_id_and_res = vec![
        (0, 100),
        (25, 100),
        (26, 101),
        (50, 101),
        (100, 101),
        (101, 102),
        (200, 102),
        (300, 103),
        (400, 104),
        (510, 105),
        (620, 106),
        (730, 107),
        (840, 108),
        (950, 109),
        (951, 110),
    ];
    for (id, expected_res) in arr_id_and_res {
        let res = interior_binsearch(&payloads, id);

        assert_eq!(res, expected_res);
    }
}

use lib::btree::{
    bytes_less, interior_idx_binsearch_by_val, leaf_binsearch, leaf_idx_binsearch_by_val, lower_bound,
    IndexKey, InteriorIndexPayload, LeafPayload,
};
use lib::record_type::RecordDataType;

fn leaf(rowid: u64, vals: Vec<RecordDataType>) -> LeafPayload {
    LeafPayload { rowid: Some(rowid), row: vals }
}

#[test]
fn interior_binsearch_without_entries() {
    assert_eq!(interior_binsearch(&vec![], 7), 0);
    let one = vec![InteriorTablePayload { leftptr: 4, rightptr: 9, key: 10 }];
    assert_eq!(interior_binsearch(&one, 10), 4);
    assert_eq!(interior_binsearch(&one, 11), 9);
}

#[test]
fn key_order() {
    assert!(bytes_less(b"abc", b"abd"));
    assert!(bytes_less(b"ab", b"abc"));
    assert!(!bytes_less(b"abc", b"abc"));
    assert!(!bytes_less(b"b", b"abc"));
    assert!(IndexKey::Int(3).less(&IndexKey::Int(4)));
    assert!(!IndexKey::Int(3).less(&IndexKey::Text(vec![])));
    assert!(!IndexKey::Int(3).equal(&IndexKey::Text(vec![])));
    assert!(IndexKey::Float((-1.0f64).to_bits()).less(&IndexKey::Float(0.5f64.to_bits())));
    assert!(IndexKey::Float(0.0f64.to_bits()).equal(&IndexKey::Float((-0.0f64).to_bits())));
    assert!(!IndexKey::Float(f64::NAN.to_bits()).equal(&IndexKey::Float(f64::NAN.to_bits())));
}

#[test]
fn leaf_and_lower_bound_searches() {
    let keys: Vec<IndexKey> = [2u64, 4, 6, 8, 10].iter().map(|k| IndexKey::Int(*k)).collect();
    assert_eq!(leaf_binsearch(&keys, &IndexKey::Int(8)), Some(3));
    assert_eq!(leaf_binsearch(&keys, &IndexKey::Int(2)), Some(0));
    assert_eq!(leaf_binsearch(&keys, &IndexKey::Int(5)), None);
    assert_eq!(leaf_binsearch(&vec![], &IndexKey::Int(5)), None);
    assert_eq!(lower_bound(&keys, &IndexKey::Int(5)), 2);
    assert_eq!(lower_bound(&keys, &IndexKey::Int(6)), 2);
    assert_eq!(lower_bound(&keys, &IndexKey::Int(11)), 5);
    assert_eq!(lower_bound(&keys, &IndexKey::Int(0)), 0);
}

#[test]
fn leaf_index_search_by_value() {
    let rows = || {
        vec![
            leaf(1, vec![RecordDataType::STR("ant".to_string()), RecordDataType::INT8(7)]),
            leaf(2, vec![RecordDataType::STR("bee".to_string()), RecordDataType::INT8(3)]),
            leaf(3, vec![RecordDataType::STR("cat".to_string()), RecordDataType::INT8(5)]),
        ]
    };
    let found = leaf_idx_binsearch_by_val(rows(), RecordDataType::STR("cat".to_string())).unwrap();
    assert_eq!(found.rowid, Some(3));
    assert!(leaf_idx_binsearch_by_val(rows(), RecordDataType::STR("cow".to_string())).is_none());
    // a blob is not searched for
    assert!(leaf_idx_binsearch_by_val(rows(), RecordDataType::BLOB(vec![1])).is_none());
    let ints = vec![
        leaf(1, vec![RecordDataType::INT8(1)]),
        leaf(2, vec![RecordDataType::INT16(300)]),
        leaf(3, vec![RecordDataType::INT32(70000)]),
    ];
    assert_eq!(leaf_idx_binsearch_by_val(ints, RecordDataType::INT64(300)).unwrap().rowid, Some(2));
    let reals = vec![
        leaf(1, vec![RecordDataType::FLOAT((-2.0f64).to_bits())]),
        leaf(2, vec![RecordDataType::FLOAT(0.5f64.to_bits())]),
    ];
    assert_eq!(leaf_idx_binsearch_by_val(reals, RecordDataType::FLOAT(0.5f64.to_bits())).unwrap().rowid, Some(2));
}

#[test]
fn interior_index_search_by_value() {
    let entry = |l: u32, r: u32, k: &str| InteriorIndexPayload {
        leftptr: l,
        rightptr: r,
        data: Some(vec![RecordDataType::STR(k.to_string()), RecordDataType::INT8(1)]),
    };
    let entries = || vec![entry(10, 11, "f"), entry(11, 12, "m"), entry(12, 13, "t")];
    assert_eq!(interior_idx_binsearch_by_val(entries(), RecordDataType::STR("a".to_string())), 10);
    assert_eq!(interior_idx_binsearch_by_val(entries(), RecordDataType::STR("m".to_string())), 11);
    assert_eq!(interior_idx_binsearch_by_val(entries(), RecordDataType::STR("n".to_string())), 12);
    assert_eq!(interior_idx_binsearch_by_val(entries(), RecordDataType::STR("z".to_string())), 13);
    assert_eq!(interior_idx_binsearch_by_val(entries(), RecordDataType::NULL), 0);
    assert_eq!(interior_idx_binsearch_by_val(vec![], RecordDataType::INT8(1)), 0);
}
