use std::cmp::Ordering;

use dozer::bigendian::{complement_bytes, decode_be, encode_be};
use dozer::bytes::{bytes_eq, lex_less};
use dozer::field::{DozerPoint, Field};
use dozer::index::{get_composite_secondary_index, get_secondary_index};
use dozer::indexer::Indexer;
use dozer::point::compare_points;
use dozer::types::Record;

#[test]
fn big_endian_round_trip() {
    assert_eq!(encode_be(0x0102, 2), vec![1, 2]);
    assert_eq!(encode_be(0x0102, 4), vec![0, 0, 1, 2]);
    assert_eq!(encode_be(u64::MAX as u128, 8), vec![255; 8]);
    assert_eq!(decode_be(&[1, 2]), 0x0102);
    assert_eq!(decode_be(&[]), 0);
    assert_eq!(decode_be(&encode_be(u128::MAX, 16)), u128::MAX);
}

#[test]
fn lexicographic_order() {
    assert!(lex_less(b"a", b"ab"));
    assert!(lex_less(b"ab", b"b"));
    assert!(!lex_less(b"b", b"ab"));
    assert!(!lex_less(b"ab", b"ab"));
    assert!(lex_less(b"", b"a"));
    assert!(!lex_less(b"", b""));
    assert!(bytes_eq(b"ab", b"ab"));
    assert!(!bytes_eq(b"ab", b"abc"));
}

#[test]
fn encoding_of_each_variant() {
    assert_eq!(Field::UInt(1).encode(), vec![0, 0, 0, 0, 0, 0, 0, 0, 1]);
    assert_eq!(Field::Int(0).encode(), vec![1, 0x80, 0, 0, 0, 0, 0, 0, 0]);
    assert_eq!(Field::Int(-1).encode(), vec![1, 0x7f, 255, 255, 255, 255, 255, 255, 255]);
    assert_eq!(Field::Float(2).encode(), vec![2, 0, 0, 0, 0, 0, 0, 0, 2]);
    assert_eq!(Field::Boolean(true).encode(), vec![3, 1]);
    assert_eq!(Field::Boolean(false).encode(), vec![3, 0]);
    assert_eq!(Field::String("a".to_string()).encode(), vec![4, b'a']);
    assert_eq!(Field::Text("ab".to_string()).encode(), vec![5, b'a', b'b']);
    assert_eq!(Field::Binary(vec![9, 8]).encode(), vec![6, 9, 8]);
    let mut decimal = vec![7, 0x80];
    decimal.extend(vec![0; 14]);
    decimal.push(5);
    assert_eq!(Field::Decimal(5).encode(), decimal);
    assert_eq!(Field::Timestamp(1).encode(), vec![8, 0x80, 0, 0, 0, 0, 0, 0, 1]);
    assert_eq!(Field::Date(-1).encode(), vec![9, 0x7f, 255, 255, 255]);
    assert_eq!(Field::Bson(vec![1]).encode(), vec![10, 1]);
    let mut point = vec![11];
    point.extend(vec![0, 0, 0, 0, 0, 0, 0, 1, 0, 0, 0, 0, 0, 0, 0, 2]);
    assert_eq!(Field::Point(DozerPoint { x: 1, y: 2 }).encode(), point);
    assert_eq!(Field::Null.encode(), vec![12]);
    assert_eq!(Field::Text("héllo".to_string()).encoding_len(), 7);
}

#[test]
fn encoding_keeps_the_order() {
    let numbers = [i64::MIN, -300, -1, 0, 1, 255, 256, i64::MAX];
    for a in numbers {
        for b in numbers {
            let ea = Field::Int(a).encode();
            let eb = Field::Int(b).encode();
            assert_eq!(lex_less(&ea, &eb), a < b);
            let da = Field::Int(a).encode_desc();
            let db = Field::Int(b).encode_desc();
            assert_eq!(lex_less(&da, &db), b < a);
        }
    }
    let dates = [i32::MIN, -1, 0, 7, i32::MAX];
    for a in dates {
        for b in dates {
            assert_eq!(lex_less(&Field::Date(a).encode(), &Field::Date(b).encode()), a < b);
        }
    }
    assert!(lex_less(&Field::Decimal(-5).encode(), &Field::Decimal(3).encode()));
    assert!(lex_less(&Field::Boolean(false).encode(), &Field::Boolean(true).encode()));
}

#[test]
fn descending_encoding_inverts_the_data() {
    assert_eq!(Field::UInt(1).encode_desc(), vec![0, 255, 255, 255, 255, 255, 255, 255, 254]);
    assert_eq!(complement_bytes(&[0, 255, 16]), vec![255, 0, 239]);
}

#[test]
fn point_bytes_round_trip() {
    let p = DozerPoint { x: 7, y: u64::MAX };
    let bytes = p.to_bytes();
    assert_eq!(bytes.len(), 16);
    assert_eq!(DozerPoint::from_bytes(&bytes), Some(p));
    assert_eq!(DozerPoint::from_bytes(&bytes[..15]), None);
}

#[test]
fn fields_are_held_against_each_other() {
    assert!(Field::String("a".to_string()).same(&Field::String("a".to_string())));
    assert!(!Field::String("a".to_string()).same(&Field::Text("a".to_string())));
    assert!(!Field::Int(1).same(&Field::UInt(1)));
    assert!(Field::Null.same(&Field::Null));
    assert_eq!(Field::Int(4).to_int(), Some(4));
    assert_eq!(Field::UInt(4).to_uint(), Some(4));
    assert_eq!(Field::Float(4).to_float(), Some(4));
    assert_eq!(Field::Float(4).to_uint(), None);
    assert_eq!(Field::Decimal(4).to_decimal(), Some(4));
    assert_eq!(Field::Timestamp(4).to_timestamp(), Some(4));
    assert_eq!(Field::UInt(4).to_int(), None);
    assert_eq!(Field::Date(4).to_date(), Some(4));
    assert_eq!(Field::Binary(vec![1, 2]).clone(), Field::Binary(vec![1, 2]));
}

#[test]
fn points_are_ordered_by_their_coordinates() {
    let p = |x, y| DozerPoint { x, y };
    assert_eq!(compare_points(&p(1, 2), &p(1, 2)), Ordering::Equal);
    assert_eq!(compare_points(&p(1, 2), &p(1, 3)), Ordering::Less);
    assert_eq!(compare_points(&p(2, 0), &p(1, 3)), Ordering::Greater);
    assert!(lex_less(&p(1, 9).to_bytes(), &p(2, 0).to_bytes()));
}

#[test]
fn record_key_is_the_encodings_in_turn() {
    let record = Record::new(
        None,
        vec![Field::Int(1), Field::String("x".to_string()), Field::Null],
        None,
    );
    let mut expected = Field::String("x".to_string()).encode();
    expected.extend(Field::Int(1).encode());
    assert_eq!(record.get_key(&vec![1, 0]), expected);
    assert_eq!(record.get_key(&vec![2]), vec![12]);
}

#[test]
fn secondary_index_keys() {
    let a = Field::Int(1);
    let b = Field::String("ab".to_string());
    assert_eq!(get_secondary_index(&[&a], true), a.encode());
    let mut composite = vec![0, 0, 0, 0, 0, 0, 0, 17];
    composite.extend(a.encode());
    composite.extend(vec![0, 0, 0, 0, 0, 0, 0, 11]);
    composite.extend(b.encode());
    assert_eq!(get_composite_secondary_index(&[&a, &b]), composite);
    assert_eq!(get_secondary_index(&[&a, &b], false), composite);
    // A position that the record lacks is passed over.
    assert_eq!(Indexer::_build_index_sorted_inverted(&[0, 7], &[Field::Int(1)]), a.encode());
    assert_eq!(Indexer::_build_index_sorted_inverted(&[7], &[Field::Int(1)]), Vec::<u8>::new());
}
