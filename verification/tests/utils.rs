use symscan::span::{get_disjoint_spans, Span};
use symscan::{CrossIndex, Error, MaxDistance};

#[test]
fn thresholds_up_to_254_are_legal() {
    for k in [0u8, 1, 2, 100, 254] {
        let d = MaxDistance::try_from(k).expect("legal");
        assert_eq!(d.as_u8(), k);
        assert_eq!(d.as_usize(), k as usize);
    }
}

#[test]
fn threshold_255_is_capped() {
    assert_eq!(MaxDistance::try_from(255), Err(Error::MaxDistCapped));
}

#[test]
fn thresholds_compare_by_their_number() {
    let one = MaxDistance::try_from(1).expect("legal");
    let two = MaxDistance::try_from(2).expect("legal");
    assert!(one < two);
    assert!(one == MaxDistance::try_from(1).expect("legal"));
}

#[test]
fn cross_index_keeps_value_and_side() {
    for value in [0u32, 1, 12345, (1 << 31) - 1] {
        let q = CrossIndex::from(value, false);
        assert!(!q.is_ref());
        assert_eq!(q.get_value(), value);
        assert_eq!(q.to_word(), value);

        let r = CrossIndex::from(value, true);
        assert!(r.is_ref());
        assert_eq!(r.get_value(), value);
        assert_eq!(r.to_word(), value | (1 << 31));
        assert_eq!(CrossIndex::from_word(r.to_word()), r);
    }
}

#[test]
fn cross_index_limit_is_31_bits() {
    assert_eq!(CrossIndex::MAX, (1usize << 31) - 1);
}

#[test]
fn query_side_orders_before_reference_side() {
    assert!(CrossIndex::from(9, false) < CrossIndex::from(0, true));
    assert!(CrossIndex::from(1, true) < CrossIndex::from(2, true));
}

#[test]
fn spans_lie_end_to_end() {
    let spans = get_disjoint_spans(&vec![3, 0, 2, 5]);
    assert_eq!(
        spans,
        vec![Span::new(0, 3), Span::new(3, 0), Span::new(3, 2), Span::new(5, 5)]
    );
    assert_eq!(spans[3].len(), 5);
    assert_eq!(get_disjoint_spans(&Vec::new()), Vec::new());
}
