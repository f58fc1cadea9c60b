use rspring::errors::DispatchError;
use rspring::routing::{decode_u64_param, extract_params, split_segments};

#[test]
fn extracts_a_single_string_parameter() {
    match extract_params("/user/{id}", "/user/42") {
        Ok(vals) => assert_eq!(vals, vec!["42".to_string()]),
        Err(_) => panic!("pattern did not match"),
    }
}

#[test]
fn extracts_two_numeric_parameters_in_order() {
    let vals = match extract_params("/order/{order_id}/item/{item_id}", "/order/7/item/9") {
        Ok(vals) => vals,
        Err(_) => panic!("pattern did not match"),
    };
    assert_eq!(vals, vec!["7".to_string(), "9".to_string()]);
    match decode_u64_param("order_id", &vals[0]) {
        Ok(v) => assert_eq!(v, 7),
        Err(_) => panic!("numeric segment failed to decode"),
    }
    match decode_u64_param("item_id", &vals[1]) {
        Ok(v) => assert_eq!(v, 9),
        Err(_) => panic!("numeric segment failed to decode"),
    }
}

#[test]
fn a_non_numeric_segment_fails_decoding_with_its_name() {
    let vals = match extract_params("/order/{order_id}/item/{item_id}", "/order/abc/item/9") {
        Ok(vals) => vals,
        Err(_) => panic!("pattern did not match"),
    };
    assert_eq!(vals[0], "abc");
    match decode_u64_param("order_id", &vals[0]) {
        Err(DispatchError::ParameterDecodeError { name, raw }) => {
            assert_eq!(name, "order_id");
            assert_eq!(raw, "abc");
        }
        _ => panic!("non-numeric segment decoded"),
    }
}

#[test]
fn a_path_that_does_not_match_is_not_found() {
    assert!(matches!(
        extract_params("/user/{id}", "/order/42"),
        Err(DispatchError::NotFound)
    ));
    assert!(matches!(
        extract_params("/user/{id}", "/user/42/extra"),
        Err(DispatchError::NotFound)
    ));
}

#[test]
fn literal_patterns_match_exactly() {
    match extract_params("/hello", "/hello") {
        Ok(vals) => assert!(vals.is_empty()),
        Err(_) => panic!("literal pattern did not match itself"),
    }
}

#[test]
fn decode_handles_bounds_and_leading_zeros() {
    assert!(matches!(decode_u64_param("n", "007"), Ok(7)));
    assert!(matches!(
        decode_u64_param("n", "18446744073709551615"),
        Ok(u64::MAX)
    ));
    assert!(matches!(
        decode_u64_param("n", "18446744073709551616"),
        Err(DispatchError::ParameterDecodeError { .. })
    ));
    assert!(matches!(
        decode_u64_param("n", ""),
        Err(DispatchError::ParameterDecodeError { .. })
    ));
}

#[test]
fn split_keeps_empty_segments() {
    assert_eq!(split_segments("/user/42"), vec!["", "user", "42"]);
    assert_eq!(split_segments("hello"), vec!["hello"]);
    assert_eq!(split_segments("/a//b/"), vec!["", "a", "", "b", ""]);
}
