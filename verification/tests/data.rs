use chaos::data::{classify, decode, Data, DataRequest, DataResponse, ProcessError, RawValue};

#[test]
fn test_process_data() {
    let request = DataRequest {
        data: vec![
            Data::Text("Hello".to_string()),
            Data::Count(1),
            Data::Count(5),
            Data::Text("World".to_string()),
            Data::Text("!".to_string()),
        ],
    };

    let response = request.process();
    assert_eq!(
        DataResponse {
            string_len: 11,
            int_sum: 6
        },
        response
    );
}

#[test]
fn decode_classifies_mixed_values() {
    let raw = vec![
        RawValue::Text("Hello".to_string()),
        RawValue::Int(1),
        RawValue::Int(5),
        RawValue::Text("World".to_string()),
        RawValue::Text("!".to_string()),
    ];
    let request = decode(&raw).unwrap();
    assert_eq!(
        request.data,
        vec![
            Data::Text("Hello".to_string()),
            Data::Count(1),
            Data::Count(5),
            Data::Text("World".to_string()),
            Data::Text("!".to_string()),
        ]
    );
    let response = request.try_process().unwrap();
    assert_eq!(
        response,
        DataResponse {
            string_len: 11,
            int_sum: 6
        }
    );
}

#[test]
fn empty_request_yields_zero_totals() {
    let request = decode(&vec![]).unwrap();
    assert_eq!(request.data, vec![]);
    assert_eq!(
        request.try_process().unwrap(),
        DataResponse {
            string_len: 0,
            int_sum: 0
        }
    );
    assert_eq!(
        request.process(),
        DataResponse {
            string_len: 0,
            int_sum: 0
        }
    );
}

#[test]
fn zero_counts_yield_zero_totals() {
    let raw = vec![RawValue::Int(0), RawValue::Int(0), RawValue::Int(0)];
    let request = decode(&raw).unwrap();
    assert_eq!(
        request.try_process().unwrap(),
        DataResponse {
            string_len: 0,
            int_sum: 0
        }
    );
}

#[test]
fn text_lengths_are_summed() {
    let raw = vec![
        RawValue::Text("".to_string()),
        RawValue::Text("a".to_string()),
        RawValue::Text("bb".to_string()),
    ];
    let request = decode(&raw).unwrap();
    assert_eq!(
        request.try_process().unwrap(),
        DataResponse {
            string_len: 3,
            int_sum: 0
        }
    );
}

#[test]
fn text_length_counts_characters() {
    let request = DataRequest {
        data: vec![Data::Text("h\u{e9}llo".to_string())],
    };
    let response = request.process();
    assert_eq!(response.string_len, 5);
}

#[test]
fn classify_prefers_count_over_text() {
    assert_eq!(classify(&RawValue::Int(7)), Some(Data::Count(7)));
    assert_eq!(
        classify(&RawValue::Text("7".to_string())),
        Some(Data::Text("7".to_string()))
    );
    assert_eq!(classify(&RawValue::Other), None);
    assert_eq!(classify(&RawValue::Int(-1)), None);
}

#[test]
fn negative_integer_rejected_at_its_index() {
    let raw = vec![RawValue::Text("a".to_string()), RawValue::Int(-1)];
    assert_eq!(
        decode(&raw).unwrap_err(),
        ProcessError::UnrecognizedElement(1)
    );
}

#[test]
fn structured_value_rejected_at_its_index() {
    let raw = vec![RawValue::Other, RawValue::Int(3)];
    assert_eq!(
        decode(&raw).unwrap_err(),
        ProcessError::UnrecognizedElement(0)
    );
}

#[test]
fn oversized_integer_rejected() {
    let raw = vec![RawValue::Int(3), RawValue::Int(usize::MAX as i128 + 1)];
    assert_eq!(
        decode(&raw).unwrap_err(),
        ProcessError::UnrecognizedElement(1)
    );
}

#[test]
fn decode_is_all_or_nothing() {
    for position in 0..4 {
        let mut raw = vec![
            RawValue::Int(1),
            RawValue::Text("ab".to_string()),
            RawValue::Int(2),
        ];
        raw.insert(position, RawValue::Int(-4));
        assert_eq!(
            decode(&raw).unwrap_err(),
            ProcessError::UnrecognizedElement(position)
        );
    }
}

#[test]
fn count_overflow_is_detected() {
    let request = DataRequest {
        data: vec![Data::Count(usize::MAX), Data::Count(1)],
    };
    assert_eq!(
        request.try_process().unwrap_err(),
        ProcessError::AggregateOverflow
    );

    let largest = DataRequest {
        data: vec![Data::Count(usize::MAX)],
    };
    assert_eq!(
        largest.try_process().unwrap(),
        DataResponse {
            string_len: 0,
            int_sum: usize::MAX
        }
    );
}

#[test]
fn totals_are_order_independent() {
    let forward = DataRequest {
        data: vec![
            Data::Text("abc".to_string()),
            Data::Count(2),
            Data::Text("d".to_string()),
        ],
    };
    let backward = DataRequest {
        data: vec![
            Data::Text("d".to_string()),
            Data::Count(2),
            Data::Text("abc".to_string()),
        ],
    };
    assert_eq!(forward.process(), backward.process());
    assert_eq!(
        forward.process(),
        DataResponse {
            string_len: 4,
            int_sum: 2
        }
    );
}

#[test]
fn aggregation_is_deterministic() {
    let request = DataRequest {
        data: vec![Data::Text("xyz".to_string()), Data::Count(9)],
    };
    assert_eq!(request.process(), request.process());
    assert_eq!(request.try_process(), request.try_process());
}
