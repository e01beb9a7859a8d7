use amazon_cloudfront_client_routing_lib::errors::DecodeLengthError;

#[test]
fn validate_decode_length_error_text() {
    let error = DecodeLengthError {
        num_chars: 10,
        expected_num_chars: 29,
    };

    assert_eq!(error.to_string(), "Passed 10 - expected 29 characters");
}

#[test]
fn decode_length_error_text_of_zero_and_of_large_numbers() {
    let error = DecodeLengthError {
        num_chars: 0,
        expected_num_chars: 1234567890,
    };

    assert_eq!(error.to_string(), "Passed 0 - expected 1234567890 characters");
}
