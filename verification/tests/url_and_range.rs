use certified_assets::range::get_ranges;
use certified_assets::url::{url_decode, UrlDecodeError};

#[test]
fn check_get_ranges() {
    let empty = get_ranges("").unwrap_or(vec![]);
    assert_eq!(empty.len(), 0);

    let mut range = get_ranges("bytes=0-").unwrap_or_else(|| panic!("Unable to parse range"));
    assert_eq!(range[0].start_byte, 0);
    assert_eq!(range[0].end_byte, None);

    range = get_ranges("bytes=10-11").unwrap_or_else(|| panic!("Unable to parse range"));
    assert_eq!(range[0].start_byte, 10);
    assert_eq!(range[0].end_byte.unwrap_or(0), 11);

    range = get_ranges("bytes=10-11, 100-101").unwrap_or_else(|| panic!("Unable to parse range"));
    assert_eq!(range[0].start_byte, 10);
    assert_eq!(range[0].end_byte.unwrap_or(0), 11);
    assert_eq!(range[1].start_byte, 100);
    assert_eq!(range[1].end_byte.unwrap_or(0), 101);

    range = get_ranges("bytes=10-11, bytes=100-101")
        .unwrap_or_else(|| panic!("Unable to parse range"));
    assert_eq!(range[0].start_byte, 10);
    assert_eq!(range[0].end_byte.unwrap_or(0), 11);
    assert_eq!(range[1].start_byte, 100);
    assert_eq!(range[1].end_byte.unwrap_or(0), 101);
}

#[test]
fn check_url_decode() {
    assert_eq!(url_decode("/%"), Err(UrlDecodeError::InvalidPercentEncoding));
    assert_eq!(url_decode("/%%"), Ok("/%".to_string()));
    assert_eq!(url_decode("/%20a"), Ok("/ a".to_string()));
    assert_eq!(
        url_decode("/%%+a%20+%@"),
        Err(UrlDecodeError::InvalidPercentEncoding)
    );
    assert_eq!(
        url_decode("/has%percent.txt"),
        Err(UrlDecodeError::InvalidPercentEncoding)
    );
    assert_eq!(url_decode("/%e6"), Ok("/æ".to_string()));
}

#[test]
fn range_parse_rejects_missing_dash() {
    assert!(get_ranges("bytes=10").is_none());
    assert!(get_ranges("oranges").is_none());
    assert!(get_ranges("bytes=a-b").is_none());
}

#[test]
fn range_prefix_is_stripped_at_most_once() {
    assert!(get_ranges("bytes=bytes=5-6").is_none());
}

#[test]
fn url_decode_passthrough() {
    assert_eq!(url_decode("/plain/path.txt"), Ok("/plain/path.txt".to_string()));
    assert_eq!(url_decode("a+b"), Ok("a b".to_string()));
}
