use perceptron::one_hot;
use perceptron::parse;
use perceptron::NetError;

#[test]
fn one_hot_places_single_one() {
    let m = one_hot(3);
    assert_eq!(m.rows(), 10);
    assert_eq!(m.cols(), 1);
    assert_eq!(m.data, vec![0, 0, 0, 1, 0, 0, 0, 0, 0, 0]);
}

#[test]
fn parse_labels_into_one_hot_columns() {
    let mut bytes: Vec<u8> = vec![0, 0, 8, 1, 0, 0, 0, 2];
    bytes.push(3);
    bytes.push(7);

    let samples = parse(&bytes).unwrap();

    assert_eq!(samples.len(), 2);
    assert_eq!(samples[0].data, vec![0, 0, 0, 1, 0, 0, 0, 0, 0, 0]);
    assert_eq!(samples[1].data, vec![0, 0, 0, 0, 0, 0, 0, 1, 0, 0]);
}

#[test]
fn parse_images_into_pixel_columns() {
    let mut bytes: Vec<u8> = vec![0, 0, 8, 3, 0, 0, 0, 1];
    for i in 0..784 {
        bytes.push((i % 251) as u8);
    }

    let samples = parse(&bytes).unwrap();

    assert_eq!(samples.len(), 1);
    assert_eq!(samples[0].rows(), 784);
    assert_eq!(samples[0].cols(), 1);
    assert_eq!(samples[0].data[0], 0);
    assert_eq!(samples[0].data[5], 5);
    assert_eq!(samples[0].data[251], 0);
    assert_eq!(samples[0].data[783], (783 % 251) as i64);
}

#[test]
fn parse_rejects_short_header() {
    let bytes: Vec<u8> = vec![0, 0, 8];
    assert_eq!(parse(&bytes).unwrap_err(), NetError::DimensionMismatch);
}

#[test]
fn parse_rejects_truncated_records() {
    // two label records declared, one byte present
    let bytes: Vec<u8> = vec![0, 0, 8, 1, 0, 0, 0, 2, 4];
    assert_eq!(parse(&bytes).unwrap_err(), NetError::DimensionMismatch);
}

#[test]
fn parse_rejects_label_outside_digit_range() {
    let bytes: Vec<u8> = vec![0, 0, 8, 1, 0, 0, 0, 1, 12];
    assert_eq!(parse(&bytes).unwrap_err(), NetError::DimensionMismatch);
}
