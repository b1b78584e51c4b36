use neural_network::{DFType, DataFrame, Scalar, UtilityError};

#[test]
fn df_csv_test() {
    let content = b"id, test, label\n1, x, 1\n2, y, 0\n3, z, 1\n".to_vec();
    let df = DataFrame::from_csv(&content);

    assert!(!df.is_err());
    let df = df.unwrap();
    assert_eq!(df.headers, vec![b"id".to_vec(), b"test".to_vec(), b"label".to_vec()]);
    assert_eq!(df.shape, (3, 3));
    assert_eq!(
        df.data[0..3],
        vec![
            DFType::Num(Scalar::from_int(1)),
            DFType::Str(b"x".to_vec()),
            DFType::Num(Scalar::from_int(1)),
        ]
    );
}

#[test]
fn csv_cells_parse_decimals_exactly() {
    let content = b"a,b,c\n1.5, -2.25, +3\n0.125, hello, 12.\n-.5, ., 1e3\n".to_vec();
    let df = DataFrame::from_csv(&content).unwrap();
    assert_eq!(df.shape, (3, 3));
    assert_eq!(df.data.len(), 9);
    assert_eq!(df.data[0], DFType::Num(Scalar::new(3, 2)));
    assert_eq!(df.data[1], DFType::Num(Scalar::new(-9, 4)));
    assert_eq!(df.data[2], DFType::Num(Scalar::from_int(3)));
    assert_eq!(df.data[3], DFType::Num(Scalar::new(1, 8)));
    assert_eq!(df.data[4], DFType::Str(b"hello".to_vec()));
    // digits may sit on either side of the dot alone
    assert_eq!(df.data[5], DFType::Num(Scalar::from_int(12)));
    assert_eq!(df.data[6], DFType::Num(Scalar::new(-1, 2)));
    // but a bare dot and exponent forms are text
    assert_eq!(df.data[7], DFType::Str(b".".to_vec()));
    assert_eq!(df.data[8], DFType::Str(b"1e3".to_vec()));
}

#[test]
fn ragged_rows_are_malformed() {
    let content = b"a,b\n1,2\n3\n".to_vec();
    let df = DataFrame::from_csv(&content);
    assert!(matches!(df, Err(UtilityError::MalformedCsv)));
}

#[test]
fn encode_leaves_the_table_unchanged() {
    let content = b"k,v\nx,1\n".to_vec();
    let mut df = DataFrame::from_csv(&content).unwrap();
    let before = df.data.len();
    df.encode(neural_network::EncodingScheme::Label);
    assert_eq!(df.data.len(), before);
    assert_eq!(df.shape, (1, 2));
}
