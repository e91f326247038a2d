use tachiom::npy::{
    assignments_extent, decode_assignments, decode_doclens, decode_i32s, decode_token_ids,
    decode_u16s, decode_u32s, decode_u64s, doclens_extent, dtype_elem_size, extract_quoted,
    f16_matrix_extent, npy_header_end, parse_npy_header, token_ids_extent, NpyError, NpyHeader,
};

fn npy_v1(dict: &str) -> Vec<u8> {
    let mut bytes = vec![0x93u8, b'N', b'U', b'M', b'P', b'Y', 1, 0];
    let len = dict.len() as u16;
    bytes.extend_from_slice(&len.to_le_bytes());
    bytes.extend_from_slice(dict.as_bytes());
    bytes
}

fn npy_v2(dict: &str) -> Vec<u8> {
    let mut bytes = vec![0x93u8, b'N', b'U', b'M', b'P', b'Y', 2, 0];
    let len = dict.len() as u32;
    bytes.extend_from_slice(&len.to_le_bytes());
    bytes.extend_from_slice(dict.as_bytes());
    bytes
}

fn header(shape: Vec<usize>, elem_size: usize) -> NpyHeader {
    NpyHeader { shape, elem_size, unsigned: false, header_size: 128 }
}

#[test]
fn reads_a_version_one_header() {
    let dict = "{'descr': '<u4', 'fortran_order': False, 'shape': (3,), }    \n";
    let mut bytes = npy_v1(dict);
    bytes.extend_from_slice(&[1, 0, 0, 0]);
    let h = parse_npy_header(&bytes).unwrap();
    assert_eq!(h.shape, vec![3]);
    assert_eq!(h.elem_size, 4);
    assert_eq!(h.header_size, 10 + dict.len());
    assert_eq!(npy_header_end(&bytes[..12]), Ok(10 + dict.len()));
}

#[test]
fn reads_a_version_two_header() {
    let dict = "{'descr': '<f2', 'fortran_order': False, 'shape': (2, 5), }\n";
    let h = parse_npy_header(&npy_v2(dict)).unwrap();
    assert_eq!(h.shape, vec![2, 5]);
    assert_eq!(h.elem_size, 2);
    assert_eq!(h.header_size, 12 + dict.len());
}

#[test]
fn shape_entries_may_carry_signs_and_space() {
    let h = parse_npy_header(&npy_v1("{'descr': '|u1', 'shape': ( 4 , +5 ,), }")).unwrap();
    assert_eq!(h.shape, vec![4, 5]);
    assert_eq!(h.elem_size, 1);
    let scalar = parse_npy_header(&npy_v1("{'descr': '<i8', 'shape': (), }")).unwrap();
    assert_eq!(scalar.shape, Vec::<usize>::new());
    assert_eq!(scalar.elem_size, 8);
}

#[test]
fn refuses_bad_headers() {
    let err = |b: &[u8]| parse_npy_header(b).err().unwrap();
    assert_eq!(err(b"\x93NUM"), NpyError::UnexpectedEof);
    assert_eq!(err(b"NOTNPY__xx"), NpyError::NotNumpy);
    let mut short = npy_v1("{'descr': '<u4', 'shape': (3,), }");
    short.truncate(20);
    assert_eq!(err(&short), NpyError::UnexpectedEof);
    assert_eq!(err(&npy_v1("{'descr': '<u4', 'fortran_order': True, 'shape': (3,), }")), NpyError::FortranOrder);
    assert_eq!(err(&npy_v1("{'shape': (3,), }")), NpyError::DescrNotFound);
    assert_eq!(err(&npy_v1("{'descr': '>u4', 'shape': (3,), }")), NpyError::BigEndian);
    assert_eq!(err(&npy_v1("{'descr': '<c8', 'shape': (3,), }")), NpyError::UnrecognisedDtype);
    assert_eq!(err(&npy_v1("{'descr': '<u4', }")), NpyError::ShapeNotFound);
    assert_eq!(err(&npy_v1("{'descr': '<u4', 'shape': (3,")), NpyError::ShapeNotClosed);
    assert_eq!(err(&npy_v1("{'descr': '<u4', 'shape': (3a,), }")), NpyError::BadShapeEntry);
    assert_eq!(err(&npy_v1("{'descr': '<u4', 'shape': (-3,), }")), NpyError::BadShapeEntry);
    assert_eq!(err(&npy_v1("{'descr': '<u4', 'shape': (+,), }")), NpyError::BadShapeEntry);
    assert_eq!(
        err(&npy_v1("{'descr': '<u4', 'shape': (999999999999999999999999,), }")),
        NpyError::BadShapeEntry
    );
}

#[test]
fn quoted_values_and_type_codes() {
    assert_eq!(extract_quoted(b"x 'descr': '<i8', y", b"'descr': '"), Some(b"<i8".to_vec()));
    assert_eq!(extract_quoted(b"x 'descr': '<i8", b"'descr': '"), None);
    assert_eq!(extract_quoted(b"nothing", b"'descr': '"), None);
    assert_eq!(dtype_elem_size(b"f8"), Some(8));
    assert_eq!(dtype_elem_size(b"b1"), Some(1));
    assert_eq!(dtype_elem_size(b"u2"), Some(2));
    assert_eq!(dtype_elem_size(b"i4"), Some(4));
    assert_eq!(dtype_elem_size(b"f1"), None);
    assert_eq!(dtype_elem_size(b"c8"), None);
    assert_eq!(dtype_elem_size(b"u44"), None);
    // Any number of byte-order marks may precede the code.
    let h = parse_npy_header(&npy_v1("{'descr': '<=|u8', 'shape': (1,), }")).unwrap();
    assert_eq!(h.elem_size, 8);
}

#[test]
fn decodes_little_endian_data() {
    assert_eq!(decode_u16s(&[0x00, 0x3c, 0x01, 0x00, 0x07]), vec![0x3c00, 1]);
    assert_eq!(decode_u32s(&[1, 0, 0, 0, 0, 1, 0, 0]), vec![1, 256]);
    assert_eq!(decode_i32s(&[255, 255, 255, 255, 2, 0, 0, 0]), vec![usize::MAX, 2]);
    assert_eq!(decode_u64s(&[1, 0, 0, 0, 0, 0, 0, 1]), vec![(1usize << 56) + 1]);
    assert_eq!(decode_token_ids(8, &[7, 0, 0, 0, 0, 0, 0, 0]), vec![7]);
    assert_eq!(decode_token_ids(4, &[7, 1, 0, 0]), vec![263]);
    assert_eq!(decode_assignments(4, &[3, 0, 0, 0]), Ok(vec![3]));
    assert_eq!(decode_assignments(2, &[3, 0]), Err(NpyError::UnsupportedElementSize));
    assert_eq!(decode_doclens(4, false, &[5, 0, 0, 0]), Ok(vec![5]));
    assert_eq!(decode_doclens(4, true, &[5, 0, 0, 0]), Ok(vec![5]));
    assert_eq!(decode_doclens(8, false, &[5, 0, 0, 0, 0, 0, 0, 0]), Ok(vec![5]));
    assert_eq!(decode_doclens(8, true, &[5, 0, 0, 0, 0, 0, 0, 0]), Ok(vec![5]));
    assert_eq!(decode_doclens(1, false, &[5]), Err(NpyError::UnsupportedElementSize));
    assert_eq!(decode_doclens(4, false, &[255, 255, 255, 255]), Ok(vec![usize::MAX]));
}

#[test]
fn array_extents() {
    assert_eq!(f16_matrix_extent(&header(vec![10, 4], 2), None), Ok((10, 4)));
    assert_eq!(f16_matrix_extent(&header(vec![10, 4], 2), Some(3)), Ok((3, 4)));
    assert_eq!(f16_matrix_extent(&header(vec![10, 4], 2), Some(30)), Ok((10, 4)));
    assert_eq!(f16_matrix_extent(&header(vec![10], 2), None), Err(NpyError::WrongDimensions));
    assert_eq!(f16_matrix_extent(&header(vec![10, 4], 4), None), Err(NpyError::UnsupportedElementSize));
    assert_eq!(token_ids_extent(&header(vec![10], 8), Some(4)), Ok(4));
    assert_eq!(token_ids_extent(&header(vec![10], 2), None), Err(NpyError::UnsupportedElementSize));
    assert_eq!(token_ids_extent(&header(vec![10, 1], 8), None), Err(NpyError::WrongDimensions));
    assert_eq!(assignments_extent(&header(vec![10], 8), 10), Ok(10));
    assert_eq!(assignments_extent(&header(vec![10], 8), 11), Err(NpyError::WrongLength));
    assert_eq!(assignments_extent(&header(vec![], 8), 0), Err(NpyError::WrongDimensions));
    assert_eq!(doclens_extent(&header(vec![6], 4)), Ok(6));
    assert_eq!(doclens_extent(&header(vec![6, 2], 4)), Err(NpyError::WrongDimensions));
}

#[test]
fn unsigned_32_bit_doclens_read_back_whole() {
    let dict = "{'descr': '<u4', 'fortran_order': False, 'shape': (1,), }";
    let mut bytes = npy_v1(dict);
    bytes.extend_from_slice(&3_000_000_000u32.to_le_bytes());
    let h = parse_npy_header(&bytes).unwrap();
    assert!(h.unsigned);
    let n = doclens_extent(&h).unwrap();
    let raw = &bytes[h.header_size..h.header_size + n * h.elem_size];
    assert_eq!(decode_doclens(h.elem_size, h.unsigned, raw), Ok(vec![3_000_000_000usize]));
    let signed = parse_npy_header(&npy_v1("{'descr': '<i4', 'shape': (1,), }")).unwrap();
    assert!(!signed.unsigned);
    let float = parse_npy_header(&npy_v1("{'descr': '<f4', 'shape': (1,), }")).unwrap();
    assert!(!float.unsigned);
}

#[test]
fn shape_entries_are_trimmed_of_unicode_space() {
    let h = parse_npy_header(&npy_v1("{'descr': '<u4', 'shape': (\u{a0}4\u{3000}, \u{2009}5\u{85},), }")).unwrap();
    assert_eq!(h.shape, vec![4, 5]);
    let blank = parse_npy_header(&npy_v1("{'descr': '<u4', 'shape': (7, \u{2028} ), }")).unwrap();
    assert_eq!(blank.shape, vec![7]);
    assert_eq!(
        parse_npy_header(&npy_v1("{'descr': '<u4', 'shape': (4\u{200b},), }")).err(),
        Some(NpyError::BadShapeEntry)
    );
}
