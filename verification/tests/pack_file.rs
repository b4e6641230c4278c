use git_rustico::errors::ErrorType;
use git_rustico::pack_file::{build_packfile, generate_packfile_object_header, parse_object_size_and_type, read_bytes,
    read_pack_object, read_packfile, usize_to_bytes, send_packfile};
use git_rustico::object_type::ObjectType;
use git_rustico::hash::GitHash;

#[test]
fn test_commit_type() {
    assert_eq!(parse_object_size_and_type(vec![0b10010000, 0b00010010]).unwrap(), (1, 288));
}

#[test]
fn test_tree_type() {
    assert_eq!(parse_object_size_and_type(vec![0b10101000, 0b00001100]).unwrap(), (2, 200));
}

#[test]
fn test_blob_type_1() {
    assert_eq!(parse_object_size_and_type(vec![176, 4]).unwrap(), (3, 64));
}

#[test]
fn test_blob_type_2() {
    assert_eq!(parse_object_size_and_type(vec![180, 131, 1]).unwrap(), (3, 2100));
}

#[test]
fn test_invalid_object_header() {
    assert!(parse_object_size_and_type(vec![]).is_err());
}

#[test]
fn test_commit_header() -> Result<(), ErrorType> {
    assert_eq!(generate_packfile_object_header(1, 288)?, vec![0b10010000, 0b00010010]);
    Ok(())
}

#[test]
fn test_tree_header() -> Result<(), ErrorType> {
    let expected_bytes: Vec<u8> = vec![0b10101000, 0b00001100];
    assert_eq!(generate_packfile_object_header(2, 200)?, expected_bytes);
    Ok(())
}

#[test]
fn test_blob_header() -> Result<(), ErrorType> {
    assert_eq!(generate_packfile_object_header(3, 64)?, vec![176, 4]);
    Ok(())
}

#[test]
fn test_blob_header_3_bytes() -> Result<(), ErrorType> {
    assert_eq!(generate_packfile_object_header(3, 2100)?, vec![180, 131, 1]);
    Ok(())
}

#[test]
fn header_type_above_seven_is_refused_with_its_number() {
    match generate_packfile_object_header(9, 1) {
        Err(ErrorType::ProtocolError(m)) => assert_eq!(m, "invalid object type number when generating packfile object header: 9"),
        _ => panic!("expected a protocol error"),
    }
}

#[test]
fn header_roundtrip_for_several_sizes() {
    for size in [0usize, 1, 15, 16, 127, 128, 2100, 1 << 20, usize::MAX] {
        for typ in 0u8..8 {
            let h = generate_packfile_object_header(typ, size).unwrap();
            assert_eq!(parse_object_size_and_type(h).unwrap(), (typ, size));
        }
    }
}

#[test]
fn object_count_is_big_endian() {
    assert_eq!(usize_to_bytes(0x01020304).unwrap(), [1, 2, 3, 4]);
    assert_eq!(usize_to_bytes(5).unwrap(), [0, 0, 0, 5]);
}

#[test]
fn packfile_built_reads_back() {
    let objects = vec![
        (ObjectType::Blob, GitHash::hash_blob(&b"hello".to_vec()), b"hello".to_vec()),
        (ObjectType::Commit, GitHash::hash_blob(&b"x".to_vec()), b"tree abc\n\nmsg".to_vec()),
    ];
    let pack = build_packfile(objects).unwrap();
    assert_eq!(&pack[0..12], &[80, 65, 67, 75, 0, 0, 0, 2, 0, 0, 0, 2]);
    assert_eq!(pack.len() >= 32, true);
    let read = read_packfile(&pack).unwrap();
    assert_eq!(read, vec![(ObjectType::Blob, b"hello".to_vec()), (ObjectType::Commit, b"tree abc\n\nmsg".to_vec())]);
    let sent = send_packfile(vec![(ObjectType::Blob, GitHash::hash_blob(&b"hello".to_vec()), b"hello".to_vec())]).unwrap();
    assert_eq!(&sent[0..12], &[80, 65, 67, 75, 0, 0, 0, 2, 0, 0, 0, 1]);
}

#[test]
fn packfile_with_bad_header_is_refused() {
    match read_packfile(&[1, 2, 3, 4, 0, 0, 0, 2, 0, 0, 0, 0]) {
        Err(ErrorType::ProtocolError(m)) => assert_eq!(m, "invalid packfile header [1, 2, 3, 4], expected [80, 65, 67, 75]  (PACK)"),
        _ => panic!("expected a protocol error"),
    }
    match read_packfile(&[80, 65, 67, 75, 0, 0, 0, 3, 0, 0, 0, 0]) {
        Err(ErrorType::ProtocolError(m)) => assert_eq!(m, "invalid packfile version [0, 0, 0, 3], expected [0, 0, 0, 2] (2)"),
        _ => panic!("expected a protocol error"),
    }
    assert!(matches!(read_packfile(&[80, 65]), Err(ErrorType::IOError(_))));
}

#[test]
fn pack_object_with_unknown_type_is_refused() {
    match read_pack_object(&[0b01010001], 0) {
        Err(ErrorType::RepositoryError(m)) => assert_eq!(m, "Invalid object type: 5"),
        _ => panic!("expected a repository error"),
    }
}

#[test]
fn read_bytes_takes_a_slice() {
    assert_eq!(read_bytes(&[1, 2, 3, 4], 1, 2).unwrap(), (vec![2, 3], 3));
    assert!(read_bytes(&[1, 2], 1, 2).is_err());
}
