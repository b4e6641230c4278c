use git_rustico::cat_file::{cat_file, cat_file_object_size, cat_file_object_type, cat_file_objects_content, open_file_for_cat_file, read_decoder};
use std::io::Write;
use git_rustico::errors::ErrorType;
use git_rustico::hash::GitHash;

const HASH: &str = "10500012fca9b4425b50de67a7258a12cba0c076";

/// The object file of the blob `asd`, compressed with zlib directly.
fn stored_blob() -> Vec<u8> {
    let mut encoder = flate2::write::ZlibEncoder::new(Vec::new(), flate2::Compression::default());
    encoder.write_all(b"blob 3\0asd").unwrap();
    encoder.finish().unwrap()
}

#[test]
fn cat_file_retorna_error_cuando_no_recibe_parametro_adecuado() {
    let letras: Vec<String> = (b'a'..=b'z')
        .map(|c| c as char)
        .filter(|c| c.is_alphabetic())
        .map(|c| format!("-{}", c))
        .collect();
    for letra in letras {
        if letra == "-p" || letra == "-s" || letra == "-t" {
            continue;
        }
        assert!(cat_file(letra.as_str(), "", None).is_err(), "falla en {}", letra);
    }
}

#[test]
fn cat_file_abre_archivos_para_su_lectura() {
    let file = stored_blob();
    assert!(open_file_for_cat_file(HASH, Some(file.as_slice())).is_ok())
}

#[test]
fn cat_file_lee_y_decodifica_archivos() -> Result<(), ErrorType> {
    let file = stored_blob();
    let archivo = open_file_for_cat_file(HASH, Some(file.as_slice()))?;
    let lectura = read_decoder(&archivo)?;
    assert_eq!(lectura, "blob 3\0asd".to_string());
    Ok(())
}

#[test]
fn cat_file_size() -> Result<(), ErrorType> {
    let file = stored_blob();
    let size_file = cat_file_object_size(HASH, Some(file.as_slice()))?;
    assert_eq!(size_file, "3");
    Ok(())
}

#[test]
fn cat_file_type() -> Result<(), ErrorType> {
    let file = stored_blob();
    let type_file = cat_file_object_type(HASH, Some(file.as_slice()))?;
    assert_eq!(type_file, "blob");
    Ok(())
}

#[test]
fn cat_file_content() -> Result<(), ErrorType> {
    let file = stored_blob();
    let content_file = cat_file_objects_content(HASH, Some(file.as_slice()))?;
    assert_eq!(content_file, "asd");
    Ok(())
}

#[test]
fn cat_file_options_dispatch() {
    let file = stored_blob();
    assert_eq!(cat_file("-p", HASH, Some(file.as_slice())).unwrap(), "asd");
    assert_eq!(cat_file("-s", HASH, Some(file.as_slice())).unwrap(), "3");
    assert_eq!(cat_file("-t", HASH, Some(file.as_slice())).unwrap(), "blob");
    assert!(cat_file("-p", HASH, None).is_err());
    assert!(cat_file("-x", HASH, Some(file.as_slice())).is_err());
}

#[test]
fn blob_hash_of_asd_is_the_stored_name() {
    assert_eq!(GitHash::hash_blob(&b"asd".to_vec()).to_string(), HASH);
}
