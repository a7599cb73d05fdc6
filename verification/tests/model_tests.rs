use badtv::model::{ensure_model_exists, resolve_model_path, resolve_model_path_in};
use std::path::{Path, PathBuf};

fn text(b: Vec<u8>) -> String {
    String::from_utf8(b).unwrap()
}

#[test]
fn test_resolve_absolute_path() {
    let path = resolve_model_path("/tmp/model.bin").unwrap();
    assert_eq!(PathBuf::from(text(path)), PathBuf::from("/tmp/model.bin"));
}

#[test]
fn test_resolve_tilde_path() {
    let path = String::from_utf8_lossy(&resolve_model_path("~/.badtv/model.bin").unwrap()).into_owned();
    assert!(path.contains(".badtv/model.bin"));
    assert!(!path.starts_with("~"));
}

#[test]
fn resolve_with_given_home() {
    let home = |h: &str| Some(h.as_bytes().to_vec());
    assert_eq!(resolve_model_path_in("~/m.bin", home("/home/u")), Ok(b"/home/u/m.bin".to_vec()));
    assert_eq!(resolve_model_path_in("~/m.bin", home("/home/u/")), Ok(b"/home/u/m.bin".to_vec()));
    assert_eq!(resolve_model_path_in("~//abs", home("/home/u")), Ok(b"/abs".to_vec()));
    assert_eq!(resolve_model_path_in("~/x", None), Err("Cannot determine home directory".to_string()));
    assert_eq!(resolve_model_path_in("~x", None), Ok(b"~x".to_vec()));
    let joined = PathBuf::from("/home/u").join("m.bin");
    assert_eq!(PathBuf::from(text(resolve_model_path_in("~/m.bin", home("/home/u")).unwrap())), joined);
}

#[test]
fn resolve_keeps_home_bytes_that_are_not_utf8() {
    let home = vec![b'/', b'h', 0xff, 0xfe];
    assert_eq!(
        resolve_model_path_in("~/caf\u{e9}.bin", Some(home)),
        Ok(vec![b'/', b'h', 0xff, 0xfe, b'/', b'c', b'a', b'f', 0xc3, 0xa9, b'.', b'b', b'i', b'n'])
    );
}

#[test]
fn test_ensure_model_missing() {
    let path = "/nonexistent/model.bin";
    let result = ensure_model_exists(path, Path::new(path).exists());
    assert!(result.is_err());
    let err = result.unwrap_err();
    assert!(err.contains("badtv --download-model"));
    assert_eq!(err, "Whisper model not found at: /nonexistent/model.bin\nRun `badtv --download-model` to download it.");
}

#[test]
fn ensure_model_present() {
    assert_eq!(ensure_model_exists("/tmp", true), Ok(()));
}
