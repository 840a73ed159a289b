use std::path::PathBuf;

use qw_core::vault::{hex_of, hex_to_32, Vault};

#[test]
fn a_key_reads_back_from_its_text() {
    let mut k = [0u8; 32];
    for (i, b) in k.iter_mut().enumerate() {
        *b = (i as u8).wrapping_mul(37);
    }
    let text = hex_of(&k);
    assert_eq!(text.len(), 64);
    assert_eq!(&text[..6], "00254a");
    assert_eq!(hex_to_32(&text), Some(k));
    assert_eq!(hex_to_32(&text.to_uppercase()), Some(k));
}

#[test]
fn malformed_key_text_is_refused() {
    assert_eq!(hex_to_32(""), None);
    assert_eq!(hex_to_32(&"0".repeat(63)), None);
    assert_eq!(hex_to_32(&"0".repeat(65)), None);
    assert_eq!(hex_to_32(&format!("{}g", "0".repeat(63))), None);
    assert_eq!(hex_to_32(&"\u{e9}".repeat(32)), None);
    assert_eq!(hex_to_32(&"ff".repeat(32)), Some([255u8; 32]));
}

#[test]
fn the_key_file_lives_in_the_vault_directory() {
    let v = Vault::at("/tmp/qw-vault");
    assert_eq!(PathBuf::from(v.key_path()), PathBuf::from("/tmp/qw-vault/identity.key"));
}

#[test]
fn the_key_path_joins_like_a_path() {
    assert_eq!(Vault::at("/tmp/qw-vault/").key_path(), "/tmp/qw-vault/identity.key");
    assert_eq!(Vault::at("").key_path(), "identity.key");
    assert_eq!(Vault::at(".qw").key_path(), ".qw/identity.key");
}
