use std::io::Write;

use tfenv_rs::installer::{
    asset_name, asset_url, extract_binary, installed_binary_path, map_arch, map_os,
    terraform_binary_name, InstallError, InstallSession, InstallState,
};
use tfenv_rs::trust::{digest_for_asset, verify_checksum, sig_url, sums_url, TrustError};

#[test]
fn test_asset_name() {
    let s = asset_name("terraform", "1.0.0", &map_os("linux"), &map_arch("x86_64"));
    assert!(s.starts_with("terraform_1.0.0_"));
}

#[test]
fn test_map_arch_and_os() {
    // at minimum they should return non-empty strings
    assert!(!map_os("macos").is_empty());
    assert!(!map_arch("x86_64").is_empty());
}

#[test]
fn test_platform_mapping() {
    assert_eq!(map_os("macos"), "darwin");
    assert_eq!(map_os("linux"), "linux");
    assert_eq!(map_arch("x86_64"), "amd64");
    assert_eq!(map_arch("aarch64"), "arm64");
    assert_eq!(map_arch("riscv64"), "riscv64");
}

#[test]
fn test_binary_name() {
    assert_eq!(terraform_binary_name(false), "terraform");
    assert_eq!(terraform_binary_name(true), "terraform.exe");
}

#[test]
fn test_asset_name_exact() {
    assert_eq!(
        asset_name("terraform", "1.5.0", "linux", "amd64"),
        "terraform_1.5.0_linux_amd64.zip"
    );
}

#[test]
fn test_asset_url_terraform() {
    assert_eq!(
        asset_url(
            "terraform",
            "https://releases.hashicorp.com/terraform/",
            "1.5.0",
            "terraform_1.5.0_linux_amd64.zip"
        ),
        "https://releases.hashicorp.com/terraform/1.5.0/terraform_1.5.0_linux_amd64.zip"
    );
    // a missing trailing slash is supplied
    assert_eq!(
        asset_url("terraform", "https://mirror.example", "1.5.0", "a.zip"),
        "https://mirror.example/1.5.0/a.zip"
    );
}

#[test]
fn test_asset_url_tag_style() {
    assert_eq!(
        asset_url("opentofu", "https://example.com/dl/", "1.6.2", "tofu_1.6.2.zip"),
        "https://example.com/dl/v1.6.2/tofu_1.6.2.zip"
    );
}

#[test]
fn test_installed_binary_path() {
    assert_eq!(
        installed_binary_path("/home/u/.tfenv", "1.5.0", false),
        "/home/u/.tfenv/versions/1.5.0/terraform"
    );
}

#[test]
fn test_trust_root_urls() {
    assert_eq!(
        sums_url("1.5.0"),
        "https://releases.hashicorp.com/terraform/1.5.0/terraform_1.5.0_SHA256SUMS"
    );
    assert_eq!(
        sig_url("1.5.0"),
        "https://releases.hashicorp.com/terraform/1.5.0/terraform_1.5.0_SHA256SUMS.sig"
    );
}

// SHA-256 of "hello world"
const HELLO_DIGEST: &str = "b94d27b9934d3e08a52e52d7da7dabfac484efe37a5380ee9088f7ace2efcde9";

#[test]
fn test_digest_for_asset_exact_field_match() {
    let sums = format!(
        "{}  terraform_1.5.0_linux_amd64.zip\nffff  other_file.zip\n",
        HELLO_DIGEST
    );
    assert_eq!(
        digest_for_asset(&sums, "terraform_1.5.0_linux_amd64.zip").as_deref(),
        Some(HELLO_DIGEST)
    );
    assert!(digest_for_asset(&sums, "terraform_1.5.0_linux_arm64.zip").is_none());
    // a substring of the filename is not a match
    assert!(digest_for_asset(&sums, "1.5.0_linux_amd64.zip").is_none());
}

#[test]
fn test_digest_list_with_crlf_lines() {
    let sums = format!("{}  asset.zip\r\nother  b.zip\r\n", HELLO_DIGEST);
    assert_eq!(digest_for_asset(&sums, "asset.zip").as_deref(), Some(HELLO_DIGEST));
}

#[test]
fn test_verify_checksum_ok() {
    let data: Vec<u8> = b"hello world".to_vec();
    let sums = format!("{}  asset.zip\n", HELLO_DIGEST);
    assert!(verify_checksum(&sums, "asset.zip", &data).is_ok());
}

#[test]
fn test_verify_checksum_case_normalized() {
    let data: Vec<u8> = b"hello world".to_vec();
    let sums = format!("{}  asset.zip\n", HELLO_DIGEST.to_uppercase());
    assert!(verify_checksum(&sums, "asset.zip", &data).is_ok());
}

#[test]
fn test_verify_checksum_mismatch() {
    let data: Vec<u8> = b"tampered bytes".to_vec();
    let sums = format!("{}  asset.zip\n", HELLO_DIGEST);
    match verify_checksum(&sums, "asset.zip", &data) {
        Err(TrustError::ChecksumMismatch { expected, actual }) => {
            assert_eq!(expected, HELLO_DIGEST);
            assert_ne!(actual, HELLO_DIGEST);
        },
        _ => panic!("expected a checksum mismatch"),
    }
}

#[test]
fn test_verify_checksum_not_found() {
    let data: Vec<u8> = b"hello world".to_vec();
    let sums = format!("{}  something_else.zip\n", HELLO_DIGEST);
    assert!(matches!(
        verify_checksum(&sums, "asset.zip", &data),
        Err(TrustError::ChecksumNotFound(_))
    ));
}

fn zip_with_entry(name: &str, content: &[u8]) -> Vec<u8> {
    let mut w = zip::ZipWriter::new(std::io::Cursor::new(Vec::new()));
    let opts = zip::write::SimpleFileOptions::default()
        .compression_method(zip::CompressionMethod::Stored);
    w.start_file(name, opts).unwrap();
    w.write_all(content).unwrap();
    w.finish().unwrap().into_inner()
}

#[test]
fn test_extract_binary_from_archive() {
    let data = zip_with_entry("terraform", b"#!binary");
    let out = extract_binary(&data, false).unwrap();
    assert_eq!(out, b"#!binary");
}

#[test]
fn test_extract_binary_missing_entry() {
    let data = zip_with_entry("README.txt", b"docs");
    assert!(matches!(
        extract_binary(&data, false),
        Err(InstallError::BinaryNotFound)
    ));
}

#[test]
fn test_extract_binary_bad_archive() {
    let data: Vec<u8> = b"this is not a zip archive".to_vec();
    assert!(matches!(
        extract_binary(&data, false),
        Err(InstallError::BadArchive)
    ));
}

fn new_session(version: &str) -> InstallSession {
    InstallSession::new(
        "terraform".to_string(),
        version.to_string(),
        "https://releases.hashicorp.com/terraform/".to_string(),
        "linux",
        "amd64",
        false,
        &None,
        false,
    )
    .unwrap()
}

#[test]
fn test_install_refuses_bare_latest() {
    let r = InstallSession::new(
        "terraform".to_string(),
        "latest".to_string(),
        "https://releases.hashicorp.com/terraform/".to_string(),
        "linux",
        "amd64",
        false,
        &None,
        false,
    );
    assert!(matches!(r, Err(InstallError::LatestNotExplicit)));
}

#[test]
fn test_install_checksum_mismatch_aborts_before_unpack() {
    // a digest list naming the asset with a digest that differs from the
    // artifact's must stop the install before anything is unpacked
    let s = new_session("1.5.0");
    assert_eq!(
        s.download_url(),
        "https://releases.hashicorp.com/terraform/1.5.0/terraform_1.5.0_linux_amd64.zip"
    );
    let artifact = zip_with_entry("terraform", b"#!binary");
    let s = s.on_asset(artifact);
    let sums = "abcdabcdabcdabcdabcdabcdabcdabcdabcdabcdabcdabcdabcdabcdabcd1234  \
                terraform_1.5.0_linux_amd64.zip\n";
    let s = s.on_sums(sums);
    match &s.state {
        InstallState::Failed(InstallError::Checksum(TrustError::ChecksumMismatch {
            ..
        })) => {},
        _ => panic!("the install must fail at the checksum stage"),
    }
}

#[test]
fn test_install_full_chain_and_idempotence() {
    let artifact = zip_with_entry("terraform", b"#!binary");
    let sums = format!(
        "{}  terraform_1.5.0_linux_amd64.zip\n",
        hex::encode(<sha2::Sha256 as sha2::Digest>::digest(&artifact))
    );
    let run = || {
        let s = new_session("1.5.0");
        let s = s.on_asset(artifact.clone());
        let s = s.on_sums(&sums);
        assert!(matches!(s.state, InstallState::Ready { .. }));
        let s = s.unpack();
        match s.state {
            InstallState::Unpacked { binary } => binary,
            _ => panic!("expected the unpacked executable"),
        }
    };
    // a second run over the same release yields the same content
    let first = run();
    let second = run();
    assert_eq!(first, b"#!binary");
    assert_eq!(first, second);
}

#[test]
fn test_install_signature_stage() {
    let artifact = zip_with_entry("terraform", b"#!binary");
    let sums = format!(
        "{}  terraform_1.5.0_linux_amd64.zip\n",
        hex::encode(<sha2::Sha256 as sha2::Digest>::digest(&artifact))
    );
    let s = InstallSession::new(
        "terraform".to_string(),
        "1.5.0".to_string(),
        "https://releases.hashicorp.com/terraform/".to_string(),
        "linux",
        "amd64",
        false,
        &Some("yes".to_string()),
        false,
    )
    .unwrap();
    let s = s.on_asset(artifact);
    let s = s.on_sums(&sums);
    assert!(matches!(s.state, InstallState::NeedSig { .. }));
    let bad = s.on_sig(false);
    assert!(matches!(
        bad.state,
        InstallState::Failed(InstallError::SignatureInvalid)
    ));
}

#[test]
fn test_install_skips_verification_outside_trust_root() {
    let artifact = zip_with_entry("tofu", b"#!tofu");
    let s = InstallSession::new(
        "opentofu".to_string(),
        "1.6.2".to_string(),
        "https://example.com/dl/".to_string(),
        "linux",
        "amd64",
        false,
        &None,
        false,
    )
    .unwrap();
    let s = s.on_asset(artifact);
    assert!(matches!(s.state, InstallState::Ready { .. }));
}
