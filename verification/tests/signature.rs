use base64::Engine;
use qomicex_updater::verify::{
    decoded_armor, normalize_signature, verdict_of, verify_package, Findings, PUBLIC_KEY,
};

const KEY: &str = "untrusted comment: minisign public key E7620F1842B4E81F
RWQf6LRCGA9i53mlYecO4IzT51TGPpvWucNSCh1CBM0QTaLn73Y7GFO3";

const SIGNATURE: &str = "untrusted comment: signature from minisign secret key
RUQf6LRCGA9i559r3g7V1qNyJDApGip8MfqcadIgT9CuhV3EMhHoN1mGTkUidF/z7SrlQgXdy8ofjb7bNJJylDOocrCo8KLzZwo=
trusted comment: timestamp:1633700835\tfile:test\tprehashed
wLMDjy9FLAuxZ3q4NlEvkgtyhrr0gtTu6KC4KBJdITbbOeAi1zBIYo0v4iTgt8jJpIidRJnp94ABQkJAgAooBQ==";

const LEGACY: &str = "untrusted comment: signature from minisign secret key
RWQf6LRCGA9i59SLOFxz6NxvASXDJeRtuZykwQepbDEGt87ig1BNpWaVWuNrm73YiIiJbq71Wi+dP9eKL8OC351vwIasSSbXxwA=
trusted comment: timestamp:1555779966\tfile:test
QtKMXWyYcwdpZAlPF7tE2ENJkRd1ujvKjlj1m9RtHTBnZPa5WKU5uWRs5GoP5M/VqE81QFuMKI5k/SfNQUaOAA==";

fn base64_of(text: &str) -> String {
    base64::engine::general_purpose::STANDARD.encode(text)
}

fn check(signature: &str, data: &[u8], key: &str) -> Result<(), String> {
    verify_package("p.zip", "p.sig", Ok(signature.to_owned()), Ok(data.to_vec()), key)
}

#[test]
fn a_signed_package_is_accepted() {
    assert_eq!(check(SIGNATURE, b"test", KEY), Ok(()));
}

#[test]
fn a_signature_may_be_wrapped_in_base64() {
    let line = base64_of(SIGNATURE);
    assert_eq!(check(&line, b"test", KEY), Ok(()));
    assert_eq!(check(&format!("\n {}\r\n", line), b"test", KEY), Ok(()));
    assert_eq!(normalize_signature(&line), Ok(SIGNATURE.to_owned()));
}

#[test]
fn a_signature_in_its_own_form_stays_as_it_is() {
    assert_eq!(normalize_signature(SIGNATURE), Ok(SIGNATURE.to_owned()));
    let indented = format!("  \n{}\n", SIGNATURE);
    assert_eq!(normalize_signature(&indented), Ok(indented.clone()));
    assert_eq!(normalize_signature("untrusted comment"), Ok("untrusted comment".to_owned()));
}

#[test]
fn base64_stands_for_any_text() {
    assert_eq!(normalize_signature(""), Ok(String::new()));
    assert_eq!(normalize_signature("YQ=="), Ok("a".to_owned()));
    assert_eq!(normalize_signature("5pu05paw"), Ok("更新".to_owned()));
}

#[test]
fn text_that_is_no_base64_is_refused() {
    let engine = base64::engine::general_purpose::STANDARD;
    for raw in ["garbage", "YQ", "YR==", "Y Q==", "YQ==YQ==", "=", "trusted comment: x", "更新"] {
        let fault = engine.decode(raw).unwrap_err();
        assert_eq!(
            normalize_signature(raw),
            Err(format!("signature is neither minisign armor nor base64: {}", fault)),
        );
    }
}

#[test]
fn base64_of_other_bytes_is_refused() {
    let raw = base64::engine::general_purpose::STANDARD.encode([0x66u8, 0xff, 0x66]);
    let fault = String::from_utf8(vec![0x66, 0xff, 0x66]).unwrap_err();
    assert_eq!(
        normalize_signature(&raw),
        Err(format!("decoded signature is not utf-8: {}", fault)),
    );
}

#[test]
fn decoded_bytes_are_read_as_text() {
    assert_eq!(decoded_armor(Ok(b"abc".to_vec())), Ok("abc".to_owned()));
    assert_eq!(
        decoded_armor(Err("why".to_owned())),
        Err("signature is neither minisign armor nor base64: why".to_owned()),
    );
}

#[test]
fn a_changed_package_is_refused() {
    assert_eq!(
        check(SIGNATURE, b"Test", KEY),
        Err("minisign verify: The signature verification failed".to_owned()),
    );
}

#[test]
fn a_foreign_key_is_refused() {
    assert_eq!(
        check(SIGNATURE, b"test", PUBLIC_KEY),
        Err(
            "minisign verify: The signature was created with a different key than the one provided"
                .to_owned()
        ),
    );
}

#[test]
fn the_old_form_of_signatures_is_refused() {
    let fault = check(LEGACY, b"test", KEY).unwrap_err();
    assert!(fault.starts_with("minisign verify: "), "{}", fault);
}

#[test]
fn a_malformed_signature_is_refused() {
    let fault = check("untrusted comment: nothing else", b"test", KEY).unwrap_err();
    assert!(fault.starts_with("signature malformed: "), "{}", fault);
    let fault = check(&base64_of("hello"), b"test", KEY).unwrap_err();
    assert!(fault.starts_with("signature malformed: "), "{}", fault);
}

#[test]
fn a_malformed_key_is_refused() {
    let fault = check(SIGNATURE, b"test", "no key").unwrap_err();
    assert!(fault.starts_with("embedded public key invalid: "), "{}", fault);
}

#[test]
fn the_embedded_key_is_well_formed() {
    assert!(minisign_verify::PublicKey::decode(PUBLIC_KEY).is_ok());
    assert_eq!(
        PUBLIC_KEY,
        "untrusted comment: minisign public key: 35DD6AE53301ABE3\nRWTjqwEz5WrdNfika/0W5/uR54TDhJNBSy2gRyvxxDefeXveXCb1a/ch",
    );
}

#[test]
fn files_that_cannot_be_read_are_reported() {
    assert_eq!(
        verify_package("p.zip", "p.sig", Err("gone".to_owned()), Ok(vec![]), KEY),
        Err("cannot read signature p.sig: gone".to_owned()),
    );
    assert_eq!(
        verify_package("p.zip", "p.sig", Ok(SIGNATURE.to_owned()), Err("gone".to_owned()), KEY),
        Err("cannot read package p.zip: gone".to_owned()),
    );
}

fn nothing_found() -> Findings<String> {
    Findings {
        signature_file: None,
        armor: None,
        key: None,
        signature: None,
        package_file: None,
        mismatch: None,
    }
}

#[test]
fn the_first_finding_decides() {
    assert_eq!(verdict_of("p", "s", nothing_found()), Ok(()));
    let mut found = nothing_found();
    found.mismatch = Some("m".to_owned());
    assert_eq!(verdict_of("p", "s", found), Err("minisign verify: m".to_owned()));
    let mut found = nothing_found();
    found.mismatch = Some("m".to_owned());
    found.package_file = Some("f".to_owned());
    assert_eq!(verdict_of("p", "s", found), Err("cannot read package p: f".to_owned()));
    let mut found = nothing_found();
    found.package_file = Some("f".to_owned());
    found.signature = Some("t".to_owned());
    assert_eq!(verdict_of("p", "s", found), Err("signature malformed: t".to_owned()));
    let mut found = nothing_found();
    found.signature = Some("t".to_owned());
    found.key = Some("k".to_owned());
    assert_eq!(verdict_of("p", "s", found), Err("embedded public key invalid: k".to_owned()));
    let mut found = nothing_found();
    found.key = Some("k".to_owned());
    found.armor = Some("a".to_owned());
    assert_eq!(verdict_of("p", "s", found), Err("a".to_owned()));
    let mut found = nothing_found();
    found.armor = Some("a".to_owned());
    found.signature_file = Some("g".to_owned());
    assert_eq!(verdict_of("p", "s", found), Err("cannot read signature s: g".to_owned()));
}
