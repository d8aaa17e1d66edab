use upload_download::password::{
    calculate, generate_random_salt, password_from_digest, salt_from_indices, verify, verify_at,
    verify_reading,
};

#[test]
fn calculate_matches_documented_formula() {
    // SHA-256 of "2024010112upload-download", first 8 bytes mod 57 into the alphabet.
    assert_eq!(calculate("2024010112", "upload-download"), "EVs2CN2M");
}

#[test]
fn calculate_hashes_utf8_bytes_of_salt() {
    assert_eq!(calculate("2023111422", "ünïcødé"), "q946E2cT");
}

#[test]
fn calculate_depends_on_hour() {
    assert_ne!(calculate("2023111422", "s3cret-salt"), calculate("2023111421", "s3cret-salt"));
}

#[test]
fn password_from_digest_uses_first_eight_bytes_modulo_alphabet() {
    let digest: Vec<u8> = vec![0, 1, 2, 3, 7, 8, 56, 57, 200, 255];
    // 57 wraps to index 0; the last two bytes are ignored.
    assert_eq!(password_from_digest(&digest), "23459Az2");
    assert_eq!(password_from_digest(&[255, 114, 113, 0, 0, 0, 0, 0]), "V2z22222");
}

#[test]
fn password_from_digest_exact_values() {
    assert_eq!(password_from_digest(&[0, 0, 0, 0, 0, 0, 0, 0]), "22222222");
    assert_eq!(password_from_digest(&[56, 56, 56, 56, 56, 56, 56, 56]), "zzzzzzzz");
    assert_eq!(password_from_digest(&[8, 31, 32, 43, 44, 57, 58, 113]), "AZamn23z");
}

#[test]
fn verify_at_accepts_current_hour() {
    // 1700000000 is 2023-11-14 22:13:20 UTC.
    assert!(verify_at("rhsc8GnJ", "s3cret-salt", 1700000000));
}

#[test]
fn verify_at_accepts_previous_hour() {
    assert!(verify_at("Qtc9PCwA", "s3cret-salt", 1700000000));
}

#[test]
fn verify_at_rejects_older_hour_and_other_input() {
    assert!(!verify_at("KtcRXKub", "s3cret-salt", 1700000000));
    assert!(!verify_at("rhsc8GnJ", "other-salt", 1700000000));
    assert!(!verify_at("", "s3cret-salt", 1700000000));
}

#[test]
fn verify_at_uses_hour_stamp_of_timestamp() {
    // the hour stamp of 1700000000 is 2023111422, of 1699996400 2023111421
    assert_eq!(calculate("2023111422", "s3cret-salt"), "rhsc8GnJ");
    assert!(verify_at(&calculate("1970010100", "x"), "x", 3599));
    assert!(verify_at(&calculate("1969123123", "x"), "x", 3599));
}

#[test]
fn verify_accepts_password_of_current_hour() {
    let seed = chrono::Utc::now().format("%Y%m%d%H").to_string();
    let password = calculate(&seed, "salt-for-test");
    assert!(verify(&password, "salt-for-test"));
    assert!(!verify("not-a-password", "salt-for-test"));
}

#[test]
fn generated_salt_is_32_alphanumerics() {
    let salt = generate_random_salt();
    assert_eq!(salt.chars().count(), 32);
    assert!(salt.chars().all(|c| c.is_ascii_alphanumeric()));
}

#[test]
fn salt_from_indices_maps_alphabet() {
    assert_eq!(salt_from_indices(&vec![0, 25, 26, 51, 52, 61]), "AZaz09");
    assert_eq!(salt_from_indices(&vec![]), "");
}

#[test]
fn verify_reading_needs_a_usable_clock() {
    assert!(verify_reading("rhsc8GnJ", "s3cret-salt", Some(1700000000)));
    assert!(!verify_reading("rhsc8GnJ", "s3cret-salt", None));
    assert!(!verify_reading("rhsc8GnJ", "s3cret-salt", Some(i64::MAX)));
}
