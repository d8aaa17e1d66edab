use upload_download::access::{
    choose_lang, client_key, delete_access, delete_access_at, delete_target, detect_lang,
    download_access,
    download_access_at, download_headers, finish_delete, render_index, salt_access_at,
    verify_access, verify_access_at, Access, DeletePassword, LangChoice,
};
use upload_download::limiter::RateLimiter;
use upload_download::password::calculate;

const SEC: u64 = 1_000_000_000;
const NOW: Option<i64> = Some(1700000000);
const SALT: &str = "s3cret-salt";
const RIGHT: &str = "rhsc8GnJ";

fn is(a: &Access, b: &Access) -> bool {
    matches!(
        (a, b),
        (Access::NotFound, Access::NotFound)
            | (Access::TooManyAttempts, Access::TooManyAttempts)
            | (Access::InvalidPassword, Access::InvalidPassword)
            | (Access::Granted, Access::Granted)
    )
}

#[test]
fn download_of_missing_file_is_not_found() {
    let mut l = RateLimiter::new();
    let r = download_access_at(&mut l, "ip", "notes.txt", false, "wrong", SALT, 0, NOW);
    assert!(is(&r, &Access::NotFound));
    // nothing was recorded
    assert_eq!(l.check_at("ip", 0), Ok(()));
}

#[test]
fn download_with_right_password_is_granted() {
    let mut l = RateLimiter::new();
    assert_eq!(calculate("2023111422", SALT), RIGHT);
    let r = download_access_at(&mut l, "ip", "notes.txt", true, RIGHT, SALT, 0, NOW);
    assert!(is(&r, &Access::Granted));
}

#[test]
fn three_wrong_passwords_lock_out_the_right_one() {
    let mut l = RateLimiter::new();
    for k in 0..3 {
        let r = download_access_at(&mut l, "ip", "notes.txt", true, "wrong", SALT, k * SEC, NOW);
        assert!(is(&r, &Access::InvalidPassword));
    }
    let r = download_access_at(&mut l, "ip", "notes.txt", true, RIGHT, SALT, 3 * SEC, NOW);
    assert!(is(&r, &Access::TooManyAttempts));
    // another client is not affected
    let r = download_access_at(&mut l, "other", "notes.txt", true, RIGHT, SALT, 3 * SEC, NOW);
    assert!(is(&r, &Access::Granted));
    // after the window the client may try again
    let r = download_access_at(&mut l, "ip", "notes.txt", true, RIGHT, SALT, 600 * SEC, NOW);
    assert!(is(&r, &Access::Granted));
}

#[test]
fn granted_download_forgets_failures() {
    let mut l = RateLimiter::new();
    download_access_at(&mut l, "ip", "notes.txt", true, "wrong", SALT, 0, NOW);
    download_access_at(&mut l, "ip", "notes.txt", true, "wrong", SALT, 0, NOW);
    let r = download_access_at(&mut l, "ip", "notes.txt", true, RIGHT, SALT, 0, NOW);
    assert!(is(&r, &Access::Granted));
    download_access_at(&mut l, "ip", "notes.txt", true, "wrong", SALT, 0, NOW);
    download_access_at(&mut l, "ip", "notes.txt", true, "wrong", SALT, 0, NOW);
    let r = download_access_at(&mut l, "ip", "notes.txt", true, RIGHT, SALT, 0, NOW);
    assert!(is(&r, &Access::Granted));
}

#[test]
fn verify_access_follows_same_rules() {
    let mut l = RateLimiter::new();
    assert!(is(&verify_access_at(&mut l, "ip", "Qtc9PCwA", SALT, 0, NOW), &Access::Granted));
    for _ in 0..3 {
        assert!(is(&verify_access_at(&mut l, "ip", "bad", SALT, 0, NOW), &Access::InvalidPassword));
    }
    assert!(is(&verify_access_at(&mut l, "ip", RIGHT, SALT, 0, NOW), &Access::TooManyAttempts));
}

#[test]
fn salt_access_needs_admin_password() {
    let mut l = RateLimiter::new();
    let admin = DeletePassword("admin-pw".to_string());
    assert!(is(&salt_access_at(&mut l, "ip", "nope", &admin, 0), &Access::InvalidPassword));
    assert!(is(&salt_access_at(&mut l, "ip", "admin-pw", &admin, 0), &Access::Granted));
    // the granted request forgot the earlier failure: two more do not block
    salt_access_at(&mut l, "ip", "nope", &admin, 0);
    salt_access_at(&mut l, "ip", "nope", &admin, 0);
    assert!(is(&salt_access_at(&mut l, "ip", "admin-pw", &admin, 0), &Access::Granted));
}

#[test]
fn delete_access_keeps_failures_until_removed() {
    let mut l = RateLimiter::new();
    let admin = DeletePassword("admin-pw".to_string());
    delete_access_at(&mut l, "ip", "nope", &admin, 0);
    delete_access_at(&mut l, "ip", "nope", &admin, 0);
    assert!(is(&delete_access_at(&mut l, "ip", "admin-pw", &admin, 0), &Access::Granted));
    // failures are still counted until the file is removed and the key reset
    assert!(is(&delete_access_at(&mut l, "ip", "nope", &admin, 0), &Access::InvalidPassword));
    assert!(is(&delete_access_at(&mut l, "ip", "admin-pw", &admin, 0), &Access::TooManyAttempts));
    l.reset("ip");
    assert!(is(&delete_access_at(&mut l, "ip", "admin-pw", &admin, 0), &Access::Granted));
}

#[test]
fn clock_reading_gates() {
    let mut l = RateLimiter::new();
    let admin = DeletePassword("pw".to_string());
    assert!(is(&delete_access(&mut l, "ip", "pw", &admin), &Access::Granted));
    assert!(is(&download_access(&mut l, "ip", "notes.txt", false, "x", SALT), &Access::NotFound));
    assert!(is(&verify_access(&mut l, "ip", "x", SALT), &Access::InvalidPassword));
    assert!(is(&download_access(&mut l, "ip", "notes.txt", true, "x", SALT), &Access::InvalidPassword));
    assert!(is(&verify_access(&mut l, "ip", "x", SALT), &Access::InvalidPassword));
    assert!(is(&download_access(&mut l, "ip", "notes.txt", true, "x", SALT), &Access::TooManyAttempts));
}

#[test]
fn lang_header_wins_when_supported() {
    match choose_lang(Some("zh"), Some("en-US")) {
        LangChoice::Chosen(l) => assert_eq!(l, "zh"),
        LangChoice::Detect(_) => panic!("zh is supported"),
    }
    match choose_lang(Some("en"), None) {
        LangChoice::Chosen(l) => assert_eq!(l, "en"),
        LangChoice::Detect(_) => panic!("en is supported"),
    }
}

#[test]
fn lang_falls_back_to_accept_language() {
    match choose_lang(Some("fr"), Some("zh-CN,zh;q=0.9")) {
        LangChoice::Detect(a) => assert_eq!(a, "zh-CN,zh;q=0.9"),
        LangChoice::Chosen(_) => panic!("fr is not supported"),
    }
    match choose_lang(None, None) {
        LangChoice::Detect(a) => assert_eq!(a, "en"),
        LangChoice::Chosen(_) => panic!("nothing was asked for"),
    }
}

#[test]
fn client_key_takes_first_forwarded_address() {
    assert_eq!(client_key(Some(" 10.0.0.1 , 10.0.0.2"), Some("127.0.0.1")), "10.0.0.1");
    assert_eq!(client_key(Some("10.0.0.7"), None), "10.0.0.7");
    assert_eq!(client_key(Some(""), Some("127.0.0.1")), "");
    assert_eq!(client_key(Some("\t2001:db8::1\u{a0},x"), None), "2001:db8::1");
}

#[test]
fn client_key_falls_back_to_peer() {
    assert_eq!(client_key(None, Some("192.168.1.5")), "192.168.1.5");
    assert_eq!(client_key(None, None), "");
}

#[test]
fn index_page_fills_placeholders() {
    let page = render_index(
        "<p>AUTHOR_PLACEHOLDER v VERSION_PLACEHOLDER AUTHOR_PLACEHOLDER</p>",
        "Ann",
        "1.2.3",
    );
    assert_eq!(page, "<p>Ann v 1.2.3 Ann</p>");
    assert_eq!(render_index("no placeholders", "a", "b"), "no placeholders");
}

#[test]
fn download_headers_for_text_file() {
    let h = download_headers("notes.txt", 1234);
    assert_eq!(h.content_type, "text/plain");
    assert_eq!(h.disposition, "attachment; filename=\"notes.txt\"");
    assert_eq!(h.length, "1234");
}

#[test]
fn download_headers_for_unknown_type() {
    let h = download_headers("blob", 0);
    assert_eq!(h.content_type, "application/octet-stream");
    assert_eq!(h.length, "0");
    let h = download_headers("page.html", 7);
    assert_eq!(h.content_type, "text/html");
}

#[test]
fn blocked_requests_are_not_counted() {
    let mut l = RateLimiter::new();
    for _ in 0..3 {
        download_access_at(&mut l, "ip", "notes.txt", true, "wrong", SALT, 0, NOW);
    }
    // refused while blocked; these attempts are not recorded
    for k in 1..5 {
        let r = download_access_at(&mut l, "ip", "notes.txt", true, "wrong", SALT, k * 100 * SEC, NOW);
        assert_eq!(r, Access::TooManyAttempts);
    }
    // once the three failures have left the window, the client is free again
    let r = download_access_at(&mut l, "ip", "notes.txt", true, RIGHT, SALT, 600 * SEC, NOW);
    assert_eq!(r, Access::Granted);
}

#[test]
fn download_outside_upload_dir_is_not_found() {
    let mut l = RateLimiter::new();
    for name in ["../config/config.toml", "/etc/passwd", "a\\b", "..", ".", ""] {
        let r = download_access_at(&mut l, "ip", name, true, RIGHT, SALT, 0, NOW);
        assert!(is(&r, &Access::NotFound), "{}", name);
    }
    // nothing was recorded: three wrong passwords are still needed to block
    for k in 0..2u64 {
        let r = download_access_at(&mut l, "ip", "notes.txt", true, "wrong", SALT, k * SEC, NOW);
        assert!(is(&r, &Access::InvalidPassword));
    }
    let r = download_access_at(&mut l, "ip", "notes.txt", true, RIGHT, SALT, 2 * SEC, NOW);
    assert!(is(&r, &Access::Granted));
}

#[test]
fn delete_target_needs_safe_existing_name() {
    assert!(delete_target("notes.txt", true));
    assert!(!delete_target("notes.txt", false));
    assert!(!delete_target("../config/config.toml", true));
    assert!(!delete_target("/etc/passwd", true));
    assert!(!delete_target("a\\b", true));
    assert!(!delete_target("..", true));
    assert!(!delete_target("", true));
}

#[test]
fn removed_file_forgets_failures() {
    let admin = DeletePassword("admin-pw".to_string());
    let mut l = RateLimiter::new();
    delete_access_at(&mut l, "ip", "nope", &admin, 0);
    delete_access_at(&mut l, "ip", "nope", &admin, 0);
    assert!(is(&delete_access_at(&mut l, "ip", "admin-pw", &admin, 0), &Access::Granted));
    finish_delete(&mut l, "ip", true);
    // the two failures are gone: two more are allowed
    delete_access_at(&mut l, "ip", "nope", &admin, 0);
    delete_access_at(&mut l, "ip", "nope", &admin, 0);
    assert!(is(&delete_access_at(&mut l, "ip", "admin-pw", &admin, 0), &Access::Granted));
}

#[test]
fn failed_removal_keeps_failures() {
    let admin = DeletePassword("admin-pw".to_string());
    let mut l = RateLimiter::new();
    delete_access_at(&mut l, "ip", "nope", &admin, 0);
    delete_access_at(&mut l, "ip", "nope", &admin, 0);
    assert!(is(&delete_access_at(&mut l, "ip", "admin-pw", &admin, 0), &Access::Granted));
    finish_delete(&mut l, "ip", false);
    delete_access_at(&mut l, "ip", "nope", &admin, 0);
    assert!(is(&delete_access_at(&mut l, "ip", "admin-pw", &admin, 0), &Access::TooManyAttempts));
}

#[test]
fn lock_spans_all_guarded_requests() {
    let admin = DeletePassword("admin-pw".to_string());
    let mut l = RateLimiter::new();
    // failures on three different endpoints, with a missing-file download between
    download_access_at(&mut l, "ip", "notes.txt", true, "wrong", SALT, 0, NOW);
    download_access_at(&mut l, "ip", "gone.txt", false, "wrong", SALT, SEC, NOW);
    verify_access_at(&mut l, "ip", "wrong", SALT, 2 * SEC, NOW);
    delete_access_at(&mut l, "ip", "nope", &admin, 3 * SEC);
    let r = salt_access_at(&mut l, "ip", "admin-pw", &admin, 4 * SEC);
    assert!(is(&r, &Access::TooManyAttempts));
}

#[test]
fn accept_language_detection() {
    assert_eq!(detect_lang("zh-CN,zh;q=0.9,en;q=0.8"), "zh");
    assert_eq!(detect_lang("  ZH-tw "), "zh");
    assert_eq!(detect_lang("en-US,zh;q=0.5"), "en");
    assert_eq!(detect_lang("z"), "en");
    assert_eq!(detect_lang(""), "en");
}

#[test]
fn clock_before_epoch_accepts_no_password() {
    let mut l = RateLimiter::new();
    let r = download_access_at(&mut l, "ip", "notes.txt", true, RIGHT, SALT, 0, None);
    assert!(is(&r, &Access::InvalidPassword));
    let r = verify_access_at(&mut l, "ip", RIGHT, SALT, 0, None);
    assert!(is(&r, &Access::InvalidPassword));
    // the right password at a readable hour is granted
    let r = verify_access_at(&mut l, "ip", RIGHT, SALT, 0, NOW);
    assert!(is(&r, &Access::Granted));
}
