//! Hour-based download passwords and random salts.
//!
//! The download password of an hour is derived from the UTC hour stamp
//! `YYYYMMDDHH` and a salt: the SHA-256 digest of the stamp's UTF-8 bytes
//! followed by the salt's, whose first eight bytes pick characters from an
//! unambiguous alphabet. A password is accepted for the current hour and
//! for the previous one.

use chrono::DateTime;
use rand::rngs::ThreadRng;
use rand::Rng;
use sha2::Digest;
use sha2::Sha256;
use std::time::Duration;
use std::time::SystemTime;
use std::time::SystemTimeError;
use std::time::UNIX_EPOCH;
use vstd::prelude::*;
use vstd::utf8::encode_utf8;

verus! {

/// Number of characters in a download password.
pub const PASSWORD_LEN: usize = 8;

/// Number of characters in the password alphabet.
pub const PASSWORD_CHARSET_LEN: usize = 57;

/// Smallest Unix timestamp (seconds) that chrono represents.
pub const MIN_TIMESTAMP: i64 = -8334601315200;

/// Largest Unix timestamp (seconds) that chrono represents.
pub const MAX_TIMESTAMP: i64 = 8210266876799;

/// Seconds in an hour.
pub const SECS_PER_HOUR: i64 = 3600;

/// Number of characters in a generated salt.
pub const SALT_LEN: usize = 32;

/// Number of characters in the salt alphabet.
pub const SALT_CHARSET_LEN: usize = 62;

/// The password alphabet: digits and letters without `0`, `1`, `I`, `O`
/// and `l`.
pub open spec fn password_charset() -> Seq<char> {
    seq![
        '2', '3', '4', '5', '6', '7', '8', '9', 'A', 'B', 'C', 'D', 'E', 'F', 'G', 'H', 'J', 'K',
        'L', 'M', 'N', 'P', 'Q', 'R', 'S', 'T', 'U', 'V', 'W', 'X', 'Y', 'Z', 'a', 'b', 'c', 'd',
        'e', 'f', 'g', 'h', 'i', 'j', 'k', 'm', 'n', 'o', 'p', 'q', 'r', 's', 't', 'u', 'v', 'w',
        'x', 'y', 'z',
    ]
}

/// The salt alphabet: ASCII letters and digits.
pub open spec fn salt_charset() -> Seq<char> {
    seq![
        'A', 'B', 'C', 'D', 'E', 'F', 'G', 'H', 'I', 'J', 'K', 'L', 'M', 'N', 'O', 'P', 'Q', 'R',
        'S', 'T', 'U', 'V', 'W', 'X', 'Y', 'Z', 'a', 'b', 'c', 'd', 'e', 'f', 'g', 'h', 'i', 'j',
        'k', 'l', 'm', 'n', 'o', 'p', 'q', 'r', 's', 't', 'u', 'v', 'w', 'x', 'y', 'z', '0', '1',
        '2', '3', '4', '5', '6', '7', '8', '9',
    ]
}

/// The SHA-256 digest of `data`.
pub uninterp spec fn sha256_digest(data: Seq<u8>) -> Seq<u8>;

/// The UTC hour number `hour` (hours since the Unix epoch), written
/// `%Y%m%d%H` by chrono.
pub uninterp spec fn utc_hour_stamp(hour: int) -> Seq<char>;

/// The hour number of the Unix timestamp `secs`: hours since the epoch,
/// rounded down.
pub open spec fn hour_of(secs: i64) -> int {
    secs as int / (SECS_PER_HOUR as int)
}

/// `<Sha256 as Digest>::digest`: the result is the SHA-256 digest of the
/// data, 32 bytes long.
#[verifier::external_body]
fn sha256(data: &[u8]) -> (d: Vec<u8>)
    ensures
        d@ == sha256_digest(data@),
        d@.len() == 32,
{
    Sha256::digest(data).to_vec()
}

/// `DateTime::<Utc>::from_timestamp` followed by `format("%Y%m%d%H")`: the
/// result is the stamp of the hour that holds `secs`; the format shows the
/// year, month, day and hour only, so all seconds of an hour give the same
/// stamp. chrono represents every timestamp in the range that `requires`
/// admits.
#[verifier::external_body]
fn format_hour_stamp(secs: i64) -> (s: String)
    requires
        MIN_TIMESTAMP <= secs <= MAX_TIMESTAMP,
    ensures
        s@ == utc_hour_stamp(hour_of(secs)),
{
    match DateTime::from_timestamp(secs, 0) {
        Some(t) => t.format("%Y%m%d%H").to_string(),
        None => String::new(),
    }
}

#[verifier::external_type_specification]
#[verifier::external_body]
pub struct ExSystemTime(SystemTime);

#[verifier::external_type_specification]
#[verifier::external_body]
pub struct ExSystemTimeError(SystemTimeError);

/// `SystemTime::now`: a reading of the system clock. Nothing is stated of
/// it.
#[verifier::external_body]
fn system_now() -> SystemTime {
    SystemTime::now()
}

/// `SystemTime::duration_since(UNIX_EPOCH)`: the time from the Unix epoch to
/// `t`, or an error when `t` lies before the epoch. Nothing is stated of
/// either.
#[verifier::external_body]
fn since_epoch(t: &SystemTime) -> Result<Duration, SystemTimeError> {
    t.duration_since(UNIX_EPOCH)
}

/// `Duration::as_secs`: the whole seconds of `d`. The duration is opaque
/// here, so nothing is stated of the number.
#[verifier::external_body]
fn duration_as_secs(d: &Duration) -> u64 {
    d.as_secs()
}

/// The system clock in whole seconds since the Unix epoch, or `None` when
/// it reads before the epoch or beyond what an `i64` holds.
pub(crate) fn utc_now_secs() -> (t: Option<i64>)
    ensures
        t matches Some(s) ==> 0 <= s,
{
    match since_epoch(&system_now()) {
        Ok(d) => {
            let secs = duration_as_secs(&d);
            if secs <= 9223372036854775807u64 {
                Some(secs as i64)
            } else {
                None
            }
        },
        Err(_) => None,
    }
}

#[verifier::external_type_specification]
#[verifier::external_body]
pub struct ExThreadRng(ThreadRng);

/// `rand::thread_rng`: the thread's random number generator.
#[verifier::external_body]
fn thread_rng() -> ThreadRng {
    rand::thread_rng()
}

/// `Rng::gen_range(0..bound)`: a random number below `bound` (the range must
/// not be empty).
#[verifier::external_body]
fn gen_below(rng: &mut ThreadRng, bound: usize) -> (r: usize)
    requires
        bound > 0,
    ensures
        r < bound,
{
    rng.gen_range(0..bound)
}

/// The password that the digest `d` stands for: its first eight bytes, each
/// taken modulo the alphabet size, index the alphabet.
pub open spec fn password_of_digest(d: Seq<u8>) -> Seq<char> {
    Seq::new(
        PASSWORD_LEN as nat,
        |i: int| password_charset()[(d[i] as int) % (PASSWORD_CHARSET_LEN as int)],
    )
}

/// The password of the hour stamp `seed` under `salt`.
pub open spec fn password_for(seed: Seq<char>, salt: Seq<char>) -> Seq<char> {
    password_of_digest(sha256_digest(encode_utf8(seed) + encode_utf8(salt)))
}

/// Whether `input` is the password of the hour of `now` or of the hour
/// before, under `salt`.
pub open spec fn accepts(input: Seq<char>, salt: Seq<char>, now: i64) -> bool {
    ||| input == password_for(utc_hour_stamp(hour_of(now)), salt)
    ||| input == password_for(utc_hour_stamp(hour_of(now) - 1), salt)
}

/// The password of an hour is accepted throughout that hour and the next
/// one, under the salt it was made with.
pub proof fn lemma_password_valid_two_hours(hour: int, salt: Seq<char>, now: i64)
    requires
        hour_of(now) == hour || hour_of(now) == hour + 1,
    ensures
        accepts(password_for(utc_hour_stamp(hour), salt), salt, now),
{
}

/// Every password has eight characters, all from the password alphabet.
pub proof fn lemma_password_shape(d: Seq<u8>)
    ensures
        password_of_digest(d).len() == PASSWORD_LEN,
        forall|i: int|
            0 <= i < PASSWORD_LEN ==> password_charset().contains(#[trigger] password_of_digest(d)[i]),
{
    assert forall|i: int| 0 <= i < PASSWORD_LEN implies password_charset().contains(
        #[trigger] password_of_digest(d)[i],
    ) by {
        let k = (d[i] as int) % (PASSWORD_CHARSET_LEN as int);
        assert(password_charset()[k] == password_of_digest(d)[i]);
    }
}

/// Each password character is picked by its digest byte alone, by the
/// byte's value modulo the size of the alphabet, for every byte value: bytes
/// that agree modulo 57 (at any positions, of any digests) give the same
/// character, a byte below 57 picks the alphabet character at its own
/// value, and so every byte `b` picks the character at `b % 57`.
pub proof fn lemma_password_char_of_byte(d: Seq<u8>, e: Seq<u8>, i: int, j: int)
    requires
        0 <= i < PASSWORD_LEN,
        0 <= j < PASSWORD_LEN,
    ensures
        (d[i] as int) % 57 == (e[j] as int) % 57 ==> password_of_digest(d)[i]
            == password_of_digest(e)[j],
        (d[i] as int) < 57 ==> password_of_digest(d)[i] == password_charset()[d[i] as int],
        password_of_digest(d)[i] == password_charset()[(d[i] as int) % 57],
{
}

/// The alphabet of passwords: 57 characters in increasing order, each a
/// digit from 2 to 9, an upper-case letter other than I and O, or a
/// lower-case letter other than l (the characters easy to confuse are left
/// out).
pub proof fn lemma_password_alphabet()
    ensures
        password_charset().len() == PASSWORD_CHARSET_LEN,
        forall|k: int|
            0 <= k < PASSWORD_CHARSET_LEN - 1 ==> (#[trigger] password_charset()[k] as int) < (
            password_charset()[k + 1] as int),
        forall|k: int|
            0 <= k < PASSWORD_CHARSET_LEN ==> {
                let c = #[trigger] password_charset()[k];
                ||| '2' <= c <= '9'
                ||| 'A' <= c <= 'Z' && c != 'I' && c != 'O'
                ||| 'a' <= c <= 'z' && c != 'l'
            },
{
}

/// The password that a digest stands for (its first eight bytes are used).
pub fn password_from_digest(digest: &[u8]) -> (p: String)
    requires
        digest@.len() >= PASSWORD_LEN,
    ensures
        p@ == password_of_digest(digest@),
{
    let table: [char; 57] = [
        '2', '3', '4', '5', '6', '7', '8', '9', 'A', 'B', 'C', 'D', 'E', 'F', 'G', 'H', 'J', 'K',
        'L', 'M', 'N', 'P', 'Q', 'R', 'S', 'T', 'U', 'V', 'W', 'X', 'Y', 'Z', 'a', 'b', 'c', 'd',
        'e', 'f', 'g', 'h', 'i', 'j', 'k', 'm', 'n', 'o', 'p', 'q', 'r', 's', 't', 'u', 'v', 'w',
        'x', 'y', 'z',
    ];
    assert(table@ =~= password_charset());
    let mut p = String::new();
    let mut i: usize = 0;
    while i < PASSWORD_LEN
        invariant
            i <= PASSWORD_LEN,
            digest@.len() >= PASSWORD_LEN,
            table@ == password_charset(),
            p@ =~= password_of_digest(digest@).take(i as int),
        decreases PASSWORD_LEN - i,
    {
        let index = (digest[i] as usize) % PASSWORD_CHARSET_LEN;
        crate::text::push_char(&mut p, table[index]);
        i = i + 1;
    }
    assert(password_of_digest(digest@).take(PASSWORD_LEN as int) =~= password_of_digest(
        digest@,
    ));
    p
}

/// The bytes of `a` followed by those of `b`.
fn concat_bytes(a: &[u8], b: &[u8]) -> (r: Vec<u8>)
    ensures
        r@ == a@ + b@,
{
    let mut r: Vec<u8> = Vec::new();
    let mut i: usize = 0;
    while i < a.len()
        invariant
            i <= a@.len(),
            r@ == a@.take(i as int),
        decreases a@.len() - i,
    {
        r.push(a[i]);
        i = i + 1;
        assert(r@ =~= a@.take(i as int));
    }
    let mut j: usize = 0;
    while j < b.len()
        invariant
            j <= b@.len(),
            r@ == a@ + b@.take(j as int),
        decreases b@.len() - j,
    {
        r.push(b[j]);
        j = j + 1;
        assert(r@ =~= a@ + b@.take(j as int));
    }
    assert(a@.take(a@.len() as int) =~= a@);
    assert(b@.take(b@.len() as int) =~= b@);
    r
}

/// The password of the hour stamp `hour_seed` under `salt`.
pub fn calculate(hour_seed: &str, salt: &str) -> (p: String)
    ensures
        p@ == password_for(hour_seed@, salt@),
{
    let data = concat_bytes(hour_seed.as_bytes(), salt.as_bytes());
    let digest = sha256(data.as_slice());
    password_from_digest(digest.as_slice())
}

/// Whether `input` is the password, under `salt`, of the hour of the Unix
/// timestamp `now` or of the hour before.
pub fn verify_at(input: &str, salt: &str, now: i64) -> (ok: bool)
    requires
        MIN_TIMESTAMP + SECS_PER_HOUR <= now <= MAX_TIMESTAMP,
    ensures
        ok == accepts(input@, salt@, now),
{
    let given = input.to_owned();
    let current = format_hour_stamp(now);
    if given == calculate(current.as_str(), salt) {
        return true;
    }
    let previous = format_hour_stamp(now - SECS_PER_HOUR);
    assert(hour_of((now - SECS_PER_HOUR) as i64) == hour_of(now) - 1);
    given == calculate(previous.as_str(), salt)
}

/// Whether `input` is accepted at the clock reading `reading`: a reading
/// within the times that the hour stamps cover decides as [`accepts`]; no
/// reading, or one outside them, accepts nothing.
pub open spec fn accepts_reading(input: Seq<char>, salt: Seq<char>, reading: Option<i64>) -> bool {
    match reading {
        Some(now) => MIN_TIMESTAMP + SECS_PER_HOUR <= now <= MAX_TIMESTAMP && accepts(
            input,
            salt,
            now,
        ),
        None => false,
    }
}

/// Whether `input` is accepted at the clock reading `reading`, see
/// [`accepts_reading`].
pub fn verify_reading(input: &str, salt: &str, reading: Option<i64>) -> (ok: bool)
    ensures
        ok == accepts_reading(input@, salt@, reading),
{
    match reading {
        Some(now) => {
            if MIN_TIMESTAMP + SECS_PER_HOUR <= now && now <= MAX_TIMESTAMP {
                verify_at(input, salt, now)
            } else {
                false
            }
        },
        None => false,
    }
}

/// Whether `input` is the password, under `salt`, of the current UTC hour or
/// of the hour before. A system clock that reads before the Unix epoch
/// accepts nothing.
pub fn verify(input: &str, salt: &str) -> (ok: bool)
    ensures
        exists|reading: Option<i64>|
            (reading matches Some(now) ==> 0 <= now) && #[trigger] accepts_reading(
                input@,
                salt@,
                reading,
            ) == ok,
{
    let reading = utc_now_secs();
    verify_reading(input, salt, reading)
}

/// The salt whose characters are picked from the salt alphabet by
/// `indices`.
pub fn salt_from_indices(indices: &Vec<usize>) -> (s: String)
    requires
        forall|i: int| 0 <= i < indices@.len() ==> #[trigger] indices@[i] < SALT_CHARSET_LEN,
    ensures
        s@ == Seq::new(indices@.len(), |i: int| salt_charset()[indices@[i] as int]),
{
    let table: [char; 62] = [
        'A', 'B', 'C', 'D', 'E', 'F', 'G', 'H', 'I', 'J', 'K', 'L', 'M', 'N', 'O', 'P', 'Q', 'R',
        'S', 'T', 'U', 'V', 'W', 'X', 'Y', 'Z', 'a', 'b', 'c', 'd', 'e', 'f', 'g', 'h', 'i', 'j',
        'k', 'l', 'm', 'n', 'o', 'p', 'q', 'r', 's', 't', 'u', 'v', 'w', 'x', 'y', 'z', '0', '1',
        '2', '3', '4', '5', '6', '7', '8', '9',
    ];
    assert(table@ =~= salt_charset());
    let mut s = String::new();
    let mut i: usize = 0;
    while i < indices.len()
        invariant
            i <= indices@.len(),
            table@ == salt_charset(),
            forall|j: int| 0 <= j < indices@.len() ==> #[trigger] indices@[j] < SALT_CHARSET_LEN,
            s@ =~= Seq::new(indices@.len(), |j: int| salt_charset()[indices@[j] as int]).take(
                i as int,
            ),
        decreases indices@.len() - i,
    {
        crate::text::push_char(&mut s, table[indices[i]]);
        i = i + 1;
    }
    s
}

/// A fresh random salt of 32 letters and digits.
pub fn generate_random_salt() -> (s: String)
    ensures
        s@.len() == SALT_LEN,
        forall|i: int| 0 <= i < s@.len() ==> salt_charset().contains(#[trigger] s@[i]),
{
    let mut rng = thread_rng();
    let mut indices: Vec<usize> = Vec::new();
    while indices.len() < SALT_LEN
        invariant
            indices@.len() <= SALT_LEN,
            forall|j: int| 0 <= j < indices@.len() ==> #[trigger] indices@[j] < SALT_CHARSET_LEN,
        decreases SALT_LEN - indices@.len(),
    {
        let k = gen_below(&mut rng, SALT_CHARSET_LEN);
        indices.push(k);
    }
    let s = salt_from_indices(&indices);
    assert forall|i: int| 0 <= i < s@.len() implies salt_charset().contains(#[trigger] s@[i]) by {
        assert(salt_charset()[indices@[i] as int] == s@[i]);
    }
    s
}

} // verus!
