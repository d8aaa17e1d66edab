//! The decisions the HTTP handlers take: who may download, delete, check a
//! password or read the salt, which language and client key a request
//! carries, and how the index page is filled in.

use crate::files::is_safe_name;
use crate::files::safe_file_name;
use crate::limiter::after_check;
use crate::limiter::after_failure;
use crate::limiter::check_result;
use crate::limiter::checks_by;
use crate::limiter::recent;
use crate::limiter::replay;
use crate::limiter::Event;
use crate::limiter::history;
use crate::limiter::is_recent;
use crate::limiter::RateLimiter;
use crate::password::accepts_reading;
use crate::password::utc_now_secs;
use crate::password::verify_reading;
use crate::text::replace_all;
use crate::text::replaced;
use crate::text::trim;
use crate::text::trimmed;
use vstd::prelude::*;

verus! {

broadcast use vstd::string::group_string_axioms;

/// The administrator password, which guards deletion and the salt.
#[derive(Clone)]
pub struct DeletePassword(pub String);

/// The salt of the download passwords.
#[derive(Clone)]
pub struct Salt(pub String);

/// A password sent in the query string.
pub struct PasswordQuery {
    pub password: String,
}

/// A password sent in the request body.
pub struct PasswordBody {
    pub password: String,
}

/// How a guarded request is answered.
#[derive(PartialEq, Eq, Structural, Debug, Clone, Copy)]
pub enum Access {
    /// The file asked for does not exist.
    NotFound,
    /// The client has failed too often within the window.
    TooManyAttempts,
    /// The password is wrong; the failure has been recorded.
    InvalidPassword,
    /// The request may proceed.
    Granted,
}

/// The guard shared by all protected requests: a blocked client is refused
/// without its password being looked at; otherwise a wrong password is
/// recorded as a failure at the same time.
pub open spec fn guard(m: Map<Seq<char>, Seq<u64>>, ip: Seq<char>, ok: bool, now: u64) -> (
    Access,
    Map<Seq<char>, Seq<u64>>,
) {
    if check_result(m, ip, now) is Err {
        (Access::TooManyAttempts, after_check(m, ip, now))
    } else if !ok {
        (Access::InvalidPassword, after_failure(after_check(m, ip, now), ip, now))
    } else {
        (Access::Granted, after_check(m, ip, now))
    }
}

/// The guard, where a granted request also forgets the client's failures.
pub open spec fn guard_and_reset(
    m: Map<Seq<char>, Seq<u64>>,
    ip: Seq<char>,
    ok: bool,
    now: u64,
) -> (Access, Map<Seq<char>, Seq<u64>>) {
    let (a, m2) = guard(m, ip, ok, now);
    if a == Access::Granted {
        (a, m2.remove(ip))
    } else {
        (a, m2)
    }
}

/// A download: a name that does not name an entry directly inside the
/// upload directory, or a missing file, is reported as not found before
/// anything else; then the guard with the hour password, and a granted
/// download forgets the client's failures.
pub open spec fn download_outcome(
    m: Map<Seq<char>, Seq<u64>>,
    ip: Seq<char>,
    filename: Seq<char>,
    file_exists: bool,
    password_ok: bool,
    now: u64,
) -> (Access, Map<Seq<char>, Seq<u64>>) {
    if !(is_safe_name(filename) && file_exists) {
        (Access::NotFound, m)
    } else {
        guard_and_reset(m, ip, password_ok, now)
    }
}

fn guard_at(limiter: &mut RateLimiter, ip: &str, ok: bool, now: u64, reset: bool) -> (r: Access)
    ensures
        reset ==> (r, final(limiter)@) == guard_and_reset(old(limiter)@, ip@, ok, now),
        !reset ==> (r, final(limiter)@) == guard(old(limiter)@, ip@, ok, now),
        final(limiter).latest_reading() == old(limiter).latest_reading(),
        final(limiter).clock_readings() == old(limiter).clock_readings(),
{
    match limiter.check_at(ip, now) {
        Err(_) => Access::TooManyAttempts,
        Ok(()) => {
            if !ok {
                limiter.record_failure_at(ip, now);
                Access::InvalidPassword
            } else {
                if reset {
                    limiter.reset(ip);
                }
                Access::Granted
            }
        },
    }
}

/// Whether two texts are equal.
fn same_text(a: &str, b: &str) -> (r: bool)
    ensures
        r == (a@ == b@),
{
    a.to_owned() == b.to_owned()
}

/// Decides a download of the file `filename` of the upload directory, which
/// exists or not, by client `ip` with `password`, at limiter time `now` and
/// UTC clock reading `utc` (`None` when the clock reads before the Unix
/// epoch; such a reading accepts no password, see
/// [`crate::password::accepts_reading`]).
pub fn download_access_at(
    limiter: &mut RateLimiter,
    ip: &str,
    filename: &str,
    file_exists: bool,
    password: &str,
    salt: &str,
    now: u64,
    utc: Option<i64>,
) -> (r: Access)
    ensures
        (r, final(limiter)@) == download_outcome(
            old(limiter)@,
            ip@,
            filename@,
            file_exists,
            accepts_reading(password@, salt@, utc),
            now,
        ),
        final(limiter).latest_reading() == old(limiter).latest_reading(),
        final(limiter).clock_readings() == old(limiter).clock_readings(),
{
    if !(safe_file_name(filename) && file_exists) {
        return Access::NotFound;
    }
    let ok = verify_reading(password, salt, utc);
    guard_at(limiter, ip, ok, now, true)
}

/// Decides a password check by client `ip`: as a download of an existing
/// file.
pub fn verify_access_at(
    limiter: &mut RateLimiter,
    ip: &str,
    password: &str,
    salt: &str,
    now: u64,
    utc: Option<i64>,
) -> (r: Access)
    ensures
        (r, final(limiter)@) == guard_and_reset(
            old(limiter)@,
            ip@,
            accepts_reading(password@, salt@, utc),
            now,
        ),
        final(limiter).latest_reading() == old(limiter).latest_reading(),
        final(limiter).clock_readings() == old(limiter).clock_readings(),
{
    let ok = verify_reading(password, salt, utc);
    guard_at(limiter, ip, ok, now, true)
}

/// Decides a request for the salt, guarded by the administrator password.
pub fn salt_access_at(
    limiter: &mut RateLimiter,
    ip: &str,
    password: &str,
    admin: &DeletePassword,
    now: u64,
) -> (r: Access)
    ensures
        (r, final(limiter)@) == guard_and_reset(old(limiter)@, ip@, password@ == admin.0@, now),
        final(limiter).latest_reading() == old(limiter).latest_reading(),
        final(limiter).clock_readings() == old(limiter).clock_readings(),
{
    let ok = same_text(password, admin.0.as_str());
    guard_at(limiter, ip, ok, now, true)
}

/// Decides a deletion, guarded by the administrator password. A granted
/// deletion keeps the client's failures: they are forgotten only once the
/// file has been removed.
pub fn delete_access_at(
    limiter: &mut RateLimiter,
    ip: &str,
    password: &str,
    admin: &DeletePassword,
    now: u64,
) -> (r: Access)
    ensures
        (r, final(limiter)@) == guard(old(limiter)@, ip@, password@ == admin.0@, now),
        final(limiter).latest_reading() == old(limiter).latest_reading(),
        final(limiter).clock_readings() == old(limiter).clock_readings(),
{
    let ok = same_text(password, admin.0.as_str());
    guard_at(limiter, ip, ok, now, false)
}

/// Decides a download now (limiter clock and UTC clock), see
/// [`download_access_at`].
pub fn download_access(
    limiter: &mut RateLimiter,
    ip: &str,
    filename: &str,
    file_exists: bool,
    password: &str,
    salt: &str,
) -> (r: Access)
    ensures
        exists|now: u64, utc: Option<i64>|
            (utc matches Some(secs) ==> 0 <= secs) && old(limiter).latest_reading() <= now
                && final(limiter).latest_reading() == now
                && final(limiter).clock_readings() == old(limiter).clock_readings().push(now)
                && (r, final(limiter)@) == #[trigger] download_outcome(
                old(limiter)@,
                ip@,
                filename@,
                file_exists,
                accepts_reading(password@, salt@, utc),
                now,
            ),
{
    let now = limiter.clock();
    let utc = utc_now_secs();
    download_access_at(limiter, ip, filename, file_exists, password, salt, now, utc)
}

/// Decides a password check now, see [`verify_access_at`].
pub fn verify_access(limiter: &mut RateLimiter, ip: &str, password: &str, salt: &str) -> (r:
    Access)
    ensures
        exists|now: u64, utc: Option<i64>|
            (utc matches Some(secs) ==> 0 <= secs) && old(limiter).latest_reading() <= now
                && final(limiter).latest_reading() == now
                && final(limiter).clock_readings() == old(limiter).clock_readings().push(now)
                && (r, final(limiter)@) == #[trigger] guard_and_reset(
                old(limiter)@,
                ip@,
                accepts_reading(password@, salt@, utc),
                now,
            ),
{
    let now = limiter.clock();
    let utc = utc_now_secs();
    verify_access_at(limiter, ip, password, salt, now, utc)
}

/// Decides a request for the salt now, see [`salt_access_at`].
pub fn salt_access(
    limiter: &mut RateLimiter,
    ip: &str,
    password: &str,
    admin: &DeletePassword,
) -> (r: Access)
    ensures
        exists|now: u64|
            #![trigger check_result(old(limiter)@, ip@, now)]
            old(limiter).latest_reading() <= now && final(limiter).latest_reading() == now
                && final(limiter).clock_readings() == old(limiter).clock_readings().push(now)
                && (r, final(limiter)@) == guard_and_reset(
                old(limiter)@,
                ip@,
                password@ == admin.0@,
                now,
            ),
{
    let now = limiter.clock();
    salt_access_at(limiter, ip, password, admin, now)
}

/// Decides a deletion now, see [`delete_access_at`].
pub fn delete_access(
    limiter: &mut RateLimiter,
    ip: &str,
    password: &str,
    admin: &DeletePassword,
) -> (r: Access)
    ensures
        exists|now: u64|
            #![trigger check_result(old(limiter)@, ip@, now)]
            old(limiter).latest_reading() <= now && final(limiter).latest_reading() == now
                && final(limiter).clock_readings() == old(limiter).clock_readings().push(now)
                && (r, final(limiter)@) == guard(old(limiter)@, ip@, password@ == admin.0@, now),
{
    let now = limiter.clock();
    delete_access_at(limiter, ip, password, admin, now)
}

/// Whether a granted deletion of `filename` goes on to remove the file: the
/// name must name an entry directly inside the upload directory and the file
/// must exist; otherwise the deletion is answered as not found.
pub open spec fn removes(filename: Seq<char>, file_exists: bool) -> bool {
    is_safe_name(filename) && file_exists
}

/// After a granted deletion: whether the file `filename` of the upload
/// directory, which exists or not, is to be removed (see [`removes`]).
pub fn delete_target(filename: &str, file_exists: bool) -> (remove: bool)
    ensures
        remove == removes(filename@, file_exists),
{
    safe_file_name(filename) && file_exists
}

/// After the removal of a file: a removed file forgets the client's
/// failures; a failed removal leaves them as they were.
pub fn finish_delete(limiter: &mut RateLimiter, ip: &str, removed: bool)
    ensures
        final(limiter)@ == (if removed {
            old(limiter)@.remove(ip@)
        } else {
            old(limiter)@
        }),
        final(limiter).latest_reading() == old(limiter).latest_reading(),
        final(limiter).clock_readings() == old(limiter).clock_readings(),
{
    if removed {
        limiter.reset(ip);
    }
}

/// The limiter events a guarded request makes at `now`: a check; then, for
/// a client that is not blocked, a failure when the password is wrong, or a
/// reset when it is right and the request forgets failures.
pub open spec fn request_events(
    m: Map<Seq<char>, Seq<u64>>,
    ip: Seq<char>,
    ok: bool,
    now: u64,
    reset: bool,
) -> Seq<Event> {
    if check_result(m, ip, now) is Err {
        seq![Event::Check(now)]
    } else if !ok {
        seq![Event::Check(now), Event::Failure(now)]
    } else if reset {
        seq![Event::Check(now), Event::Reset]
    } else {
        seq![Event::Check(now)]
    }
}

/// Every guarded request acts on the limiter as its events do, so the laws
/// of the limiter over sequences of events hold of any mix of downloads,
/// deletions, password checks and salt requests.
pub proof fn lemma_request_is_events(
    m: Map<Seq<char>, Seq<u64>>,
    ip: Seq<char>,
    ok: bool,
    now: u64,
)
    ensures
        guard(m, ip, ok, now).1 == replay(m, ip, request_events(m, ip, ok, now, false)),
        guard_and_reset(m, ip, ok, now).1 == replay(m, ip, request_events(m, ip, ok, now, true)),
{
    reveal_with_fuel(replay, 3);
    let c = seq![Event::Check(now)];
    let cf = seq![Event::Check(now), Event::Failure(now)];
    let cr = seq![Event::Check(now), Event::Reset];
    assert(c.drop_last() =~= Seq::<Event>::empty());
    assert(cf.drop_last() =~= c);
    assert(cr.drop_last() =~= c);
}

/// The lock-out spans all guarded requests: when three failures recorded
/// since the client's last reset still count at `now`, whatever other
/// requests came before, between and after them (see
/// [`crate::limiter::lemma_three_failures_lock_from_any_history`]), a
/// download, deletion, password check or salt request at `now` is refused
/// whatever its password, and records nothing.
pub proof fn lemma_lock_spans_requests(
    m: Map<Seq<char>, Seq<u64>>,
    ip: Seq<char>,
    pre: Seq<Event>,
    t1: u64,
    mid1: Seq<Event>,
    t2: u64,
    mid2: Seq<Event>,
    t3: u64,
    post: Seq<Event>,
    now: u64,
    ok: bool,
)
    requires
        forall|i: int| 0 <= i < mid1.len() ==> !(#[trigger] mid1[i] is Reset),
        forall|i: int| 0 <= i < mid2.len() ==> !(#[trigger] mid2[i] is Reset),
        forall|i: int| 0 <= i < post.len() ==> !(#[trigger] post[i] is Reset),
        checks_by(
            pre + seq![Event::Failure(t1)] + mid1 + seq![Event::Failure(t2)] + mid2 + seq![
                Event::Failure(t3),
            ] + post,
            now,
        ),
        is_recent(now, t1),
        is_recent(now, t2),
        is_recent(now, t3),
    ensures
        ({
            let s = replay(
                m,
                ip,
                pre + seq![Event::Failure(t1)] + mid1 + seq![Event::Failure(t2)] + mid2 + seq![
                    Event::Failure(t3),
                ] + post,
            );
            &&& guard(s, ip, ok, now).0 == Access::TooManyAttempts
            &&& guard_and_reset(s, ip, ok, now).0 == Access::TooManyAttempts
            &&& history(guard_and_reset(s, ip, ok, now).1, ip) == recent(history(s, ip), now)
        }),
{
    crate::limiter::lemma_three_failures_lock_from_any_history(
        m,
        ip,
        pre,
        t1,
        mid1,
        t2,
        mid2,
        t3,
        post,
        now,
    );
}

/// A deletion removes nothing outside the upload directory: a name that is
/// not an entry directly inside it is never removed, whatever exists.
pub proof fn lemma_unsafe_name_never_removed(filename: Seq<char>, file_exists: bool)
    requires
        !is_safe_name(filename),
    ensures
        !removes(filename, file_exists),
{
}

/// Three wrong passwords within the window lock a client out: starting from
/// no counted failure, three wrong attempts at `t1 <= t2 <= t3` are each
/// rejected as wrong, and a fourth request at `now`, while the first failure
/// still counts, is refused whatever its password.
pub proof fn lemma_three_wrong_passwords_lock_out(
    m: Map<Seq<char>, Seq<u64>>,
    ip: Seq<char>,
    t1: u64,
    t2: u64,
    t3: u64,
    now: u64,
    ok: bool,
)
    requires
        history(m, ip).len() == 0,
        t1 <= t2 <= t3 <= now,
        is_recent(now, t1),
    ensures
        guard_and_reset(m, ip, false, t1).0 == Access::InvalidPassword,
        guard_and_reset(guard_and_reset(m, ip, false, t1).1, ip, false, t2).0
            == Access::InvalidPassword,
        guard_and_reset(
            guard_and_reset(guard_and_reset(m, ip, false, t1).1, ip, false, t2).1,
            ip,
            false,
            t3,
        ).0 == Access::InvalidPassword,
        guard_and_reset(
            guard_and_reset(
                guard_and_reset(guard_and_reset(m, ip, false, t1).1, ip, false, t2).1,
                ip,
                false,
                t3,
            ).1,
            ip,
            ok,
            now,
        ).0 == Access::TooManyAttempts,
{
    reveal_with_fuel(Seq::filter, 2);
    let p1 = crate::limiter::recent_pred(t1);
    let p2 = crate::limiter::recent_pred(t2);
    let p3 = crate::limiter::recent_pred(t3);
    let pn = crate::limiter::recent_pred(now);
    assert(history(m, ip) =~= Seq::<u64>::empty());
    let m1 = guard_and_reset(m, ip, false, t1).1;
    assert(crate::limiter::recent(Seq::<u64>::empty(), t1) =~= Seq::<u64>::empty());
    assert(history(m1, ip) =~= seq![t1]);
    let m2 = guard_and_reset(m1, ip, false, t2).1;
    assert(p2(t1));
    Seq::<u64>::empty().lemma_filter_push(t1, p2);
    assert(crate::limiter::recent(seq![t1], t2) =~= seq![t1]);
    assert(history(m2, ip) =~= seq![t1, t2]);
    let m3 = guard_and_reset(m2, ip, false, t3).1;
    assert(p3(t1) && p3(t2));
    seq![t1].lemma_filter_push(t2, p3);
    Seq::<u64>::empty().lemma_filter_push(t1, p3);
    assert(seq![t1].push(t2) =~= seq![t1, t2]);
    assert(Seq::<u64>::empty().push(t1) =~= seq![t1]);
    assert(crate::limiter::recent(seq![t1, t2], t3) =~= seq![t1, t2]);
    assert(history(m3, ip) =~= seq![t1, t2, t3]);
    assert(pn(t1) && pn(t2) && pn(t3));
    Seq::<u64>::empty().lemma_filter_push(t1, pn);
    seq![t1].lemma_filter_push(t2, pn);
    seq![t1, t2].lemma_filter_push(t3, pn);
    assert(seq![t1, t2].push(t3) =~= seq![t1, t2, t3]);
    assert(crate::limiter::recent(seq![t1, t2, t3], now).len() == 3);
}

/// A refused request never counts as a failure: a blocked client's history
/// only loses the failures that left the window.
pub proof fn lemma_blocked_request_not_recorded(
    m: Map<Seq<char>, Seq<u64>>,
    ip: Seq<char>,
    ok: bool,
    now: u64,
)
    requires
        check_result(m, ip, now) is Err,
    ensures
        guard(m, ip, ok, now).0 == Access::TooManyAttempts,
        guard_and_reset(m, ip, ok, now).0 == Access::TooManyAttempts,
        history(guard(m, ip, ok, now).1, ip) == crate::limiter::recent(history(m, ip), now),
        history(guard_and_reset(m, ip, ok, now).1, ip) == crate::limiter::recent(
            history(m, ip),
            now,
        ),
{
}

/// A granted request forgets the client's failures, so its next request is
/// not refused as too many.
pub proof fn lemma_granted_clears_failures(
    m: Map<Seq<char>, Seq<u64>>,
    ip: Seq<char>,
    ok: bool,
    now: u64,
    later: u64,
)
    requires
        guard_and_reset(m, ip, ok, now).0 == Access::Granted,
    ensures
        history(guard_and_reset(m, ip, ok, now).1, ip).len() == 0,
        check_result(guard_and_reset(m, ip, ok, now).1, ip, later) == Ok::<(), u64>(()),
{
    crate::limiter::lemma_reset_unblocks(guard(m, ip, ok, now).1, ip, later);
}

/// A right password is granted unless the client is blocked, and a wrong one
/// never is.
pub proof fn lemma_granted_iff_allowed_and_right(
    m: Map<Seq<char>, Seq<u64>>,
    ip: Seq<char>,
    ok: bool,
    now: u64,
)
    ensures
        (guard(m, ip, ok, now).0 == Access::Granted) == (ok && check_result(m, ip, now) is Ok),
        (guard_and_reset(m, ip, ok, now).0 == Access::Granted) == (ok && check_result(
            m,
            ip,
            now,
        ) is Ok),
{
}

/// A download of a missing file, or of a name outside the upload directory,
/// is answered as not found, whatever the password and the client's
/// history, and leaves the limiter as it was: nothing outside the upload
/// directory is served.
pub proof fn lemma_missing_file_untouched(
    m: Map<Seq<char>, Seq<u64>>,
    ip: Seq<char>,
    name: Seq<char>,
    exists: bool,
    ok: bool,
    now: u64,
)
    ensures
        download_outcome(m, ip, name, false, ok, now) == (Access::NotFound, m),
        !is_safe_name(name) ==> download_outcome(m, ip, name, exists, ok, now) == (
            Access::NotFound,
            m,
        ),
{
}

/// Where a request's language comes from.
pub enum LangChoice {
    /// The language the client asked for explicitly.
    Chosen(String),
    /// Detect the language from this `Accept-Language` value.
    Detect(String),
}

/// Whether `x` names a supported language: `zh` or `en`.
pub open spec fn is_supported_lang(x: Seq<char>) -> bool {
    x == seq!['z', 'h'] || x == seq!['e', 'n']
}

/// The language of a request: the `X-Lang` header when it names a supported
/// language, otherwise what the `Accept-Language` header (by default `en`)
/// is detected as.
pub fn choose_lang(x_lang: Option<&str>, accept_language: Option<&str>) -> (c: LangChoice)
    ensures
        match x_lang {
            Some(x) => is_supported_lang(x@) ==> (c matches LangChoice::Chosen(l) && l@ == x@),
            None => true,
        },
        !(x_lang matches Some(x) && is_supported_lang(x@)) ==> (c matches LangChoice::Detect(a)
            && a@ == match accept_language {
            Some(h) => h@,
            None => seq!['e', 'n'],
        }),
{
    proof {
        reveal_strlit("zh");
        reveal_strlit("en");
        assert("zh"@ =~= seq!['z', 'h']);
        assert("en"@ =~= seq!['e', 'n']);
    }
    if let Some(x) = x_lang {
        if same_text(x, "zh") || same_text(x, "en") {
            return LangChoice::Chosen(x.to_owned());
        }
    }
    match accept_language {
        Some(h) => LangChoice::Detect(h.to_owned()),
        None => LangChoice::Detect("en".to_owned()),
    }
}

/// The characters of `s` before the first `c` (all of `s` when it holds
/// none).
pub open spec fn before_first(s: Seq<char>, c: char) -> Seq<char>
    decreases s.len(),
{
    if s.len() == 0 {
        s
    } else if s[0] == c {
        Seq::empty()
    } else {
        seq![s[0]] + before_first(s.drop_first(), c)
    }
}

/// The first item of a comma-separated list: its characters before the
/// first `,`.
fn first_item(f: &str) -> (r: String)
    ensures
        r@ == before_first(f@, ','),
{
    let v = crate::text::chars_of(f);
    let mut i: usize = 0;
    assert(v@.skip(0) =~= v@);
    assert(v@.take(0) + v@ =~= v@);
    while i < v.len() && v[i] != ','
        invariant
            i <= v@.len(),
            before_first(v@, ',') == v@.take(i as int) + before_first(v@.skip(i as int), ','),
        decreases v@.len() - i,
    {
        assert(v@.skip(i as int).drop_first() =~= v@.skip(i + 1));
        assert(v@.take(i + 1) =~= v@.take(i as int) + seq![v@[i as int]]);
        i = i + 1;
    }
    assert(before_first(v@.skip(i as int), ',') =~= Seq::<char>::empty());
    assert(v@.take(i as int) =~= v@.subrange(0, i as int));
    let mut first = String::new();
    crate::text::push_range(&mut first, &v, 0, i);
    first
}

/// Whether an `Accept-Language` value prefers Chinese: its first item,
/// trimmed, begins with `zh` in either case.
pub open spec fn prefers_chinese(a: Seq<char>) -> bool {
    let f = trim(before_first(a, ','));
    f.len() >= 2 && (f[0] == 'z' || f[0] == 'Z') && (f[1] == 'h' || f[1] == 'H')
}

/// The supported language an `Accept-Language` value is detected as: `zh`
/// when it prefers Chinese, otherwise `en`.
pub fn detect_lang(accept_language: &str) -> (l: String)
    ensures
        l@ == (if prefers_chinese(accept_language@) {
            seq!['z', 'h']
        } else {
            seq!['e', 'n']
        }),
{
    proof {
        reveal_strlit("zh");
        reveal_strlit("en");
    }
    let first = trimmed(first_item(accept_language).as_str());
    let v = crate::text::chars_of(first.as_str());
    if v.len() >= 2 && (v[0] == 'z' || v[0] == 'Z') && (v[1] == 'h' || v[1] == 'H') {
        "zh".to_owned()
    } else {
        "en".to_owned()
    }
}

/// The key a client is throttled under: the first address of the
/// `X-Forwarded-For` header, trimmed, when the header is present; otherwise
/// the peer's IP address, or nothing.
pub fn client_key(forwarded_for: Option<&str>, peer_ip: Option<&str>) -> (k: String)
    ensures
        match forwarded_for {
            Some(f) => k@ == trim(before_first(f@, ',')),
            None => k@ == match peer_ip {
                Some(p) => p@,
                None => Seq::<char>::empty(),
            },
        },
{
    match forwarded_for {
        Some(f) => trimmed(first_item(f).as_str()),
        None => match peer_ip {
            Some(p) => p.to_owned(),
            None => String::new(),
        },
    }
}

/// The placeholder for the author in the index page.
pub open spec fn author_placeholder() -> Seq<char> {
    "AUTHOR_PLACEHOLDER"@
}

/// The placeholder for the version in the index page.
pub open spec fn version_placeholder() -> Seq<char> {
    "VERSION_PLACEHOLDER"@
}

/// The index page: the template with the author and then the version filled
/// in for their placeholders.
pub fn render_index(template: &str, author: &str, version: &str) -> (page: String)
    ensures
        page@ == replace_all(
            replace_all(template@, author_placeholder(), author@),
            version_placeholder(),
            version@,
        ),
{
    proof {
        reveal_strlit("AUTHOR_PLACEHOLDER");
        reveal_strlit("VERSION_PLACEHOLDER");
    }
    let with_author = replaced(template, "AUTHOR_PLACEHOLDER", author);
    replaced(with_author.as_str(), "VERSION_PLACEHOLDER", version)
}

/// The MIME type that mime_guess gives a path (by its extension).
pub uninterp spec fn guessed_mime_type(path: Seq<char>) -> Seq<char>;

/// `application/octet-stream`, the type of a file without a known extension.
pub open spec fn octet_stream() -> Seq<char> {
    "application/octet-stream"@
}

/// `mime_guess::from_path(..).first_or_octet_stream()`, written out: the
/// result is the guessed type of the path; a path without an extension (or
/// with an empty one) is guessed as `application/octet-stream`, as the guess
/// only looks at `Path::extension`.
#[verifier::external_body]
fn guess_mime_type(path: &str) -> (m: String)
    ensures
        m@ == guessed_mime_type(path@),
        crate::files::stem_and_extension(path@).1.len() == 0 ==> m@ == octet_stream(),
{
    mime_guess::from_path(path).first_or_octet_stream().to_string()
}

/// The headers of a download response.
pub struct DownloadHeaders {
    /// `Content-Type`.
    pub content_type: String,
    /// `Content-Disposition`.
    pub disposition: String,
    /// `Content-Length`.
    pub length: String,
}

/// `attachment; filename="NAME"`.
pub open spec fn attachment(name: Seq<char>) -> Seq<char> {
    "attachment; filename=\""@ + name + seq!['"']
}

/// The headers for sending the file `filename` of `len` bytes: its guessed
/// type, as an attachment under its name, and its length in decimal.
pub fn download_headers(filename: &str, len: u64) -> (h: DownloadHeaders)
    ensures
        h.content_type@ == guessed_mime_type(filename@),
        h.disposition@ == attachment(filename@),
        h.length@ == crate::text::decimal(len as nat),
{
    let content_type = guess_mime_type(filename);
    let mut disposition = String::new();
    crate::text::push_str(&mut disposition, "attachment; filename=\"");
    crate::text::push_str(&mut disposition, filename);
    crate::text::push_char(&mut disposition, '"');
    let mut length = String::new();
    crate::text::push_decimal(&mut length, len);
    assert(length@ =~= crate::text::decimal(len as nat));
    DownloadHeaders { content_type, disposition, length }
}

} // verus!
