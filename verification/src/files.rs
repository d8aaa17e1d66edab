//! Names of uploaded files: how a client's file name is made safe, which
//! name an upload is stored under when the name is taken, and the order in
//! which stored files are listed.

use crate::text::chars_of;
use crate::text::decimal;
use crate::text::push_char;
use crate::text::push_decimal;
use crate::text::push_range;
use vstd::prelude::*;

verus! {

broadcast use vstd::string::group_string_axioms;

/// Largest number that is tried as a suffix before the name itself is
/// given up on (the largest `i32`).
pub const LAST_SUFFIX: u32 = 2147483647;

/// Position of the last `c` in `s`, or -1 when `s` holds none.
pub open spec fn last_index_of(s: Seq<char>, c: char) -> int
    decreases s.len(),
{
    if s.len() == 0 {
        -1
    } else if s.last() == c {
        s.len() - 1
    } else {
        last_index_of(s.drop_last(), c)
    }
}

/// Bounds of [`last_index_of`]: the position lies in `s` (or is -1), holds `c`,
/// and no later position does.
pub proof fn lemma_last_index_of(s: Seq<char>, c: char)
    ensures
        -1 <= last_index_of(s, c) < s.len(),
        last_index_of(s, c) >= 0 ==> s[last_index_of(s, c)] == c,
        forall|k: int| last_index_of(s, c) < k < s.len() ==> s[k] != c,
    decreases s.len(),
{
    if s.len() > 0 && s.last() != c {
        let init = s.drop_last();
        lemma_last_index_of(init, c);
        assert forall|k: int| last_index_of(s, c) < k < s.len() implies s[k] != c by {
            if k < s.len() - 1 {
                assert(s[k] == init[k]);
            }
        }
    }
}

/// The last component of the path `p` when it is a file name, as
/// `Path::file_name` gives it: trailing slashes and `.` components are
/// passed over, and a path that ends in `..` or has no normal component has
/// none.
pub open spec fn path_file_name(p: Seq<char>) -> Option<Seq<char>>
    decreases p.len(),
{
    if p.len() == 0 {
        None
    } else if p.last() == '/' {
        path_file_name(p.drop_last())
    } else {
        let cut = last_index_of(p, '/');
        let seg = p.skip(cut + 1);
        if seg == seq!['.'] {
            if cut < 0 {
                None
            } else {
                proof {
                    lemma_last_index_of(p, '/');
                }
                path_file_name(p.take(cut))
            }
        } else if seg == seq!['.', '.'] {
            None
        } else {
            Some(seg)
        }
    }
}

/// The stem and the extension of the file name of `p`, as
/// `Path::file_stem` and `Path::extension` give them, each empty when
/// absent: the extension follows the last dot, unless that dot opens the
/// name.
pub open spec fn stem_and_extension(p: Seq<char>) -> (Seq<char>, Seq<char>) {
    match path_file_name(p) {
        None => (Seq::empty(), Seq::empty()),
        Some(f) => {
            let d = last_index_of(f, '.');
            if d <= 0 {
                (f, Seq::empty())
            } else {
                (f.take(d), f.skip(d + 1))
            }
        },
    }
}

/// The name tried at `attempt` for an upload named `name`: the name itself
/// first, then `stem-N.ext` (or `stem-N` without an extension) for N = 2, 3, ...
pub open spec fn candidate(name: Seq<char>, attempt: nat) -> Seq<char> {
    if attempt <= 1 {
        name
    } else {
        let (stem, ext) = stem_and_extension(name);
        if ext.len() == 0 {
            stem + seq!['-'] + decimal(attempt)
        } else {
            stem + seq!['-'] + decimal(attempt) + seq!['.'] + ext
        }
    }
}

/// Position of the last `c` in `v[from..to]`, relative to `from`.
fn last_index_in(v: &Vec<char>, from: usize, to: usize, c: char) -> (r: Option<usize>)
    requires
        from <= to <= v@.len(),
    ensures
        match r {
            None => last_index_of(v@.subrange(from as int, to as int), c) == -1,
            Some(d) => last_index_of(v@.subrange(from as int, to as int), c) == d && d < to
                - from,
        },
{
    let mut i = to;
    while i > from
        invariant
            from <= i <= to <= v@.len(),
            last_index_of(v@.subrange(from as int, to as int), c) == last_index_of(
                v@.subrange(from as int, i as int),
                c,
            ),
        decreases i,
    {
        if v[i - 1] == c {
            return Some(i - 1 - from);
        }
        assert(v@.subrange(from as int, i as int).drop_last() =~= v@.subrange(
            from as int,
            i - 1,
        ));
        i = i - 1;
    }
    None
}

/// The range of the file name of the path `p`, see [`path_file_name`].
fn file_name_range(p: &Vec<char>) -> (r: Option<(usize, usize)>)
    ensures
        match r {
            None => path_file_name(p@) is None,
            Some((s, e)) => s <= e <= p@.len() && path_file_name(p@) == Some(
                p@.subrange(s as int, e as int),
            ),
        },
{
    let mut end = p.len();
    assert(p@.take(end as int) =~= p@);
    loop
        invariant
            end <= p@.len(),
            path_file_name(p@) == path_file_name(p@.take(end as int)),
        decreases end,
    {
        let ghost q = p@.take(end as int);
        if end == 0 {
            return None;
        }
        if p[end - 1] == '/' {
            assert(q.drop_last() =~= p@.take(end - 1));
            end = end - 1;
        } else {
            assert(p@.subrange(0, end as int) =~= q);
            let start = match last_index_in(p, 0, end, '/') {
                None => 0,
                Some(k) => k + 1,
            };
            let ghost cut = last_index_of(q, '/');
            assert(cut == start - 1);
            assert(q.skip(cut + 1) =~= p@.subrange(start as int, end as int));
            let len = end - start;
            if len == 1 && p[start] == '.' {
                assert(q.skip(cut + 1) =~= seq!['.']);
                if start == 0 {
                    return None;
                }
                assert(q.take(cut) =~= p@.take(start - 1));
                end = start - 1;
            } else if len == 2 && p[start] == '.' && p[start + 1] == '.' {
                assert(q.skip(cut + 1) =~= seq!['.', '.']);
                return None;
            } else {
                assert(q.skip(cut + 1) != seq!['.']) by {
                    if len == 1 {
                        assert(q.skip(cut + 1)[0] != '.');
                    }
                }
                assert(q.skip(cut + 1) != seq!['.', '.']) by {
                    if len == 2 {
                        assert(q.skip(cut + 1)[0] != '.' || q.skip(cut + 1)[1] != '.');
                    }
                }
                return Some((start, end));
            }
        }
    }
}

/// The name tried at `attempt` for an upload named `filename`, see
/// [`candidate`].
pub fn candidate_name(filename: &str, attempt: u32) -> (n: String)
    ensures
        n@ == candidate(filename@, attempt as nat),
{
    if attempt <= 1 {
        return filename.to_owned();
    }
    let v = chars_of(filename);
    let mut stem_from: usize = 0;
    let mut stem_to: usize = 0;
    let mut ext_from: usize = 0;
    let mut ext_to: usize = 0;
    match file_name_range(&v) {
        None => {},
        Some((s, e)) => {
            let ghost f = v@.subrange(s as int, e as int);
            match last_index_in(&v, s, e, '.') {
                Some(d) if d > 0 => {
                    stem_from = s;
                    stem_to = s + d;
                    ext_from = s + d + 1;
                    ext_to = e;
                    assert(f.take(d as int) =~= v@.subrange(stem_from as int, stem_to as int));
                    assert(f.skip(d + 1) =~= v@.subrange(ext_from as int, ext_to as int));
                },
                _ => {
                    stem_from = s;
                    stem_to = e;
                },
            }
        },
    }
    let ghost parts = stem_and_extension(filename@);
    assert(parts.0 =~= v@.subrange(stem_from as int, stem_to as int));
    assert(parts.1 =~= v@.subrange(ext_from as int, ext_to as int));
    let mut n = String::new();
    push_range(&mut n, &v, stem_from, stem_to);
    push_char(&mut n, '-');
    push_decimal(&mut n, attempt as u64);
    if ext_to > ext_from {
        push_char(&mut n, '.');
        push_range(&mut n, &v, ext_from, ext_to);
    }
    n
}

/// What the search for a free name does next.
pub enum PathStep {
    /// Ask whether this name, the candidate of the given attempt, is taken.
    Probe(String, u32),
    /// Store the upload under this name.
    Settle(String),
}

/// Whether `n` names an entry directly inside a directory: it is not empty,
/// holds neither `/` nor `\\`, and is neither `.` nor `..`.
pub open spec fn is_safe_name(n: Seq<char>) -> bool {
    &&& n.len() > 0
    &&& !n.contains('/')
    &&& !n.contains('\\')
    &&& n != seq!['.']
    &&& n != seq!['.', '.']
}

/// Whether `name` names an entry directly inside a directory, see
/// [`is_safe_name`].
pub fn safe_file_name(name: &str) -> (b: bool)
    ensures
        b == is_safe_name(name@),
{
    let v = chars_of(name);
    let n = v.len();
    let mut i: usize = 0;
    while i < n
        invariant
            n == v@.len(),
            v@ == name@,
            i <= n,
            forall|k: int| 0 <= k < i ==> v@[k] != '/' && v@[k] != '\\',
        decreases n - i,
    {
        if v[i] == '/' {
            assert(v@[i as int] == '/');
            assert(v@.contains('/'));
            return false;
        }
        if v[i] == '\\' {
            assert(v@[i as int] == '\\');
            assert(v@.contains('\\'));
            return false;
        }
        i = i + 1;
    }
    assert(!v@.contains('/') && !v@.contains('\\'));
    if n == 0 {
        return false;
    }
    if n == 1 && v[0] == '.' {
        assert(v@ =~= seq!['.']);
        return false;
    }
    if n == 2 && v[0] == '.' && v[1] == '.' {
        assert(v@ =~= seq!['.', '.']);
        return false;
    }
    assert(v@ != seq!['.']) by {
        if n == 1 {
            assert(v@[0] != seq!['.'][0]);
        }
    }
    assert(v@ != seq!['.', '.']) by {
        if n == 2 {
            assert(v@[0] != '.' || v@[1] != '.');
        }
    }
    true
}

/// Whether the candidate of `attempt` cannot be used: it is reported taken,
/// or does not name an entry directly inside the upload directory.
pub open spec fn unusable(name: Seq<char>, attempt: nat, reported_taken: bool) -> bool {
    reported_taken || !is_safe_name(candidate(name, attempt))
}

/// One step of the search for a name under which an upload named `filename`
/// can be stored without overwriting a file and without leaving the upload
/// directory. The candidates are those of the name made safe (path
/// separators replaced by `_`, see [`without_separators`]). Told whether the
/// candidate of `attempt` is taken, the step settles on that candidate when
/// it is free and names an entry of the directory, and otherwise asks about
/// the next one. After the last suffix it falls back to the safe name itself.
pub fn find_available_path(filename: &str, attempt: u32, exists: bool) -> (s: PathStep)
    requires
        1 <= attempt <= LAST_SUFFIX,
    ensures
        !unusable(without_separators(filename@), attempt as nat, exists) ==> (s matches PathStep::Settle(
            n,
        ) && n@ == candidate(without_separators(filename@), attempt as nat)),
        unusable(without_separators(filename@), attempt as nat, exists) && attempt < LAST_SUFFIX
            ==> (s matches PathStep::Probe(n, a) && a == attempt + 1 && n@ == candidate(
            without_separators(filename@),
            a as nat,
        )),
        unusable(without_separators(filename@), attempt as nat, exists) && attempt == LAST_SUFFIX
            ==> (s matches PathStep::Settle(n) && n@ == without_separators(filename@)),
{
    let safe = upload_file_name(Some(filename));
    let current = candidate_name(safe.as_str(), attempt);
    if !exists && safe_file_name(current.as_str()) {
        PathStep::Settle(current)
    } else if attempt < LAST_SUFFIX {
        let next = attempt + 1;
        PathStep::Probe(candidate_name(safe.as_str(), next), next)
    } else {
        PathStep::Settle(safe)
    }
}

/// The name that the search settles on when the names of `taken` are the
/// ones reported taken, starting at `attempt`.
pub open spec fn search_from(name: Seq<char>, taken: Set<Seq<char>>, attempt: nat) -> Seq<char>
    decreases LAST_SUFFIX - attempt,
{
    let c = candidate(name, attempt);
    if !taken.contains(c) && is_safe_name(c) {
        c
    } else if attempt < LAST_SUFFIX {
        search_from(name, taken, attempt + 1)
    } else {
        name
    }
}

/// Answering each step of the search from the same set of taken names, the
/// search settles on [`search_from`] that set: a `Settle` gives it, a
/// `Probe` leads to the same name.
pub proof fn lemma_search_steps(name: Seq<char>, taken: Set<Seq<char>>, attempt: nat)
    requires
        1 <= attempt <= LAST_SUFFIX,
    ensures
        !unusable(name, attempt, taken.contains(candidate(name, attempt))) ==> search_from(
            name,
            taken,
            attempt,
        ) == candidate(name, attempt),
        unusable(name, attempt, taken.contains(candidate(name, attempt))) && attempt < LAST_SUFFIX
            ==> search_from(name, taken, attempt) == search_from(name, taken, attempt + 1),
        unusable(name, attempt, taken.contains(candidate(name, attempt))) && attempt == LAST_SUFFIX
            ==> search_from(name, taken, attempt) == name,
{
}

/// Uploads overwrite nothing and stay in the upload directory: when some
/// candidate from `attempt` on is free and names an entry of the directory,
/// the search settles on such a name, which is not taken; the name itself is
/// used only when every candidate up to the last suffix is taken.
pub proof fn lemma_search_finds_free_name(
    name: Seq<char>,
    taken: Set<Seq<char>>,
    attempt: nat,
    free: nat,
)
    requires
        1 <= attempt <= free <= LAST_SUFFIX,
        !taken.contains(candidate(name, free)),
        is_safe_name(candidate(name, free)),
    ensures
        !taken.contains(search_from(name, taken, attempt)),
        is_safe_name(search_from(name, taken, attempt)),
    decreases free - attempt,
{
    if attempt < free {
        let c = candidate(name, attempt);
        if taken.contains(c) || !is_safe_name(c) {
            lemma_search_finds_free_name(name, taken, attempt + 1, free);
        }
    }
}

/// The suffixed candidates of `name` up to attempt `n`.
spec fn suffixed_candidates(name: Seq<char>, n: nat) -> Set<Seq<char>>
    decreases n,
{
    if n < 2 {
        Set::empty()
    } else {
        suffixed_candidates(name, (n - 1) as nat).insert(candidate(name, n))
    }
}

proof fn lemma_suffixed_candidates(name: Seq<char>, n: nat)
    ensures
        suffixed_candidates(name, n).finite(),
        n >= 1 ==> suffixed_candidates(name, n).len() == n - 1,
        forall|c: Seq<char>| #[trigger]
            suffixed_candidates(name, n).contains(c) ==> exists|k: nat|
                2 <= k <= n && c == #[trigger] candidate(name, k),
    decreases n,
{
    broadcast use vstd::set::group_set_axioms;

    if n >= 2 {
        let prev = suffixed_candidates(name, (n - 1) as nat);
        lemma_suffixed_candidates(name, (n - 1) as nat);
        if prev.contains(candidate(name, n)) {
            let k = choose|k: nat| 2 <= k <= n - 1 && candidate(name, n) == #[trigger] candidate(
                name,
                k,
            );
            lemma_suffixed_candidates_differ(name, k, n);
        }
        assert forall|c: Seq<char>| #[trigger]
            suffixed_candidates(name, n).contains(c) implies exists|k: nat|
                2 <= k <= n && c == #[trigger] candidate(name, k) by {
            if c != candidate(name, n) {
                assert(prev.contains(c));
            }
        }
    }
}

/// A suffixed candidate of a name without separators names an entry
/// directly inside a directory.
proof fn lemma_suffixed_candidate_safe(raw: Seq<char>, k: nat)
    requires
        k >= 2,
    ensures
        is_safe_name(candidate(without_separators(raw), k)),
{
    lemma_stored_name_has_no_separator(raw, k);
    let s = without_separators(raw);
    let (stem, ext) = stem_and_extension(s);
    let c = candidate(s, k);
    crate::text::lemma_decimal_digits(k);
    assert(c[stem.len() as int] == '-');
    assert(c.len() >= 2);
    assert(c != seq!['.', '.']) by {
        if c.len() == 2 {
            assert(seq!['.', '.'][stem.len() as int] == '.');
        }
    }
}

/// Uploads never overwrite a file and stay in the upload directory: when
/// the names `taken` present there are fewer than the suffixes that can be
/// tried, the search for an upload named `raw` (made safe) from the first
/// attempt settles on a name that is not taken and names an entry directly
/// inside the directory. Every upload of a request adds its name to the
/// names present, so the names of one request are pairwise different too.
pub proof fn lemma_upload_never_overwrites(raw: Seq<char>, taken: Set<Seq<char>>)
    requires
        taken.finite(),
        taken.len() < LAST_SUFFIX - 1,
    ensures
        !taken.contains(search_from(without_separators(raw), taken, 1)),
        is_safe_name(search_from(without_separators(raw), taken, 1)),
{
    let name = without_separators(raw);
    let all = suffixed_candidates(name, LAST_SUFFIX as nat);
    lemma_suffixed_candidates(name, LAST_SUFFIX as nat);
    if all.subset_of(taken) {
        vstd::set_lib::lemma_len_subset(all, taken);
        assert(false);
    }
    let c = choose|c: Seq<char>| all.contains(c) && !taken.contains(c);
    let k = choose|k: nat| 2 <= k <= LAST_SUFFIX && c == #[trigger] candidate(name, k);
    lemma_suffixed_candidate_safe(raw, k);
    lemma_search_finds_free_name(name, taken, 1, k);
}

/// The name an upload is given when the client sends none.
pub open spec fn default_upload_name() -> Seq<char> {
    seq!['f', 'i', 'l', 'e']
}

/// `s` with every `/` and `\` replaced by `_`.
pub open spec fn without_separators(s: Seq<char>) -> Seq<char> {
    Seq::new(s.len(), |i: int| if s[i] == '/' || s[i] == '\\' { '_' } else { s[i] })
}

/// The name an upload is stored under before collisions are looked at: the
/// client's file name (`file` when there is none) with path separators
/// replaced by `_`.
pub fn upload_file_name(raw: Option<&str>) -> (n: String)
    ensures
        n@ == without_separators(
            match raw {
                Some(r) => r@,
                None => default_upload_name(),
            },
        ),
{
    let name: &str = match raw {
        Some(r) => r,
        None => "file",
    };
    proof {
        reveal_strlit("file");
    }
    let v = chars_of(name);
    let mut n = String::new();
    let mut i: usize = 0;
    while i < v.len()
        invariant
            i <= v@.len(),
            n@ =~= without_separators(v@).take(i as int),
        decreases v@.len() - i,
    {
        let c = v[i];
        if c == '/' || c == '\\' {
            push_char(&mut n, '_');
        } else {
            push_char(&mut n, c);
        }
        i = i + 1;
    }
    assert(without_separators(v@).take(v@.len() as int) =~= without_separators(v@));
    n
}

/// A stored file as the listing shows it.
pub struct FileInfo {
    pub name: String,
    pub size: u64,
    /// Local modification time, written `YYYY-MM-DD HH:MM:SS`.
    pub modified: String,
}

/// Whether `a` comes before `b` in lexicographic order of characters, the
/// order of `String` (UTF-8 preserves the order of code points).
pub open spec fn lex_lt(a: Seq<char>, b: Seq<char>) -> bool
    decreases a.len(),
{
    if a.len() == 0 {
        b.len() > 0
    } else if b.len() == 0 {
        false
    } else if a[0] != b[0] {
        (a[0] as int) < (b[0] as int)
    } else {
        lex_lt(a.drop_first(), b.drop_first())
    }
}

proof fn lemma_lex_irreflexive(a: Seq<char>)
    ensures
        !lex_lt(a, a),
    decreases a.len(),
{
    if a.len() > 0 {
        lemma_lex_irreflexive(a.drop_first());
    }
}

proof fn lemma_lex_asymmetric(a: Seq<char>, b: Seq<char>)
    ensures
        lex_lt(a, b) ==> !lex_lt(b, a),
    decreases a.len(),
{
    if a.len() > 0 && b.len() > 0 {
        lemma_lex_asymmetric(a.drop_first(), b.drop_first());
    }
}

proof fn lemma_lex_total(a: Seq<char>, b: Seq<char>)
    ensures
        a != b ==> lex_lt(a, b) || lex_lt(b, a),
    decreases a.len(),
{
    if a.len() == 0 && b.len() == 0 {
        assert(a =~= b);
    }
    if a.len() > 0 && b.len() > 0 {
        lemma_lex_total(a.drop_first(), b.drop_first());
        if a != b && a[0] == b[0] {
            assert(a =~= seq![a[0]] + a.drop_first());
            assert(b =~= seq![b[0]] + b.drop_first());
        }
        if a[0] != b[0] {
            assert((a[0] as int) != (b[0] as int));
        }
    }
}

proof fn lemma_lex_transitive(a: Seq<char>, b: Seq<char>, c: Seq<char>)
    ensures
        lex_lt(a, b) && lex_lt(b, c) ==> lex_lt(a, c),
    decreases a.len(),
{
    if a.len() > 0 && b.len() > 0 && c.len() > 0 {
        lemma_lex_transitive(a.drop_first(), b.drop_first(), c.drop_first());
    }
}

/// Lexicographic order is a strict total order.
pub proof fn lemma_lex_order(a: Seq<char>, b: Seq<char>, c: Seq<char>)
    ensures
        !lex_lt(a, a),
        lex_lt(a, b) ==> !lex_lt(b, a),
        a != b ==> lex_lt(a, b) || lex_lt(b, a),
        lex_lt(a, b) && lex_lt(b, c) ==> lex_lt(a, c),
{
    lemma_lex_irreflexive(a);
    lemma_lex_asymmetric(a, b);
    lemma_lex_total(a, b);
    lemma_lex_transitive(a, b, c);
}

/// The order of listing times is the order of `String`: when `a` and `b`
/// agree on their first `i` characters, `a` comes first exactly when its
/// character at `i` has the smaller code point (where both have one and
/// they differ), or when it ends at `i` and `b` goes on; a text never comes
/// before one of its prefixes.
pub proof fn lemma_lex_first_difference(a: Seq<char>, b: Seq<char>, i: int)
    requires
        0 <= i <= a.len(),
        i <= b.len(),
        a.take(i) == b.take(i),
    ensures
        i < a.len() && i < b.len() && a[i] != b[i] ==> (lex_lt(a, b) <==> (a[i] as int) < (
        b[i] as int)),
        i == a.len() ==> (lex_lt(a, b) <==> i < b.len()),
        i == b.len() && i < a.len() ==> !lex_lt(a, b),
    decreases i,
{
    if i > 0 {
        assert(a[0] == a.take(i)[0] && b[0] == b.take(i)[0]);
        assert(a.drop_first().take(i - 1) =~= a.take(i).drop_first());
        assert(b.drop_first().take(i - 1) =~= b.take(i).drop_first());
        lemma_lex_first_difference(a.drop_first(), b.drop_first(), i - 1);
        if i < a.len() {
            assert(a.drop_first()[i - 1] == a[i]);
        }
        if i < b.len() {
            assert(b.drop_first()[i - 1] == b[i]);
        }
    }
}

/// On single characters the order is that of their code points.
pub proof fn lemma_lex_single_chars(c: char, d: char)
    ensures
        lex_lt(seq![c], seq![d]) == ((c as int) < (d as int)),
{
    if c == d {
        lemma_lex_irreflexive(seq![c]);
    } else {
        assert(seq![c].take(0) =~= seq![d].take(0));
        lemma_lex_first_difference(seq![c], seq![d], 0);
    }
}

/// Whether `a` comes before `b` in lexicographic order.
fn text_before(a: &String, b: &String) -> (r: bool)
    ensures
        r == lex_lt(a@, b@),
{
    let x = chars_of(a.as_str());
    let y = chars_of(b.as_str());
    let mut i: usize = 0;
    assert(x@.skip(0) =~= x@);
    assert(y@.skip(0) =~= y@);
    while i < x.len() && i < y.len() && x[i] == y[i]
        invariant
            i <= x@.len(),
            i <= y@.len(),
            lex_lt(x@, y@) == lex_lt(x@.skip(i as int), y@.skip(i as int)),
        decreases x@.len() - i,
    {
        assert(x@.skip(i as int).drop_first() =~= x@.skip(i + 1));
        assert(y@.skip(i as int).drop_first() =~= y@.skip(i + 1));
        i = i + 1;
    }
    if i == x.len() {
        i < y.len()
    } else if i == y.len() {
        false
    } else {
        assert(x@.skip(i as int)[0] == x@[i as int]);
        assert(y@.skip(i as int)[0] == y@[i as int]);
        x[i] < y[i]
    }
}

/// Whether `out` lists the newest files first (the larger time first).
pub open spec fn newest_first(out: Seq<FileInfo>) -> bool {
    forall|i: int, j: int|
        0 <= i < j < out.len() ==> !lex_lt(#[trigger] out[i].modified@, #[trigger] out[j].modified@)
}

/// Whether `out` is `inp` rearranged by `p` (`out[i]` is `inp[p[i]]`), with
/// files of equal time kept in their input order.
pub open spec fn stable_arrangement(out: Seq<FileInfo>, inp: Seq<FileInfo>, p: Seq<int>) -> bool {
    &&& p.len() == out.len()
    &&& out.len() == inp.len()
    &&& forall|i: int| 0 <= i < out.len() ==> 0 <= #[trigger] p[i] < inp.len() && out[i] == inp[p[i]]
    &&& forall|i: int, j: int| 0 <= i < j < out.len() ==> #[trigger] p[i] != #[trigger] p[j]
    &&& forall|i: int, j: int|
        0 <= i < j < out.len() && out[i].modified@ == out[j].modified@ ==> #[trigger] p[i]
            < #[trigger] p[j]
}

/// The files of the listing, newest first; files with the same time keep
/// their order (a stable sort, as `sort_by` on the reversed comparison).
pub fn sort_newest_first(entries: Vec<FileInfo>) -> (out: Vec<FileInfo>)
    ensures
        newest_first(out@),
        exists|p: Seq<int>| stable_arrangement(out@, entries@, p),
{
    let ghost inp = entries@;
    let mut rest = entries;
    let mut out: Vec<FileInfo> = Vec::new();
    let ghost mut p: Seq<int> = Seq::empty();
    let n = rest.len();
    let mut k: usize = 0;
    while k < n
        invariant
            n == inp.len(),
            k <= n,
            rest@ == inp.skip(k as int),
            newest_first(out@),
            stable_arrangement(out@, inp.take(k as int), p),
        decreases n - k,
    {
        let x = rest.remove(0);
        assert(x == inp[k as int]);
        let mut pos: usize = 0;
        while pos < out.len() && !text_before(&out[pos].modified, &x.modified)
            invariant
                pos <= out@.len(),
                forall|i: int| 0 <= i < pos ==> !lex_lt(#[trigger] out@[i].modified@, x.modified@),
            decreases out@.len() - pos,
        {
            pos = pos + 1;
        }
        let ghost old_out = out@;
        let ghost old_p = p;
        proof {
            assert forall|j: int| pos <= j < old_out.len() implies lex_lt(
                #[trigger] old_out[j].modified@,
                x.modified@,
            ) by {
                let a = old_out[pos as int].modified@;
                let b = old_out[j].modified@;
                lemma_lex_order(b, a, x.modified@);
                if j > pos {
                    assert(!lex_lt(a, b));
                    lemma_lex_order(a, b, a);
                }
            }
        }
        out.insert(pos, x);
        proof {
            p = old_p.insert(pos as int, k as int);
            let ghost ti = inp.take(k + 1);
            assert(ti =~= inp.take(k as int).push(x));
            assert forall|i: int, j: int| 0 <= i < j < out@.len() implies !lex_lt(
                #[trigger] out@[i].modified@,
                #[trigger] out@[j].modified@,
            ) by {
                if i == pos {
                    lemma_lex_order(out@[j].modified@, x.modified@, x.modified@);
                } else if j == pos {
                } else {
                    let i0 = if i < pos { i } else { i - 1 };
                    let j0 = if j < pos { j } else { j - 1 };
                    assert(out@[i] == old_out[i0]);
                    assert(out@[j] == old_out[j0]);
                }
            }
            assert forall|i: int| 0 <= i < out@.len() implies 0 <= #[trigger] p[i] < ti.len()
                && out@[i] == ti[p[i]] by {
                if i < pos {
                    assert(out@[i] == old_out[i]);
                } else if i > pos {
                    assert(out@[i] == old_out[i - 1]);
                }
            }
            assert forall|i: int, j: int| 0 <= i < j < out@.len() implies #[trigger] p[i]
                != #[trigger] p[j] by {
                if i != pos && j != pos {
                    let i0 = if i < pos { i } else { i - 1 };
                    let j0 = if j < pos { j } else { j - 1 };
                    assert(p[i] == old_p[i0]);
                    assert(p[j] == old_p[j0]);
                } else if i == pos {
                    let j0 = j - 1;
                    assert(p[j] == old_p[j0]);
                } else {
                    assert(p[i] == old_p[i]);
                }
            }
            assert forall|i: int, j: int|
                0 <= i < j < out@.len() && out@[i].modified@ == out@[j].modified@ implies #[trigger] p[i]
                < #[trigger] p[j] by {
                if i != pos && j != pos {
                    let i0 = if i < pos { i } else { i - 1 };
                    let j0 = if j < pos { j } else { j - 1 };
                    assert(p[i] == old_p[i0]);
                    assert(p[j] == old_p[j0]);
                    assert(out@[i] == old_out[i0]);
                    assert(out@[j] == old_out[j0]);
                } else if i == pos {
                    assert(out@[j] == old_out[j - 1]);
                    lemma_lex_order(x.modified@, x.modified@, x.modified@);
                } else {
                    assert(p[i] == old_p[i]);
                }
            }
            assert(rest@ =~= inp.skip(k + 1));
        }
        k = k + 1;
    }
    assert(inp.take(n as int) =~= inp);
    out
}

#[verifier::spinoff_prover]
#[verifier::rlimit(100)]
proof fn lemma_no_sep_parts(s: Seq<char>, c: char)
    requires
        !s.contains('/'),
        !s.contains(c),
    ensures
        !stem_and_extension(s).0.contains(c),
        !stem_and_extension(s).1.contains(c),
{
    lemma_last_index_of(s, '/');
    let cut = last_index_of(s, '/');
    if cut >= 0 {
        assert(s.contains(s[cut]));
    }
    if s.len() > 0 {
        assert(s.contains(s.last()));
        assert(s.skip(cut + 1) =~= s);
    }
    match path_file_name(s) {
        None => {},
        Some(f) => {
            assert(f == s);
            let d = last_index_of(f, '.');
            lemma_last_index_of(f, '.');
            assert forall|k: int| 0 <= k < f.len() implies #[trigger] f[k] != c by {
                assert(s.contains(s[k]));
            }
            if d > 0 {
                assert forall|k: int| 0 <= k < f.take(d).len() implies #[trigger] f.take(d)[k]
                    != c by {
                    assert(f.take(d)[k] == f[k]);
                }
                assert forall|k: int| 0 <= k < f.skip(d + 1).len() implies #[trigger] f.skip(
                    d + 1,
                )[k] != c by {
                    assert(f.skip(d + 1)[k] == f[d + 1 + k]);
                }
            }
        },
    }
}

/// Uploads cannot leave the upload directory by their names: every name an
/// upload may be stored under (any candidate of its made-safe name) holds
/// neither `/` nor `\`.
pub proof fn lemma_stored_name_has_no_separator(raw: Seq<char>, attempt: nat)
    ensures
        !candidate(without_separators(raw), attempt).contains('/'),
        !candidate(without_separators(raw), attempt).contains('\\'),
{
    let s = without_separators(raw);
    assert(!s.contains('/'));
    assert(!s.contains('\\'));
    if attempt > 1 {
        lemma_no_sep_parts(s, '/');
        lemma_no_sep_parts(s, '\\');
        crate::text::lemma_decimal_digits(attempt);
        let (stem, ext) = stem_and_extension(s);
        let ds = seq!['0', '1', '2', '3', '4', '5', '6', '7', '8', '9'];
        let dec = decimal(attempt);
        let n = candidate(s, attempt);
        assert forall|k: int| 0 <= k < n.len() implies #[trigger] n[k] != '/' && n[k] != '\\' by {
            if k < stem.len() {
                assert(stem.contains(stem[k]));
            } else if k == stem.len() {
            } else if k < stem.len() + 1 + dec.len() {
                let j = k - stem.len() - 1;
                assert(ds.contains(dec[j]));
            } else if k == stem.len() + 1 + dec.len() {
            } else {
                let j = k - stem.len() - 2 - dec.len();
                assert(ext.contains(ext[j]));
            }
        }
    }
}

/// Every attempt after the first tries a name of its own: the suffixed
/// candidates of a name are pairwise different.
pub proof fn lemma_suffixed_candidates_differ(name: Seq<char>, i: nat, j: nat)
    requires
        2 <= i < j,
    ensures
        candidate(name, i) != candidate(name, j),
{
    let (stem, ext) = stem_and_extension(name);
    let pre = stem + seq!['-'];
    let di = decimal(i);
    let dj = decimal(j);
    let post = if ext.len() == 0 { Seq::<char>::empty() } else { seq!['.'] + ext };
    assert(candidate(name, i) =~= pre + di + post);
    assert(candidate(name, j) =~= pre + dj + post);
    if di.len() == dj.len() && candidate(name, i) == candidate(name, j) {
        let ci = pre + di + post;
        assert(ci.subrange(pre.len() as int, (pre.len() + di.len()) as int) =~= di);
        assert((pre + dj + post).subrange(pre.len() as int, (pre.len() + dj.len()) as int) =~= dj);
        crate::text::lemma_decimal_injective(i, j);
    }
}

} // verus!
