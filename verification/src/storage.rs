//! Where a store lives and what its listing holds: storage locations, array names
//! found in listings, the order of array names, and the credentials file.
use vstd::prelude::*;

use crate::dataset::{leading_slashes, slash_path, string_views, strip_leading_slashes};

verus! {

broadcast use vstd::string::group_string_axioms;

/// The characters of a string.
fn chars_of(s: &str) -> (r: Vec<char>)
    ensures
        r@ == s@,
{
    let mut r: Vec<char> = Vec::new();
    for c in it: s.chars()
        invariant
            it.seq() == s@,
            r@ == it.seq().take(it.index()),
    {
        r.push(c);
    }
    r
}

/// `s` begins with `p`.
pub open spec fn starts_with(s: Seq<char>, p: Seq<char>) -> bool {
    p.len() <= s.len() && s.take(p.len() as int) == p
}

/// `s` ends with `p`.
pub open spec fn ends_with(s: Seq<char>, p: Seq<char>) -> bool {
    p.len() <= s.len() && s.skip(s.len() - p.len()) == p
}

/// Whether `s[from..]` begins with `p`.
fn matches_at(s: &Vec<char>, from: usize, p: &Vec<char>) -> (b: bool)
    requires
        from <= s@.len(),
    ensures
        b == starts_with(s@.skip(from as int), p@),
{
    if p.len() > s.len() - from {
        return false;
    }
    let mut i: usize = 0;
    while i < p.len()
        invariant
            from <= s@.len(),
            p@.len() <= s@.len() - from,
            from + p@.len() <= s.len(),
            i <= p@.len(),
            forall|j: int| 0 <= j < i ==> s@[from + j] == p@[j],
        decreases p.len() - i,
    {
        if s[from + i] != p[i] {
            assert(s@.skip(from as int).take(p@.len() as int)[i as int] != p@[i as int]);
            return false;
        }
        i = i + 1;
    }
    assert(s@.skip(from as int).take(p@.len() as int) =~= p@);
    true
}

/// Whether `s` ends with `p`.
fn has_suffix(s: &Vec<char>, p: &Vec<char>) -> (b: bool)
    ensures
        b == ends_with(s@, p@),
{
    if p.len() > s.len() {
        return false;
    }
    let from = s.len() - p.len();
    let b = matches_at(s, from, p);
    assert(s@.skip(from as int).take(p@.len() as int) =~= s@.skip(from as int));
    b
}

/// Position of the first `ch` in `s`, or its length.
pub open spec fn first_index(s: Seq<char>, ch: char) -> int
    decreases s.len(),
{
    if s.len() == 0 {
        0
    } else if s[0] == ch {
        0
    } else {
        1 + first_index(s.drop_first(), ch)
    }
}

/// The listing key names an array's metadata document (`.zarray` or `zarr.json`).
pub open spec fn is_array_metadata_key(key: Seq<char>) -> bool {
    ends_with(key, ".zarray"@) || ends_with(key, "zarr.json"@)
}

/// The key relative to the store's prefix: the key itself when there is no prefix;
/// otherwise the key without the prefix (if it starts with it) and without the
/// leading slashes.
pub open spec fn relative_key(key: Seq<char>, prefix: Seq<char>) -> Seq<char> {
    if prefix.len() == 0 {
        key
    } else {
        strip_leading_slashes(if starts_with(key, prefix) { key.skip(prefix.len() as int) } else { key })
    }
}

/// The array path a listing key reveals: `/` and the key's first path component
/// relative to the prefix, when the key is an array's metadata document and the
/// component is neither empty nor hidden (starting with `.`).
pub open spec fn listed_array_path(key: Seq<char>, prefix: Seq<char>) -> Option<Seq<char>> {
    let rel = relative_key(key, prefix);
    let name = rel.take(first_index(rel, '/'));
    if is_array_metadata_key(key) && name.len() > 0 && name[0] != '.' {
        Some(slash_path(name))
    } else {
        None
    }
}

/// Position of the first `ch` at or after `from`, or the length.
fn find_char(s: &Vec<char>, from: usize, ch: char) -> (r: usize)
    requires
        from <= s@.len(),
    ensures
        from <= r <= s@.len(),
        r - from == first_index(s@.skip(from as int), ch),
{
    let mut i = from;
    assert(s@.skip(from as int).skip(0) == s@.skip(from as int));
    while i < s.len() && s[i] != ch
        invariant
            from <= i <= s@.len(),
            first_index(s@.skip(from as int), ch) == (i - from) + first_index(s@.skip(i as int), ch),
        decreases s.len() - i,
    {
        assert(s@.skip(i as int).drop_first() == s@.skip(i + 1));
        i = i + 1;
    }
    i
}

/// The array path that a key of a store listing reveals, if any (see
/// `listed_array_path`).
pub fn array_path_from_listing_key(key: &str, prefix: &str) -> (r: Option<String>)
    ensures
        match listed_array_path(key@, prefix@) {
            Some(p) => r matches Some(s) && s@ == p,
            None => r is None,
        },
{
    let k = chars_of(key);
    let zarray = chars_of(".zarray");
    let zarr_json = chars_of("zarr.json");
    if !(has_suffix(&k, &zarray) || has_suffix(&k, &zarr_json)) {
        return None;
    }
    let p = chars_of(prefix);
    let start: usize = if p.len() == 0 {
        0
    } else {
        let offset = if matches_at(&k, 0, &p) { p.len() } else { 0 };
        let rest = key.substring_char(offset, k.len());
        let n = leading_slashes(rest);
        proof {
            assert(k@.skip(0) == k@);
            assert(rest@ == k@.skip(offset as int));
            assert(k@.skip(offset as int).skip(n as int) == k@.skip(offset + n));
        }
        offset + n
    };
    assert(relative_key(key@, prefix@) == k@.skip(start as int));
    let end = find_char(&k, start, '/');
    assert(k@.skip(start as int).take(end - start) == k@.subrange(start as int, end as int));
    if end > start && k[start] != '.' {
        let mut path = String::from_str("/");
        path.append(key.substring_char(start, end));
        proof {
            reveal_strlit("/");
        }
        Some(path)
    } else {
        None
    }
}

/// A directory of a local store may hold an array: its name is not hidden
/// (starting with `.`) and is not `__pycache__`.
pub open spec fn is_array_dir_name(name: Seq<char>) -> bool {
    !(name.len() > 0 && name[0] == '.') && name != "__pycache__"@
}

/// Whether a directory of a local store may hold an array.
pub fn may_hold_array(name: &str) -> (b: bool)
    ensures
        b == is_array_dir_name(name@),
{
    let n = chars_of(name);
    let pycache = chars_of("__pycache__");
    let same = n.len() == pycache.len() && matches_at(&n, 0, &pycache);
    proof {
        assert(n@.skip(0) == n@);
        if same {
            assert(n@ =~= pycache@);
        }
    }
    !(n.len() > 0 && n[0] == '.') && !same
}

/// A parse error of the `url` crate.
#[verifier::external_type_specification]
#[verifier::external_body]
pub struct ExUrlParseError(url::ParseError);

/// What `url::Url::parse` makes of a string: `None` when it is refused, otherwise
/// the parsed URL's host (`Url::host_str`) and path (`Url::path`).
pub uninterp spec fn parsed_url(s: Seq<char>) -> Option<(Option<Seq<char>>, Seq<char>)>;

/// View of an optional string.
pub open spec fn opt_view(s: Option<String>) -> Option<Seq<char>> {
    match s {
        Some(t) => Some(t@),
        None => None,
    }
}

/// `url::Url::parse`, converted to the parsed URL's host (`Url::host_str`) and
/// path (`Url::path`).
#[verifier::external_body]
fn parse_url(s: &str) -> (r: Result<(Option<String>, String), url::ParseError>)
    ensures
        match parsed_url(s@) {
            Some(parts) => r matches Ok(v) && opt_view(v.0) == parts.0 && v.1@ == parts.1,
            None => r is Err,
        },
{
    match url::Url::parse(s) {
        Ok(u) => Ok((u.host_str().map(String::from), u.path().to_string())),
        Err(e) => Err(e),
    }
}

/// Why a store location is refused.
pub enum StoreError {
    /// The `s3://` URL does not parse.
    InvalidUrl(url::ParseError),
    /// The `s3://` URL names no bucket.
    MissingBucket,
}

/// A store in an S3 bucket: the bucket and the key prefix of the store in it.
pub struct S3Location {
    pub bucket: String,
    pub prefix: String,
}

/// Where a store lives.
pub enum StoreLocation {
    /// A directory of the local file system.
    Filesystem(String),
    S3(S3Location),
}

/// The S3 location that a parsed `s3://` URL names: its host is the bucket and
/// its path, without leading slashes, the prefix; refused without a host.
pub fn s3_location_from_url(host: Option<String>, path: String) -> (r: Result<S3Location, StoreError>)
    ensures
        match host {
            Some(bucket) => r matches Ok(loc) && loc.bucket@ == bucket@ && loc.prefix@ == strip_leading_slashes(path@),
            None => r matches Err(StoreError::MissingBucket),
        },
{
    match host {
        Some(bucket) => {
            let n = leading_slashes(path.as_str());
            let prefix = String::from_str(path.as_str().substring_char(n, path.as_str().unicode_len()));
            Ok(S3Location { bucket, prefix })
        },
        None => Err(StoreError::MissingBucket),
    }
}

impl StoreLocation {
    /// A path starting with `s3://` names an S3 store (see `s3_location_from_url`);
    /// any other path names a local directory.
    pub fn parse(path: &str) -> (r: Result<StoreLocation, StoreError>)
        ensures
            !starts_with(path@, "s3://"@) ==> (r matches Ok(StoreLocation::Filesystem(p)) && p@ == path@),
            starts_with(path@, "s3://"@) ==> match parsed_url(path@) {
                None => r matches Err(StoreError::InvalidUrl(_)),
                Some((None, _)) => r matches Err(StoreError::MissingBucket),
                Some((Some(bucket), url_path)) => r matches Ok(StoreLocation::S3(loc))
                    && loc.bucket@ == bucket && loc.prefix@ == strip_leading_slashes(url_path),
            },
    {
        let p = chars_of(path);
        let scheme = chars_of("s3://");
        assert(p@.skip(0) == p@);
        if matches_at(&p, 0, &scheme) {
            match parse_url(path) {
                Ok((host, url_path)) => match s3_location_from_url(host, url_path) {
                    Ok(loc) => Ok(StoreLocation::S3(loc)),
                    Err(e) => Err(e),
                },
                Err(e) => Err(StoreError::InvalidUrl(e)),
            }
        } else {
            Ok(StoreLocation::Filesystem(String::from_str(path)))
        }
    }
}

/// `a` comes before `b` in the order of `String`: lexicographic by character
/// (code point) value, a proper prefix first.
pub open spec fn lex_lt(a: Seq<char>, b: Seq<char>) -> bool
    decreases a.len(),
{
    if a.len() == 0 {
        b.len() > 0
    } else if b.len() == 0 {
        false
    } else if a[0] != b[0] {
        (a[0] as int) < (b[0] as int)
    } else {
        lex_lt(a.drop_first(), b.drop_first())
    }
}

/// Each element comes before the next: sorted, without repeats.
pub open spec fn strictly_sorted(s: Seq<Seq<char>>) -> bool {
    forall|i: int, j: int| 0 <= i < j < s.len() ==> lex_lt(#[trigger] s[i], #[trigger] s[j])
}

/// The order is irreflexive.
proof fn lemma_lex_irreflexive(a: Seq<char>)
    ensures
        !lex_lt(a, a),
    decreases a.len(),
{
    if a.len() > 0 {
        lemma_lex_irreflexive(a.drop_first());
    }
}

/// The order is transitive.
proof fn lemma_lex_transitive(a: Seq<char>, b: Seq<char>, c: Seq<char>)
    requires
        lex_lt(a, b),
        lex_lt(b, c),
    ensures
        lex_lt(a, c),
    decreases a.len(),
{
    if a.len() > 0 && b.len() > 0 && c.len() > 0 && a[0] == b[0] && b[0] == c[0] {
        lemma_lex_transitive(a.drop_first(), b.drop_first(), c.drop_first());
    }
}

/// Any two distinct sequences are ordered one way or the other.
proof fn lemma_lex_total(a: Seq<char>, b: Seq<char>)
    requires
        a != b,
    ensures
        lex_lt(a, b) || lex_lt(b, a),
    decreases a.len(),
{
    if a.len() == 0 && b.len() == 0 {
        assert(a =~= b);
    }
    if a.len() > 0 && b.len() > 0 && a[0] == b[0] {
        if a.drop_first() == b.drop_first() {
            assert(a =~= seq![a[0]] + a.drop_first());
            assert(b =~= seq![b[0]] + b.drop_first());
        }
        lemma_lex_total(a.drop_first(), b.drop_first());
    }
}

/// Whether `a` comes before `b` (see `lex_lt`).
fn precedes(a: &String, b: &String) -> (r: bool)
    ensures
        r == lex_lt(a@, b@),
{
    let x = chars_of(a.as_str());
    let y = chars_of(b.as_str());
    let mut i: usize = 0;
    assert(x@.skip(0) == x@);
    assert(y@.skip(0) == y@);
    while i < x.len() && i < y.len() && x[i] == y[i]
        invariant
            i <= x@.len(),
            i <= y@.len(),
            lex_lt(a@, b@) == lex_lt(x@.skip(i as int), y@.skip(i as int)),
            x@ == a@,
            y@ == b@,
        decreases x.len() - i,
    {
        assert(x@.skip(i as int).drop_first() == x@.skip(i + 1));
        assert(y@.skip(i as int).drop_first() == y@.skip(i + 1));
        i = i + 1;
    }
    if i == x.len() {
        i < y.len()
    } else if i == y.len() {
        false
    } else {
        x[i] < y[i]
    }
}

/// Adds an array path to a list kept sorted without repeats; a path already there
/// is not added again.
pub fn insert_array_path(paths: &mut Vec<String>, path: String)
    requires
        strictly_sorted(string_views(old(paths)@)),
    ensures
        strictly_sorted(string_views(final(paths)@)),
        forall|p: Seq<char>| #[trigger] string_views(final(paths)@).contains(p)
            <==> (string_views(old(paths)@).contains(p) || p == path@),
{
    let ghost before = string_views(paths@);
    let mut k: usize = 0;
    while k < paths.len() && precedes(&paths[k], &path)
        invariant
            k <= paths@.len(),
            before == string_views(paths@),
            strictly_sorted(before),
            forall|j: int| 0 <= j < k ==> lex_lt(#[trigger] before[j], path@),
        decreases paths.len() - k,
    {
        k = k + 1;
    }
    if k < paths.len() && paths[k] == path {
        proof {
            assert(before.contains(path@)) by {
                assert(before[k as int] == path@);
            }
        }
        return;
    }
    proof {
        if k < before.len() {
            lemma_lex_total(before[k as int], path@);
        }
        assert forall|j: int| k <= j < before.len() implies lex_lt(path@, #[trigger] before[j]) by {
            if j > k {
                lemma_lex_transitive(path@, before[k as int], before[j]);
            }
        }
    }
    paths.insert(k, path);
    proof {
        let after = string_views(paths@);
        assert(after =~= before.insert(k as int, path@));
        assert forall|i: int, j: int| 0 <= i < j < after.len() implies lex_lt(#[trigger] after[i], #[trigger] after[j]) by {
            if i < k && j == k {
            } else if i < k && j > k {
                assert(after[j] == before[j - 1]);
            } else if i == k {
                assert(after[j] == before[j - 1]);
            } else if i > k {
                assert(after[i] == before[i - 1]);
                assert(after[j] == before[j - 1]);
            }
        }
        assert forall|p: Seq<char>| #[trigger] after.contains(p) <==> (before.contains(p) || p == path@) by {
            if after.contains(p) {
                let i = choose|i: int| 0 <= i < after.len() && after[i] == p;
                if i < k {
                    assert(before[i] == p);
                } else if i > k {
                    assert(before[i - 1] == p);
                }
            }
            if before.contains(p) {
                let i = choose|i: int| 0 <= i < before.len() && before[i] == p;
                if i < k {
                    assert(after[i] == p);
                } else {
                    assert(after[i + 1] == p);
                }
            }
            if p == path@ {
                assert(after[k as int] == p);
            }
        }
    }
}

/// Law: a sorted list without repeats is determined by the paths it holds, so the
/// array list a store yields does not depend on the order of its listing.
pub proof fn law_sorted_paths_determined(s1: Seq<Seq<char>>, s2: Seq<Seq<char>>)
    requires
        strictly_sorted(s1),
        strictly_sorted(s2),
        forall|p: Seq<char>| s1.contains(p) <==> s2.contains(p),
    ensures
        s1 == s2,
    decreases s1.len(),
{
    if s1.len() == 0 {
        if s2.len() > 0 {
            assert(s2.contains(s2[0]));
        }
        assert(s1 =~= s2);
    } else {
        assert(s1.contains(s1[0]));
        let j = choose|j: int| 0 <= j < s2.len() && s2[j] == s1[0];
        assert(s2.contains(s2[0]));
        let i = choose|i: int| 0 <= i < s1.len() && s1[i] == s2[0];
        if j > 0 {
            assert(lex_lt(s2[0], s2[j]));
            if i == 0 {
                lemma_lex_irreflexive(s1[0]);
            } else {
                assert(lex_lt(s1[0], s1[i]));
                lemma_lex_transitive(s1[0], s1[i], s1[0]);
                lemma_lex_irreflexive(s1[0]);
            }
        }
        let t1 = s1.drop_first();
        let t2 = s2.drop_first();
        assert forall|i: int, j: int| 0 <= i < j < t1.len() implies lex_lt(#[trigger] t1[i], #[trigger] t1[j]) by {
            assert(lex_lt(s1[i + 1], s1[j + 1]));
        }
        assert forall|i: int, j: int| 0 <= i < j < t2.len() implies lex_lt(#[trigger] t2[i], #[trigger] t2[j]) by {
            assert(lex_lt(s2[i + 1], s2[j + 1]));
        }
        assert forall|p: Seq<char>| t1.contains(p) <==> t2.contains(p) by {
            if t1.contains(p) {
                let a = choose|a: int| 0 <= a < t1.len() && t1[a] == p;
                assert(s1[a + 1] == p);
                assert(lex_lt(s1[0], p));
                lemma_lex_irreflexive(p);
                assert(s2.contains(p));
                let b = choose|b: int| 0 <= b < s2.len() && s2[b] == p;
                assert(b != 0);
                assert(t2[b - 1] == p);
            }
            if t2.contains(p) {
                let a = choose|a: int| 0 <= a < t2.len() && t2[a] == p;
                assert(s2[a + 1] == p);
                assert(lex_lt(s2[0], p));
                lemma_lex_irreflexive(p);
                assert(s1.contains(p));
                let b = choose|b: int| 0 <= b < s1.len() && s1[b] == p;
                assert(b != 0);
                assert(t1[b - 1] == p);
            }
        }
        law_sorted_paths_determined(t1, t2);
        assert(s1 =~= seq![s1[0]] + t1);
        assert(s2 =~= seq![s2[0]] + t2);
    }
}

/// `char::is_whitespace`: the Unicode White_Space property.
pub open spec fn is_whitespace(c: char) -> bool {
    let v = c as int;
    ||| 0x9 <= v <= 0xd
    ||| v == 0x20
    ||| v == 0x85
    ||| v == 0xa0
    ||| v == 0x1680
    ||| 0x2000 <= v <= 0x200a
    ||| v == 0x2028
    ||| v == 0x2029
    ||| v == 0x202f
    ||| v == 0x205f
    ||| v == 0x3000
}

/// `s` without leading whitespace.
pub open spec fn trim_start(s: Seq<char>) -> Seq<char>
    decreases s.len(),
{
    if s.len() > 0 && is_whitespace(s[0]) {
        trim_start(s.drop_first())
    } else {
        s
    }
}

/// `s` without trailing whitespace.
pub open spec fn trim_end(s: Seq<char>) -> Seq<char>
    decreases s.len(),
{
    if s.len() > 0 && is_whitespace(s.last()) {
        trim_end(s.drop_last())
    } else {
        s
    }
}

/// `str::trim`: `s` without leading and trailing whitespace.
pub open spec fn trim(s: Seq<char>) -> Seq<char> {
    trim_end(trim_start(s))
}

/// The segments of `s` between line feeds; a final line feed ends the last
/// segment rather than starting an empty one. (They are the lines of `s` up to a
/// carriage return before a line feed, which trimming removes.)
pub open spec fn segments(s: Seq<char>) -> Seq<Seq<char>>
    decreases s.len(),
{
    if s.len() == 0 {
        Seq::empty()
    } else {
        let k = first_index(s, '\n');
        proof {
            lemma_first_index_bounds(s, '\n');
        }
        if k >= s.len() {
            seq![s]
        } else {
            seq![s.take(k)] + segments(s.skip(k + 1))
        }
    }
}

/// The first position of a character lies within the sequence, or at its end.
pub proof fn lemma_first_index_bounds(s: Seq<char>, ch: char)
    ensures
        0 <= first_index(s, ch) <= s.len(),
        first_index(s, ch) < s.len() ==> s[first_index(s, ch)] == ch,
        forall|i: int| 0 <= i < first_index(s, ch) ==> s[i] != ch,
    decreases s.len(),
{
    if s.len() > 0 && s[0] != ch {
        lemma_first_index_bounds(s.drop_first(), ch);
        assert forall|i: int| 0 <= i < first_index(s, ch) implies s[i] != ch by {
            if i > 0 {
                assert(s[i] == s.drop_first()[i - 1]);
            }
        }
    }
}

/// State of a scan of a credentials file: inside the wanted profile's section,
/// past its end, and the access key id and secret found so far.
pub type CredentialScan = (bool, bool, Option<Seq<char>>, Option<Seq<char>>);

/// One line of the scan: the profile's header line `[profile]` opens its section;
/// another header closes it for good; inside it, `aws_access_key_id = ...` and
/// `aws_secret_access_key = ...` (split at the first `=`, both sides trimmed) set
/// the key id and the secret.
pub open spec fn scan_line(st: CredentialScan, line: Seq<char>, header: Seq<char>) -> CredentialScan {
    let t = trim(line);
    if st.1 {
        st
    } else if t == header {
        (true, st.1, st.2, st.3)
    } else if t.len() > 0 && t[0] == '[' {
        if st.0 { (st.0, true, st.2, st.3) } else { st }
    } else if st.0 && first_index(t, '=') < t.len() {
        let e = first_index(t, '=');
        let k = trim(t.take(e));
        let v = trim(t.skip(e + 1));
        if k == "aws_access_key_id"@ {
            (st.0, st.1, Some(v), st.3)
        } else if k == "aws_secret_access_key"@ {
            (st.0, st.1, st.2, Some(v))
        } else {
            st
        }
    } else {
        st
    }
}

/// The scan of the lines `lines` from state `st`.
pub open spec fn scan_lines(lines: Seq<Seq<char>>, header: Seq<char>, st: CredentialScan) -> CredentialScan
    decreases lines.len(),
{
    if lines.len() == 0 {
        st
    } else {
        scan_lines(lines.drop_first(), header, scan_line(st, lines[0], header))
    }
}

/// The access key id and secret of `profile` in the text of a credentials file,
/// when both are set (the last setting of each counts).
pub open spec fn profile_credentials(contents: Seq<char>, profile: Seq<char>) -> Option<(Seq<char>, Seq<char>)> {
    let header = seq!['['] + profile + seq![']'];
    let st = scan_lines(segments(contents), header, (false, false, None, None));
    match (st.2, st.3) {
        (Some(k), Some(v)) => Some((k, v)),
        _ => None,
    }
}

/// Once the section has ended, the remaining lines change nothing.
proof fn lemma_scan_done(lines: Seq<Seq<char>>, header: Seq<char>, st: CredentialScan)
    requires
        st.1,
    ensures
        scan_lines(lines, header, st) == st,
    decreases lines.len(),
{
    if lines.len() > 0 {
        lemma_scan_done(lines.drop_first(), header, st);
    }
}

/// Bounds of `s[from..to]` once trimmed.
fn trim_bounds(s: &Vec<char>, from: usize, to: usize) -> (r: (usize, usize))
    requires
        from <= to <= s@.len(),
    ensures
        from <= r.0 <= r.1 <= to,
        s@.subrange(r.0 as int, r.1 as int) == trim(s@.subrange(from as int, to as int)),
{
    let mut a = from;
    while a < to && is_ws(s[a])
        invariant
            from <= a <= to <= s@.len(),
            trim_start(s@.subrange(from as int, to as int)) == trim_start(s@.subrange(a as int, to as int)),
        decreases to - a,
    {
        assert(s@.subrange(a as int, to as int).drop_first() == s@.subrange(a + 1, to as int));
        a = a + 1;
    }
    let mut b = to;
    while b > a && is_ws(s[b - 1])
        invariant
            from <= a <= b <= to <= s@.len(),
            trim_end(s@.subrange(a as int, to as int)) == trim_end(s@.subrange(a as int, b as int)),
        decreases b - a,
    {
        assert(s@.subrange(a as int, b as int).drop_last() == s@.subrange(a as int, b - 1));
        b = b - 1;
    }
    (a, b)
}

/// `char::is_whitespace`.
fn is_ws(c: char) -> (b: bool)
    ensures
        b == is_whitespace(c),
{
    let v = c as u32;
    (0x9 <= v && v <= 0xd) || v == 0x20 || v == 0x85 || v == 0xa0 || v == 0x1680 || (0x2000 <= v && v <= 0x200a)
        || v == 0x2028 || v == 0x2029 || v == 0x202f || v == 0x205f || v == 0x3000
}

/// Position of the first `ch` in `s[from..to]`, counted from the start of `s`, or
/// `to`.
fn find_char_in(s: &Vec<char>, from: usize, to: usize, ch: char) -> (r: usize)
    requires
        from <= to <= s@.len(),
    ensures
        from <= r <= to,
        r - from == first_index(s@.subrange(from as int, to as int), ch),
{
    let mut i = from;
    assert(s@.subrange(from as int, to as int).skip(0) == s@.subrange(from as int, to as int));
    while i < to && s[i] != ch
        invariant
            from <= i <= to <= s@.len(),
            first_index(s@.subrange(from as int, to as int), ch) == (i - from) + first_index(s@.subrange(i as int, to as int), ch),
        decreases to - i,
    {
        assert(s@.subrange(i as int, to as int).drop_first() == s@.subrange(i + 1, to as int));
        i = i + 1;
    }
    i
}

/// Whether `s[a..b]` is `p`.
fn equals_at(s: &Vec<char>, a: usize, b: usize, p: &Vec<char>) -> (r: bool)
    requires
        a <= b <= s@.len(),
    ensures
        r == (s@.subrange(a as int, b as int) == p@),
{
    if b - a != p.len() {
        return false;
    }
    let m = matches_at(s, a, p);
    assert(s@.skip(a as int).take(p@.len() as int) == s@.subrange(a as int, b as int));
    m
}

/// The access key id and secret of `profile` in the text of an AWS credentials
/// file (see `profile_credentials`).
pub fn parse_aws_credentials(contents: &str, profile: &str) -> (r: Option<(String, String)>)
    ensures
        match profile_credentials(contents@, profile@) {
            Some((k, v)) => r matches Some(p) && p.0@ == k && p.1@ == v,
            None => r is None,
        },
{
    let c = chars_of(contents);
    let pc = chars_of(profile);
    let mut header: Vec<char> = Vec::new();
    header.push('[');
    let mut i: usize = 0;
    while i < pc.len()
        invariant
            i <= pc@.len(),
            header@ == seq!['['] + pc@.take(i as int),
        decreases pc.len() - i,
    {
        header.push(pc[i]);
        assert(pc@.take(i + 1) == pc@.take(i as int).push(pc@[i as int]));
        i = i + 1;
    }
    header.push(']');
    let ghost header_s = seq!['['] + profile@ + seq![']'];
    assert(pc@.take(pc@.len() as int) == pc@);
    assert(header@ == header_s);
    let key_name = chars_of("aws_access_key_id");
    let secret_name = chars_of("aws_secret_access_key");
    let ghost goal = scan_lines(segments(contents@), header_s, (false, false, None, None));
    let mut in_profile = false;
    let mut done = false;
    let mut key_id: Option<String> = None;
    let mut secret: Option<String> = None;
    let mut pos: usize = 0;
    assert(c@.skip(0) == c@);
    while pos < c.len() && !done
        invariant
            pos <= c@.len(),
            c@ == contents@,
            header@ == header_s,
            key_name@ == "aws_access_key_id"@,
            secret_name@ == "aws_secret_access_key"@,
            goal == scan_lines(segments(c@.skip(pos as int)), header_s, (in_profile, done, opt_view(key_id), opt_view(secret))),
        decreases c.len() - pos, (if done { 0int } else { 1int }),
    {
        let ghost st: CredentialScan = (in_profile, done, opt_view(key_id), opt_view(secret));
        let end = find_char_in(&c, pos, c.len(), '\n');
        let next = if end < c.len() { end + 1 } else { c.len() };
        proof {
            let rest = c@.skip(pos as int);
            assert(c@.subrange(pos as int, c@.len() as int) == rest);
            lemma_first_index_bounds(rest, '\n');
            assert(rest.take(end - pos) == c@.subrange(pos as int, end as int));
            if end < c.len() {
                assert(rest.skip(end - pos + 1) == c@.skip(next as int));
            } else {
                assert(rest == c@.subrange(pos as int, end as int));
                assert(c@.skip(next as int) == Seq::<char>::empty());
                assert(segments(c@.skip(next as int)) == Seq::<Seq<char>>::empty());
            }
            assert(segments(rest) == seq![c@.subrange(pos as int, end as int)] + segments(c@.skip(next as int)));
            assert((seq![c@.subrange(pos as int, end as int)] + segments(c@.skip(next as int))).drop_first() == segments(c@.skip(next as int)));
        }
        let ghost line = c@.subrange(pos as int, end as int);
        let (a, b) = trim_bounds(&c, pos, end);
        let ghost t = trim(line);
        assert(t == c@.subrange(a as int, b as int));
        if equals_at(&c, a, b, &header) {
            in_profile = true;
        } else if b > a && c[a] == '[' {
            if in_profile {
                done = true;
            }
        } else if in_profile {
            let e = find_char_in(&c, a, b, '=');
            if e < b {
                let (ka, kb) = trim_bounds(&c, a, e);
                let (va, vb) = trim_bounds(&c, e + 1, b);
                proof {
                    assert(t.take(e - a) == c@.subrange(a as int, e as int));
                    assert(t.skip(e - a + 1) == c@.subrange(e + 1, b as int));
                }
                if equals_at(&c, ka, kb, &key_name) {
                    key_id = Some(String::from_str(contents.substring_char(va, vb)));
                } else if equals_at(&c, ka, kb, &secret_name) {
                    secret = Some(String::from_str(contents.substring_char(va, vb)));
                }
            }
        }
        assert((in_profile, done, opt_view(key_id), opt_view(secret)) == scan_line(st, line, header_s));
        pos = next;
    }
    proof {
        if done {
            lemma_scan_done(segments(c@.skip(pos as int)), header_s, (in_profile, done, opt_view(key_id), opt_view(secret)));
        } else {
            assert(c@.skip(pos as int) == Seq::<char>::empty());
        }
    }
    match (key_id, secret) {
        (Some(k), Some(v)) => Some((k, v)),
        _ => None,
    }
}

/// `a` and `b` agree before position `i`, where `a` has the smaller character.
pub open spec fn differs_lower_at(a: Seq<char>, b: Seq<char>, i: int) -> bool {
    &&& 0 <= i < a.len()
    &&& i < b.len()
    &&& a.take(i) == b.take(i)
    &&& (a[i] as int) < (b[i] as int)
}

/// Law: array paths are ordered as strings are: `a` comes before `b` exactly when
/// `a` is a proper prefix of `b`, or at the first position where they differ the
/// character of `a` has the smaller code point.
#[verifier::spinoff_prover]
#[verifier::rlimit(30)]
pub proof fn law_string_order(a: Seq<char>, b: Seq<char>)
    ensures
        lex_lt(a, b) <==> ((a.len() < b.len() && b.take(a.len() as int) == a) || exists|i: int|
            #[trigger] differs_lower_at(a, b, i)),
    decreases a.len(),
{
    if a.len() == 0 {
        if b.len() > 0 {
            assert(b.take(0) =~= a);
        }
    } else if b.len() == 0 {
        assert(!exists|i: int| #[trigger] differs_lower_at(a, b, i));
    } else if a[0] != b[0] {
        if a.len() < b.len() && b.take(a.len() as int) == a {
            assert(b.take(a.len() as int)[0] == b[0]);
        }
        if (a[0] as int) < (b[0] as int) {
            assert(a.take(0) =~= b.take(0));
            assert(differs_lower_at(a, b, 0));
        }
        if exists|i: int| #[trigger] differs_lower_at(a, b, i) {
            let i = choose|i: int| #[trigger] differs_lower_at(a, b, i);
            if i > 0 {
                assert(a.take(i)[0] == b.take(i)[0]);
            }
        }
    } else {
        let a1 = a.drop_first();
        let b1 = b.drop_first();
        law_string_order(a1, b1);
        assert(a =~= seq![a[0]] + a1);
        assert(b =~= seq![b[0]] + b1);
        if a.len() < b.len() {
            assert(b.take(a.len() as int) == a <==> b1.take(a1.len() as int) == a1) by {
                if b.take(a.len() as int) == a {
                    assert(b1.take(a1.len() as int) =~= b.take(a.len() as int).drop_first());
                }
                if b1.take(a1.len() as int) == a1 {
                    assert(b.take(a.len() as int) =~= seq![b[0]] + b1.take(a1.len() as int));
                }
            }
        }
        if exists|i: int| #[trigger] differs_lower_at(a, b, i) {
            let i = choose|i: int| #[trigger] differs_lower_at(a, b, i);
            assert(i > 0);
            assert(a1.take(i - 1) =~= a.take(i).drop_first());
            assert(b1.take(i - 1) =~= b.take(i).drop_first());
            assert(differs_lower_at(a1, b1, i - 1));
        }
        if exists|i: int| #[trigger] differs_lower_at(a1, b1, i) {
            let i = choose|i: int| #[trigger] differs_lower_at(a1, b1, i);
            assert(a.take(i + 1) =~= seq![a[0]] + a1.take(i));
            assert(b.take(i + 1) =~= seq![b[0]] + b1.take(i));
            assert(differs_lower_at(a, b, i + 1));
        }
    }
}

/// The first position of a character in `x + y`, where `x` lacks it, lies in `y`.
proof fn lemma_first_index_concat(x: Seq<char>, y: Seq<char>, ch: char)
    requires
        forall|i: int| 0 <= i < x.len() ==> x[i] != ch,
    ensures
        first_index(x + y, ch) == x.len() + first_index(y, ch),
    decreases x.len(),
{
    if x.len() > 0 {
        assert((x + y).drop_first() =~= x.drop_first() + y);
        lemma_first_index_concat(x.drop_first(), y, ch);
    } else {
        assert(x + y =~= y);
    }
}

/// The key ends with `.zarray` or `zarr.json`.
pub open spec fn metadata_suffix(s: Seq<char>) -> bool {
    ||| s.len() >= 7 && s.skip(s.len() - 7) == ".zarray"@
    ||| s.len() >= 9 && s.skip(s.len() - 9) == "zarr.json"@
}

/// A key `name/rest` whose `rest` names a metadata document.
pub open spec fn array_key_parts(key: Seq<char>, name: Seq<char>, rest: Seq<char>) -> bool {
    &&& key == name + seq!['/'] + rest
    &&& name.len() > 0
    &&& name[0] != '.'
    &&& forall|i: int| 0 <= i < name.len() ==> #[trigger] name[i] != '/'
    &&& metadata_suffix(rest)
}

/// What a listed path looks like.
#[verifier::spinoff_prover]
#[verifier::rlimit(30)]
proof fn lemma_listed_sound(key: Seq<char>, prefix: Seq<char>)
    ensures
        listed_array_path(key, prefix) matches Some(p) ==> {
            &&& p.len() >= 2
            &&& p[0] == '/'
            &&& p[1] != '.'
            &&& forall|i: int| 1 <= i < p.len() ==> #[trigger] p[i] != '/'
            &&& metadata_suffix(key)
        },
{
    reveal_strlit(".zarray");
    reveal_strlit("zarr.json");
    let rel = relative_key(key, prefix);
    let k = first_index(rel, '/');
    lemma_first_index_bounds(rel, '/');
    if let Some(p) = listed_array_path(key, prefix) {
        let nm = rel.take(k);
        assert(p == seq!['/'] + nm);
        assert forall|i: int| 1 <= i < p.len() implies #[trigger] p[i] != '/' by {
            assert(p[i] == rel[i - 1]);
        }
        assert(p[1] == nm[0]);
    }
}

/// The first component of `name/rest`, and the suffix of a key ending in `rest`.
#[verifier::spinoff_prover]
#[verifier::rlimit(30)]
proof fn lemma_key_parts(key: Seq<char>, name: Seq<char>, rest: Seq<char>, whole: Seq<char>)
    requires
        array_key_parts(key, name, rest),
        whole.len() >= key.len(),
        whole.skip(whole.len() - key.len()) == key,
    ensures
        key.take(first_index(key, '/')) == name,
        metadata_suffix(whole),
{
    reveal_strlit(".zarray");
    reveal_strlit("zarr.json");
    assert(key =~= name + (seq!['/'] + rest));
    lemma_first_index_concat(name, seq!['/'] + rest, '/');
    assert(first_index(seq!['/'] + rest, '/') == 0);
    assert(key.take(first_index(key, '/')) =~= name);
    if rest.len() >= 7 && rest.skip(rest.len() - 7) == ".zarray"@ {
        assert(key.skip(key.len() - 7) =~= rest.skip(rest.len() - 7));
        assert(whole.skip(whole.len() - 7) =~= key.skip(key.len() - 7));
    } else {
        assert(key.skip(key.len() - 9) =~= rest.skip(rest.len() - 9));
        assert(whole.skip(whole.len() - 9) =~= key.skip(key.len() - 9));
    }
}

/// Law: a path found in a listing is `/` and a non-empty name that has no `/` and
/// does not start with `.`, found only in keys that end with `.zarray` or
/// `zarr.json`; and a metadata key `prefix/name/...` of a store under a non-empty
/// prefix, or `name/...` of a store without prefix, reveals `/name`.
#[verifier::spinoff_prover]
#[verifier::rlimit(30)]
pub proof fn law_listed_array_path(key: Seq<char>, prefix: Seq<char>, name: Seq<char>, rest: Seq<char>)
    ensures
        listed_array_path(key, prefix) matches Some(p) ==> {
            &&& p.len() >= 2
            &&& p[0] == '/'
            &&& p[1] != '.'
            &&& forall|i: int| 1 <= i < p.len() ==> #[trigger] p[i] != '/'
            &&& metadata_suffix(key)
        },
        prefix.len() > 0 && array_key_parts(key.skip(prefix.len() as int + 1), name, rest) && key == prefix + seq!['/']
            + key.skip(prefix.len() as int + 1) ==> listed_array_path(key, prefix) == Some(seq!['/'] + name),
        prefix.len() == 0 && array_key_parts(key, name, rest) ==> listed_array_path(key, prefix) == Some(seq!['/'] + name),
{
    lemma_listed_sound(key, prefix);
    if prefix.len() > 0 && array_key_parts(key.skip(prefix.len() as int + 1), name, rest) && key == prefix + seq!['/']
        + key.skip(prefix.len() as int + 1) {
        let tail = key.skip(prefix.len() as int + 1);
        lemma_key_parts(tail, name, rest, key);
        assert(key.take(prefix.len() as int) =~= prefix);
        assert(starts_with(key, prefix));
        assert(key.skip(prefix.len() as int) =~= seq!['/'] + tail);
        let s1 = seq!['/'] + tail;
        assert(s1.drop_first() =~= tail);
        assert(tail[0] == name[0]);
        assert(name[0] != '/');
        assert(strip_leading_slashes(s1) == strip_leading_slashes(s1.drop_first()));
        assert(strip_leading_slashes(tail) == tail);
        assert(relative_key(key, prefix) == tail);
    }
    if prefix.len() == 0 && array_key_parts(key, name, rest) {
        assert(key.skip(0) =~= key);
        lemma_key_parts(key, name, rest, key);
    }
}

/// A sequence that neither starts nor ends with whitespace is its own trim.
proof fn lemma_trim_unchanged(s: Seq<char>)
    requires
        s.len() > 0 ==> !is_whitespace(s[0]) && !is_whitespace(s.last()),
    ensures
        trim(s) == s,
{
}

/// `s` holds no line feed.
pub open spec fn single_line(s: Seq<char>) -> bool {
    forall|i: int| 0 <= i < s.len() ==> #[trigger] s[i] != '\n'
}

/// A line, a line feed, and the rest: the line is the first segment.
proof fn lemma_segments_line(x: Seq<char>, y: Seq<char>)
    requires
        single_line(x),
    ensures
        segments(x + seq!['\n'] + y) == seq![x] + segments(y),
{
    let s = x + seq!['\n'] + y;
    assert(s =~= x + (seq!['\n'] + y));
    lemma_first_index_concat(x, seq!['\n'] + y, '\n');
    assert(first_index(seq!['\n'] + y, '\n') == 0);
    assert(s.take(x.len() as int) =~= x);
    assert(s.skip(x.len() as int + 1) =~= y);
}

/// A non-empty single line is the only segment.
proof fn lemma_segments_last_line(x: Seq<char>)
    requires
        single_line(x),
        x.len() > 0,
    ensures
        segments(x) == seq![x],
{
    lemma_first_index_concat(x, Seq::<char>::empty(), '\n');
    assert(x + Seq::<char>::empty() =~= x);
}

/// A setting line `name=value`, for a `name` without `=` or surrounding
/// whitespace: the line is its own trim, and splits into `name` and `value`.
#[verifier::rlimit(50)]
proof fn lemma_setting_line(name: Seq<char>, value: Seq<char>)
    requires
        name.len() > 0,
        !is_whitespace(name[0]),
        !is_whitespace(name.last()),
        forall|i: int| 0 <= i < name.len() ==> #[trigger] name[i] != '=',
        value.len() > 0 ==> !is_whitespace(value[0]) && !is_whitespace(value.last()),
    ensures
        ({
            let t = name + seq!['='] + value;
            &&& trim(t) == t
            &&& first_index(t, '=') == name.len()
            &&& trim(t.take(name.len() as int)) == name
            &&& trim(t.skip(name.len() as int + 1)) == value
        }),
{
    let t = name + seq!['='] + value;
    assert(t =~= name + (seq!['='] + value));
    lemma_first_index_concat(name, seq!['='] + value, '=');
    assert(first_index(seq!['='] + value, '=') == 0);
    assert(t.take(name.len() as int) =~= name);
    assert(t.skip(name.len() as int + 1) =~= value);
    lemma_trim_unchanged(name);
    lemma_trim_unchanged(value);
    assert(t[0] == name[0]);
    if value.len() > 0 {
        assert(t.last() == value.last());
    } else {
        assert(t.last() == '=');
    }
    lemma_trim_unchanged(t);
}

/// Law: a credentials file whose section `[profile]` sets `aws_access_key_id=key`
/// and then `aws_secret_access_key=secret`, one per line, yields that key and
/// secret, for any profile name, key and secret on a single line without
/// surrounding whitespace.
#[verifier::spinoff_prover]
#[verifier::rlimit(30)]
pub proof fn law_profile_credentials_read(profile: Seq<char>, key: Seq<char>, secret: Seq<char>)
    requires
        single_line(profile),
        single_line(key),
        single_line(secret),
        key.len() > 0 ==> !is_whitespace(key[0]) && !is_whitespace(key.last()),
        secret.len() > 0 ==> !is_whitespace(secret[0]) && !is_whitespace(secret.last()),
    ensures
        profile_credentials(
            seq!['['] + profile + seq![']'] + seq!['\n'] + ("aws_access_key_id"@ + seq!['='] + key) + seq!['\n']
                + ("aws_secret_access_key"@ + seq!['='] + secret),
            profile,
        ) == Some((key, secret)),
{
    reveal_strlit("aws_access_key_id");
    reveal_strlit("aws_secret_access_key");
    let header = seq!['['] + profile + seq![']'];
    let kn = "aws_access_key_id"@;
    let sn = "aws_secret_access_key"@;
    let l1 = kn + seq!['='] + key;
    let l2 = sn + seq!['='] + secret;
    assert forall|i: int| 0 <= i < header.len() implies #[trigger] header[i] != '\n' by {
        if 0 < i < header.len() - 1 {
            assert(header[i] == profile[i - 1]);
        }
    }
    assert forall|i: int| 0 <= i < kn.len() implies #[trigger] kn[i] != '=' && kn[i] != '\n' by {}
    assert forall|i: int| 0 <= i < sn.len() implies #[trigger] sn[i] != '=' && sn[i] != '\n' by {}
    assert forall|i: int| 0 <= i < l1.len() implies #[trigger] l1[i] != '\n' by {
        if i > kn.len() {
            assert(l1[i] == key[i - kn.len() - 1]);
        }
    }
    assert forall|i: int| 0 <= i < l2.len() implies #[trigger] l2[i] != '\n' by {
        if i > sn.len() {
            assert(l2[i] == secret[i - sn.len() - 1]);
        }
    }
    let contents = header + seq!['\n'] + l1 + seq!['\n'] + l2;
    assert(contents =~= header + seq!['\n'] + (l1 + seq!['\n'] + l2));
    lemma_segments_line(header, l1 + seq!['\n'] + l2);
    lemma_segments_line(l1, l2);
    lemma_segments_last_line(l2);
    let lines = segments(contents);
    assert(lines =~= seq![header, l1, l2]);
    lemma_setting_line(kn, key);
    lemma_setting_line(sn, secret);
    assert(header[0] == '[');
    assert(header.last() == ']');
    lemma_trim_unchanged(header);
    assert(l1[0] == 'a');
    assert(l2[0] == 'a');
    assert(l1 != header);
    assert(l2 != header);
    assert(kn != sn);
    let st0: CredentialScan = (false, false, None, None);
    let st1 = scan_line(st0, header, header);
    assert(st1 == (true, false, None::<Seq<char>>, None::<Seq<char>>));
    let st2 = scan_line(st1, l1, header);
    assert(st2 == (true, false, Some(key), None::<Seq<char>>));
    let st3 = scan_line(st2, l2, header);
    assert(st3 == (true, false, Some(key), Some(secret)));
    reveal_with_fuel(scan_lines, 4);
    assert(lines.drop_first() =~= seq![l1, l2]);
    assert(lines.drop_first().drop_first() =~= seq![l2]);
    assert(lines.drop_first().drop_first().drop_first() =~= Seq::<Seq<char>>::empty());
}

} // verus!
