//! Profile discovery: where the profiles live, which directories are profiles, whether
//! they agree with the manifest, and where each profile keeps its history.
use vstd::prelude::*;
use crate::domain::string_views;
use crate::pattern::regex_compiles;
use crate::scan::{filter_directories, get_profile_database_map, keys_of, matching, pairs_view, searched_map};

verus! {

/// A browser installation's profiles, as found on disk.
pub struct Firefox {
    pub root_firefox_path: String,
    pub root_firefox_directories: Vec<String>,
    pub profiles: Vec<String>,
    /// Each profile whose data-store file was found, with the path of that file.
    pub database_map: Vec<(String, String)>,
}

/// Why discovery failed.
pub enum FirefoxError {
    /// The platform has no known profile root.
    Unsupported,
    /// The profile root does not exist; it holds the root's path.
    NotFound(String),
    /// The profile pattern was rejected by the `regex` crate.
    InvalidPattern,
    /// No directory under the root looks like a profile.
    NoProfiles,
    /// The manifest could not be read or parsed; it holds the reason where there is one.
    ManifestUnreadable(String),
    /// The manifest names a profile that was not found, and the counts differ.
    ManifestMismatch,
}

/// Directory names that mark a usable profile: `safe` or `default`, in any case.
pub const PROFILE_PATTERN: &'static str = "(?i)(safe|default)";

/// The name of the manifest file under the profile root.
pub const MANIFEST_FILE: &'static str = "profiles.ini";

/// The platforms with a known profile root.
pub open spec fn supported(os: Seq<char>) -> bool {
    os == "windows"@ || os == "linux"@
}

/// The profile root of a platform for a user; `None` for a platform with no known root.
pub open spec fn root_of(os: Seq<char>, username: Seq<char>) -> Option<Seq<char>> {
    if os == "windows"@ {
        Some("C:\\Users\\"@ + username + "\\AppData\\Roaming\\Mozilla\\Firefox\\Profiles\\"@)
    } else if os == "linux"@ {
        Some("/home/"@ + username + "/.mozilla/firefox/"@)
    } else {
        None
    }
}

/// The profile root of platform `os` for user `username`, or `None` where the platform
/// is not supported.
pub fn resolve_root(os: &str, username: &str) -> (r: Option<String>)
    ensures
        match root_of(os@, username@) {
            Some(p) => r is Some && r->0@ == p,
            None => r is None,
        },
{
    let platform = String::from_str(os);
    if platform == String::from_str("windows") {
        Some(
            String::from_str("C:\\Users\\").concat(username).concat(
                "\\AppData\\Roaming\\Mozilla\\Firefox\\Profiles\\",
            ),
        )
    } else if platform == String::from_str("linux") {
        Some(String::from_str("/home/").concat(username).concat("/.mozilla/firefox/"))
    } else {
        None
    }
}

/// Relies on `whoami::username`: the name of the user running the process.
#[verifier::external_body]
fn current_username() -> (r: String) {
    whoami::username()
}

/// Every `(section, key, value)` triple that `ini::macro_safe_read` reads from a text, or
/// `None` where it rejects the text.
pub uninterp spec fn ini_entries(text: Seq<char>) -> Option<
    Set<(Seq<char>, Seq<char>, Option<Seq<char>>)>,
>;

/// A manifest entry as plain values.
pub open spec fn triple_view(t: (String, String, Option<String>)) -> (
    Seq<char>,
    Seq<char>,
    Option<Seq<char>>,
) {
    (
        t.0@,
        t.1@,
        match t.2 {
            Some(v) => Some(v@),
            None => None,
        },
    )
}

/// Manifest entries as plain values.
pub open spec fn triples_view(ts: Seq<(String, String, Option<String>)>) -> Seq<
    (Seq<char>, Seq<char>, Option<Seq<char>>),
> {
    ts.map_values(|t: (String, String, Option<String>)| triple_view(t))
}

/// Where a manifest line stands while it is read: past a comment marker (`;` or `#`),
/// after a `[`, after a `]`, and after a `]` that follows a `[`.
pub struct LineState {
    pub in_comment: bool,
    pub opened: bool,
    pub closed: bool,
    pub closed_after_open: bool,
}

/// A line whose text before any comment marker holds a `[` and a `]`, but no `]` after a
/// `[`: its last `]` comes before its first `[`.
pub open spec fn line_is_reversed(st: LineState) -> bool {
    st.opened && st.closed && !st.closed_after_open
}

/// The state after reading `c`.
pub open spec fn step(st: LineState, c: char) -> LineState {
    if c == '\n' {
        LineState { in_comment: false, opened: false, closed: false, closed_after_open: false }
    } else if st.in_comment {
        st
    } else if c == ';' || c == '#' {
        LineState { in_comment: true, ..st }
    } else if c == '[' {
        LineState { opened: true, ..st }
    } else if c == ']' {
        LineState { closed: true, closed_after_open: st.closed_after_open || st.opened, ..st }
    } else {
        st
    }
}

/// Reading `s`: whether a finished line was reversed, and the state of the last line.
pub open spec fn read_lines(s: Seq<char>) -> (bool, LineState)
    decreases s.len(),
{
    if s.len() == 0 {
        (false, LineState { in_comment: false, opened: false, closed: false, closed_after_open: false })
    } else {
        let (bad, st) = read_lines(s.drop_last());
        let c = s.last();
        (bad || (c == '\n' && line_is_reversed(st)), step(st, c))
    }
}

/// No line of `text`, cut at its first `;` or `#`, has its last `]` before its first `[`.
/// The `ini` crate's reader cannot take such a line.
pub open spec fn brackets_in_order(text: Seq<char>) -> bool {
    let (bad, st) = read_lines(text);
    !bad && !line_is_reversed(st)
}

/// Whether no line of a manifest text has its brackets the wrong way round.
pub fn manifest_brackets_in_order(text: &str) -> (r: bool)
    ensures
        r == brackets_in_order(text@),
{
    let n = text.unicode_len();
    let mut bad = false;
    let mut st = LineState { in_comment: false, opened: false, closed: false, closed_after_open: false };
    let mut i: usize = 0;
    proof {
        assert(text@.subrange(0, 0) =~= Seq::<char>::empty());
    }
    while i < n
        invariant
            n == text@.len(),
            i <= n,
            read_lines(text@.subrange(0, i as int)) == (bad, st),
        decreases n - i,
    {
        let c = text.get_char(i);
        proof {
            assert(text@.subrange(0, i + 1).drop_last() =~= text@.subrange(0, i as int));
            assert(text@.subrange(0, i + 1).last() == c);
        }
        if c == '\n' {
            bad = bad || (st.opened && st.closed && !st.closed_after_open);
            st = LineState { in_comment: false, opened: false, closed: false, closed_after_open: false };
        } else if st.in_comment {
        } else if c == ';' || c == '#' {
            st = LineState { in_comment: true, opened: st.opened, closed: st.closed, closed_after_open: st.closed_after_open };
        } else if c == '[' {
            st = LineState { in_comment: st.in_comment, opened: true, closed: st.closed, closed_after_open: st.closed_after_open };
        } else if c == ']' {
            st = LineState { in_comment: st.in_comment, opened: st.opened, closed: true, closed_after_open: st.closed_after_open || st.opened };
        }
        i = i + 1;
    }
    proof {
        assert(text@.subrange(0, n as int) =~= text@);
    }
    !bad && !(st.opened && st.closed && !st.closed_after_open)
}

/// Relies on `ini::macro_safe_read`: it reads sections of keys and optional values from
/// a text, or rejects it with a message. The sections come in no fixed order. Its reader
/// panics on a line whose brackets are the wrong way round, which `requires` leaves out.
#[verifier::external_body]
fn read_manifest(text: &str) -> (r: Result<Vec<(String, String, Option<String>)>, String>)
    requires
        brackets_in_order(text@),
    ensures
        match ini_entries(text@) {
            Some(es) => r is Ok && triples_view(r->Ok_0@).no_duplicates() && triples_view(
                r->Ok_0@,
            ).to_set() == es,
            None => r is Err,
        },
{
    ini::macro_safe_read(text).map(|sections| {
        sections
            .into_iter()
            .flat_map(|(name, keys)| keys.into_iter().map(move |(k, v)| (name.clone(), k, v)))
            .collect()
    })
}

/// The values of the `path` keys among manifest entries, in their order.
pub open spec fn path_values(es: Seq<(Seq<char>, Seq<char>, Option<Seq<char>>)>) -> Seq<Seq<char>>
    decreases es.len(),
{
    if es.len() == 0 {
        Seq::empty()
    } else {
        let prev = path_values(es.drop_last());
        let e = es.last();
        if e.1 == "path"@ && e.2 is Some {
            prev.push(e.2->0)
        } else {
            prev
        }
    }
}

/// The profile directories that manifest entries name: every `path` value, in order.
pub fn manifest_paths(entries: &Vec<(String, String, Option<String>)>) -> (r: Vec<String>)
    ensures
        string_views(r@) == path_values(triples_view(entries@)),
{
    let ghost es = triples_view(entries@);
    let key = String::from_str("path");
    let mut out: Vec<String> = Vec::new();
    let mut i: usize = 0;
    proof {
        assert(es.subrange(0, 0) =~= Seq::<(Seq<char>, Seq<char>, Option<Seq<char>>)>::empty());
        assert(string_views(out@) =~= Seq::<Seq<char>>::empty());
    }
    while i < entries.len()
        invariant
            es == triples_view(entries@),
            key@ == "path"@,
            i <= entries.len(),
            string_views(out@) == path_values(es.subrange(0, i as int)),
        decreases entries.len() - i,
    {
        proof {
            assert(es.subrange(0, i + 1).drop_last() =~= es.subrange(0, i as int));
            assert(es.subrange(0, i + 1).last() == es[i as int]);
        }
        let e = &entries[i];
        if e.1 == key {
            match &e.2 {
                Some(v) => {
                    let ghost before = out@;
                    out.push(v.clone());
                    proof {
                        assert(string_views(out@) =~= string_views(before).push(v@));
                    }
                },
                None => {},
            }
        }
        i = i + 1;
    }
    proof {
        assert(es.subrange(0, entries.len() as int) =~= es);
    }
    out
}

/// The manifest disagrees with the profiles found: it names a directory that is not among
/// them while the two lists differ in length. A named directory that is present, or equal
/// lengths, is accepted.
pub open spec fn mismatch(profiles: Seq<Seq<char>>, manifest: Seq<Seq<char>>) -> bool {
    exists|i: int|
        0 <= i < manifest.len() && !profiles.contains(#[trigger] manifest[i]) && profiles.len()
            != manifest.len()
}

/// Whether the manifest's directory names disagree with the profiles found.
pub fn manifest_mismatch(profiles: &Vec<String>, manifest: &Vec<String>) -> (r: bool)
    ensures
        r == mismatch(string_views(profiles@), string_views(manifest@)),
{
    let ghost ps = string_views(profiles@);
    let ghost ms = string_views(manifest@);
    if profiles.len() == manifest.len() {
        return false;
    }
    let mut i: usize = 0;
    while i < manifest.len()
        invariant
            ps == string_views(profiles@),
            ms == string_views(manifest@),
            i <= manifest.len(),
            profiles.len() != manifest.len(),
            forall|k: int| 0 <= k < i ==> ps.contains(#[trigger] ms[k]),
        decreases manifest.len() - i,
    {
        let mut j: usize = 0;
        let mut present = false;
        while j < profiles.len()
            invariant_except_break
                !present,
            invariant
                ps == string_views(profiles@),
                ms == string_views(manifest@),
                i < manifest.len(),
                j <= profiles.len(),
                forall|k: int| 0 <= k < j ==> ps[k] != ms[i as int],
            ensures
                present ==> ps.contains(ms[i as int]),
                !present ==> !ps.contains(ms[i as int]),
            decreases profiles.len() - j,
        {
            if profiles[j] == manifest[i] {
                present = true;
                proof {
                    assert(ps[j as int] == ms[i as int]);
                }
                break;
            }
            j = j + 1;
        }
        if !present {
            proof {
                assert(!ps.contains(ms[i as int]) && ps.len() != ms.len());
            }
            return true;
        }
        i = i + 1;
    }
    false
}

/// The directories among `dirs` that look like profiles.
pub open spec fn profiles_of(dirs: Seq<Seq<char>>) -> Seq<Seq<char>> {
    matching(PROFILE_PATTERN@, dirs)
}

/// `m` is one way of listing the manifest entries `es`: each once, in some order.
pub open spec fn lists(m: Seq<(Seq<char>, Seq<char>, Option<Seq<char>>)>, es: Set<(Seq<char>, Seq<char>, Option<Seq<char>>)>) -> bool {
    m.no_duplicates() && m.to_set() == es
}

/// What discovery owes once the manifest has been read as `es`: either a mismatch error,
/// where the manifest disagrees with the profiles, or a result that holds them. Which
/// listing of `es` is taken makes no difference (see `manifest_verdict_ignores_order`).
pub open spec fn manifest_outcome(
    r: Result<Firefox, FirefoxError>,
    root: Seq<char>,
    dirs: Seq<String>,
    es: Set<(Seq<char>, Seq<char>, Option<Seq<char>>)>,
) -> bool {
    let profiles = profiles_of(string_views(dirs));
    let m = choose|m: Seq<(Seq<char>, Seq<char>, Option<Seq<char>>)>| lists(m, es);
    if mismatch(profiles, path_values(m)) {
        r matches Err(FirefoxError::ManifestMismatch)
    } else {
        r matches Ok(f) && f.root_firefox_path@ == root && f.root_firefox_directories@ == dirs
            && string_views(f.profiles@) == profiles && searched_map(
            root,
            profiles,
            pairs_view(f.database_map@),
        ) && (profiles.no_duplicates() ==> keys_of(pairs_view(f.database_map@)).no_duplicates())
    }
}

/// A manifest entry that names a profile directory.
pub open spec fn names_directory(e: (Seq<char>, Seq<char>, Option<Seq<char>>)) -> bool {
    e.1 == "path"@ && e.2 is Some
}

proof fn lemma_path_values_contains(m: Seq<(Seq<char>, Seq<char>, Option<Seq<char>>)>, v: Seq<char>)
    ensures
        path_values(m).contains(v) <==> exists|e|
            #![trigger m.contains(e)]
            m.contains(e) && names_directory(e) && e.2 == Some(v),
    decreases m.len(),
{
    if m.len() > 0 {
        let p = m.drop_last();
        lemma_path_values_contains(p, v);
        let pv = path_values(p);
        if path_values(m).contains(v) {
            let k = choose|k: int| 0 <= k < path_values(m).len() && path_values(m)[k] == v;
            if k < pv.len() {
                assert(pv[k] == v);
                let e = choose|e| p.contains(e) && names_directory(e) && e.2 == Some(v);
                let j = choose|j: int| 0 <= j < p.len() && p[j] == e;
                assert(m[j] == e);
                assert(m.contains(e));
            } else {
                assert(m[m.len() - 1] == m.last());
                assert(m.contains(m.last()));
            }
        }
        if exists|e| #![trigger m.contains(e)] m.contains(e) && names_directory(e) && e.2 == Some(v) {
            let e = choose|e| m.contains(e) && names_directory(e) && e.2 == Some(v);
            let j = choose|j: int| 0 <= j < m.len() && m[j] == e;
            if j < m.len() - 1 {
                assert(p[j] == e);
                assert(p.contains(e));
                let k = choose|k: int| 0 <= k < pv.len() && pv[k] == v;
                assert(path_values(m)[k] == v);
            } else {
                assert(path_values(m) == pv.push(v));
                assert(path_values(m)[pv.len() as int] == v);
            }
        }
    }
}

proof fn lemma_path_values_len(m: Seq<(Seq<char>, Seq<char>, Option<Seq<char>>)>)
    requires
        m.no_duplicates(),
    ensures
        m.to_set().filter(|e| names_directory(e)).finite(),
        path_values(m).len() == m.to_set().filter(|e| names_directory(e)).len(),
    decreases m.len(),
{
    broadcast use vstd::set::group_set_axioms, vstd::seq_lib::seq_to_set_is_finite;

    let f = |e: (Seq<char>, Seq<char>, Option<Seq<char>>)| names_directory(e);
    if m.len() == 0 {
        assert(m.to_set().filter(f) =~= Set::empty());
    } else {
        let p = m.drop_last();
        let x = m.last();
        assert(p.no_duplicates()) by {
            assert forall|i: int, j: int| 0 <= i < p.len() && 0 <= j < p.len() && i != j implies p[i] != p[j] by {
                assert(p[i] == m[i] && p[j] == m[j]);
            }
        }
        lemma_path_values_len(p);
        assert(m =~= p.push(x));
        assert(m.to_set() =~= p.to_set().insert(x)) by {
            p.lemma_push_to_set_commute(x);
        }
        assert(!p.to_set().contains(x)) by {
            if p.contains(x) {
                let j = choose|j: int| 0 <= j < p.len() && p[j] == x;
                assert(m[j] == m[m.len() - 1]);
            }
        }
        if names_directory(x) {
            assert(m.to_set().filter(f) =~= p.to_set().filter(f).insert(x));
        } else {
            assert(m.to_set().filter(f) =~= p.to_set().filter(f));
        }
    }
}

/// The manifest's verdict depends on its entries alone, not on the order in which they
/// were listed: any two listings of the same entries agree on whether the manifest
/// disagrees with the profiles.
pub proof fn manifest_verdict_ignores_order(
    profiles: Seq<Seq<char>>,
    es: Set<(Seq<char>, Seq<char>, Option<Seq<char>>)>,
    m1: Seq<(Seq<char>, Seq<char>, Option<Seq<char>>)>,
    m2: Seq<(Seq<char>, Seq<char>, Option<Seq<char>>)>,
)
    requires
        lists(m1, es),
        lists(m2, es),
    ensures
        mismatch(profiles, path_values(m1)) == mismatch(profiles, path_values(m2)),
{
    lemma_path_values_len(m1);
    lemma_path_values_len(m2);
    let pv1 = path_values(m1);
    let pv2 = path_values(m2);
    assert forall|v: Seq<char>| pv1.contains(v) <==> pv2.contains(v) by {
        lemma_path_values_contains(m1, v);
        lemma_path_values_contains(m2, v);
        assert forall|e| m1.contains(e) <==> m2.contains(e) by {
            assert(m1.to_set().contains(e) == m2.to_set().contains(e));
        }
    }
    if mismatch(profiles, pv1) {
        let i = choose|i: int| 0 <= i < pv1.len() && !profiles.contains(#[trigger] pv1[i]) && profiles.len() != pv1.len();
        assert(pv1.contains(pv1[i]));
        let j = choose|j: int| 0 <= j < pv2.len() && pv2[j] == pv1[i];
        assert(!profiles.contains(pv2[j]));
    }
    if mismatch(profiles, pv2) {
        let i = choose|i: int| 0 <= i < pv2.len() && !profiles.contains(#[trigger] pv2[i]) && profiles.len() != pv2.len();
        assert(pv2.contains(pv2[i]));
        let j = choose|j: int| 0 <= j < pv1.len() && pv1[j] == pv2[i];
        assert(!profiles.contains(pv1[j]));
    }
}

impl Firefox {
    /// The profile root on platform `os` for the user running the process; `None` where
    /// the platform is not supported.
    pub fn get_path(os: &str) -> (r: Option<String>)
        ensures
            r is Some <==> supported(os@),
            r is Some ==> exists|u: Seq<char>| root_of(os@, u) == Some(r->0@),
    {
        let user = current_username();
        resolve_root(os, user.as_str())
    }

    /// Discovers the profiles under a root. `root_firefox_path` is the root that
    /// `get_path` gave, `root_exists` whether it exists on disk, `root_firefox_directories`
    /// the directories right under it, and `profiles_ini` the text of its manifest, `None`
    /// where it could not be read. The checks run in that order; the first that fails
    /// decides the error.
    pub fn new(
        root_firefox_path: Option<String>,
        root_exists: bool,
        root_firefox_directories: Vec<String>,
        profiles_ini: Option<String>,
    ) -> (r: Result<Firefox, FirefoxError>)
        ensures
            match root_firefox_path {
                None => r matches Err(FirefoxError::Unsupported),
                Some(root) => if !root_exists {
                    r matches Err(FirefoxError::NotFound(p)) && p@ == root@
                } else if !regex_compiles(PROFILE_PATTERN@) {
                    r matches Err(FirefoxError::InvalidPattern)
                } else if profiles_of(string_views(root_firefox_directories@)).len() == 0 {
                    r matches Err(FirefoxError::NoProfiles)
                } else {
                    match profiles_ini {
                        None => r matches Err(FirefoxError::ManifestUnreadable(_)),
                        Some(text) => if !brackets_in_order(text@) {
                            r matches Err(FirefoxError::ManifestUnreadable(_))
                        } else {
                            match ini_entries(text@) {
                                None => r matches Err(FirefoxError::ManifestUnreadable(_)),
                                Some(es) => manifest_outcome(r, root@, root_firefox_directories@, es),
                            }
                        },
                    }
                },
            },
    {
        let root = match root_firefox_path {
            None => {
                return Err(FirefoxError::Unsupported);
            },
            Some(root) => root,
        };
        if !root_exists {
            return Err(FirefoxError::NotFound(root));
        }
        let candidates = root_firefox_directories.clone();
        proof {
            assert(string_views(candidates@) =~= string_views(root_firefox_directories@));
        }
        let profiles = match filter_directories(candidates, PROFILE_PATTERN) {
            None => {
                return Err(FirefoxError::InvalidPattern);
            },
            Some(p) => p,
        };
        if profiles.len() == 0 {
            return Err(FirefoxError::NoProfiles);
        }
        let text = match profiles_ini {
            None => {
                return Err(FirefoxError::ManifestUnreadable(String::new()));
            },
            Some(t) => t,
        };
        if !manifest_brackets_in_order(text.as_str()) {
            return Err(FirefoxError::ManifestUnreadable(String::new()));
        }
        let entries = match read_manifest(text.as_str()) {
            Err(why) => {
                return Err(FirefoxError::ManifestUnreadable(why));
            },
            Ok(es) => es,
        };
        let paths = manifest_paths(&entries);
        let ghost m = triples_view(entries@);
        proof {
            let es = m.to_set();
            assert(lists(m, es));
            let c = choose|c: Seq<(Seq<char>, Seq<char>, Option<Seq<char>>)>| lists(c, es);
            manifest_verdict_ignores_order(string_views(profiles@), es, m, c);
        }
        if manifest_mismatch(&profiles, &paths) {
            return Err(FirefoxError::ManifestMismatch);
        }
        let database_map = get_profile_database_map(root.as_str(), &profiles);
        Ok(Firefox { root_firefox_path: root, root_firefox_directories, profiles, database_map })
    }
}

/// A platform outside the supported set has no profile root, whoever the user is.
pub proof fn unsupported_platform_has_no_root(os: Seq<char>, username: Seq<char>)
    requires
        !supported(os),
    ensures
        root_of(os, username) is None,
{
}

/// A manifest whose every directory is among the profiles never disagrees with them,
/// whatever the two lengths.
pub proof fn present_entries_agree(profiles: Seq<Seq<char>>, manifest: Seq<Seq<char>>)
    requires
        forall|i: int| 0 <= i < manifest.len() ==> profiles.contains(#[trigger] manifest[i]),
    ensures
        !mismatch(profiles, manifest),
{
}

/// A manifest as long as the list of profiles never disagrees with it.
pub proof fn equal_lengths_agree(profiles: Seq<Seq<char>>, manifest: Seq<Seq<char>>)
    requires
        profiles.len() == manifest.len(),
    ensures
        !mismatch(profiles, manifest),
{
}

/// A manifest directory that is not among the profiles, with lengths that differ, is a
/// disagreement.
pub proof fn absent_entry_disagrees(profiles: Seq<Seq<char>>, manifest: Seq<Seq<char>>, i: int)
    requires
        0 <= i < manifest.len(),
        !profiles.contains(manifest[i]),
        profiles.len() != manifest.len(),
    ensures
        mismatch(profiles, manifest),
{
}

} // verus!
