//! Searches a directory tree for a named file, skipping hidden entries, and filters
//! directory names by a pattern.
use vstd::prelude::*;
use crate::domain::string_views;
use crate::pattern::{regex_is_match, regex_matches, regex_compiles, regex_new};

verus! {

/// One entry met in a directory walk: how deep below the start it lies (the start itself
/// at depth 0) and its file name, `None` where that is not valid UTF-8.
pub struct WalkEntry {
    pub depth: usize,
    pub name: Option<String>,
}

/// A name as plain values.
pub open spec fn name_view(n: Option<String>) -> Option<Seq<char>> {
    match n {
        Some(s) => Some(s@),
        None => None,
    }
}

/// A walk as plain values.
pub open spec fn entries_view(es: Seq<WalkEntry>) -> Seq<(nat, Option<Seq<char>>)> {
    es.map_values(|e: WalkEntry| (e.depth as nat, name_view(e.name)))
}

/// A hidden name starts with a dot.
pub open spec fn is_hidden_name(name: Seq<char>) -> bool {
    name.len() > 0 && name[0] == '.'
}

/// A walk keeps an entry unless its name is hidden; a name that is not UTF-8 is kept.
pub open spec fn is_visible(name: Option<Seq<char>>) -> bool {
    match name {
        Some(n) => !is_hidden_name(n),
        None => true,
    }
}

/// Whether a file name is hidden, that is, starts with a dot.
pub fn is_hidden(name: &str) -> (r: bool)
    ensures
        r == is_hidden_name(name@),
{
    name.unicode_len() > 0 && name.get_char(0) == '.'
}

/// Whether a walk keeps an entry of this name.
pub fn is_visible_entry(name: Option<&str>) -> (r: bool)
    ensures
        r == is_visible(
            match name {
                Some(n) => Some(n@),
                None => None,
            },
        ),
{
    match name {
        Some(n) => !is_hidden(n),
        None => true,
    }
}

/// Relies on `walkdir::WalkDir` with `filter_entry`: an entry for which the predicate is
/// false is neither yielded nor descended into. Entries that cannot be read are dropped.
/// Entries come depth first, each with `DirEntry::depth` and `DirEntry::file_name`.
#[verifier::external_body]
fn walk_visible(start: &str) -> (r: Vec<WalkEntry>)
    ensures
        forall|i: int| 0 <= i < r.len() ==> is_visible(#[trigger] entries_view(r@)[i].1),
{
    walkdir::WalkDir::new(start)
        .into_iter()
        .filter_entry(|e| is_visible_entry(e.file_name().to_str()))
        .flatten()
        .map(|e| WalkEntry { depth: e.depth(), name: e.file_name().to_str().map(|n| n.to_string()) })
        .collect()
}

/// The names from just below the start down to the entry last read. An entry at depth `d`
/// closes the chain at its parent, at depth `d - 1`, and joins it; an entry deeper than
/// that, which a depth-first walk never yields, leaves the chain as it is.
pub open spec fn chain(es: Seq<(nat, Option<Seq<char>>)>) -> Seq<Option<Seq<char>>>
    decreases es.len(),
{
    if es.len() == 0 {
        Seq::empty()
    } else {
        let c = chain(es.drop_last());
        let e = es.last();
        if e.0 == 0 {
            Seq::empty()
        } else if e.0 - 1 <= c.len() {
            c.take(e.0 - 1).push(e.1)
        } else {
            c
        }
    }
}

/// Every name of a chain is valid UTF-8.
pub open spec fn all_named(c: Seq<Option<Seq<char>>>) -> bool {
    forall|i: int| 0 <= i < c.len() ==> (#[trigger] c[i]) is Some
}

/// The names of a chain whose names are all valid UTF-8.
pub open spec fn unwrap_names(c: Seq<Option<Seq<char>>>) -> Seq<Seq<char>> {
    c.map_values(|o: Option<Seq<char>>| o->0)
}

/// `start` followed by each name, each after a `/`.
pub open spec fn joined_path(start: Seq<char>, names: Seq<Seq<char>>) -> Seq<char>
    decreases names.len(),
{
    if names.len() == 0 {
        start
    } else {
        joined_path(start, names.drop_last()) + "/"@ + names.last()
    }
}

/// The entry last read lies below the start, is named `f`, and every name on its chain is
/// valid UTF-8.
pub open spec fn last_is_match(es: Seq<(nat, Option<Seq<char>>)>, f: Seq<char>) -> bool {
    let e = es.last();
    es.len() > 0 && e.0 >= 1 && e.0 - 1 <= chain(es.drop_last()).len() && e.1 == Some(f)
        && all_named(chain(es))
}

/// The path of the first entry of a walk from `start` that is named `f`.
pub open spec fn search(es: Seq<(nat, Option<Seq<char>>)>, start: Seq<char>, f: Seq<char>) -> Option<Seq<char>>
    decreases es.len(),
{
    if es.len() == 0 {
        None
    } else {
        match search(es.drop_last(), start, f) {
            Some(p) => Some(p),
            None => if last_is_match(es, f) {
                Some(joined_path(start, unwrap_names(chain(es))))
            } else {
                None
            },
        }
    }
}

/// `p` is `start/n1/.../nk` for names `n1 .. nk`, at least one, none of them hidden, the
/// last one `f`.
pub open spec fn found_below(p: Seq<char>, start: Seq<char>, f: Seq<char>) -> bool {
    exists|names: Seq<Seq<char>>|
        #[trigger] joined_path(start, names) == p && names.len() >= 1 && names.last() == f
            && forall|i: int| 0 <= i < names.len() ==> !is_hidden_name(#[trigger] names[i])
}

fn copy_name(n: &Option<String>) -> (r: Option<String>)
    ensures
        name_view(r) == name_view(*n),
{
    match n {
        Some(s) => Some(s.clone()),
        None => None,
    }
}

/// `start` followed by the names of `chain`, or `None` where one is not valid UTF-8.
fn chain_path(start: &str, chain: &Vec<Option<String>>) -> (r: Option<String>)
    ensures
        match r {
            Some(p) => all_named(chain@.map_values(|o: Option<String>| name_view(o))) && p@
                == joined_path(start@, unwrap_names(chain@.map_values(|o: Option<String>| name_view(o)))),
            None => !all_named(chain@.map_values(|o: Option<String>| name_view(o))),
        },
{
    let ghost cv = chain@.map_values(|o: Option<String>| name_view(o));
    let mut acc = String::from_str(start);
    let mut k: usize = 0;
    proof {
        assert(unwrap_names(cv.take(0)) =~= Seq::<Seq<char>>::empty());
    }
    while k < chain.len()
        invariant
            cv == chain@.map_values(|o: Option<String>| name_view(o)),
            k <= chain.len(),
            forall|j: int| 0 <= j < k ==> (#[trigger] cv[j]) is Some,
            acc@ == joined_path(start@, unwrap_names(cv.take(k as int))),
        decreases chain.len() - k,
    {
        match &chain[k] {
            Some(n) => {
                proof {
                    reveal_strlit("/");
                    assert(unwrap_names(cv.take(k + 1)).drop_last() =~= unwrap_names(cv.take(k as int)));
                    assert(unwrap_names(cv.take(k + 1)).last() == n@);
                }
                acc = acc.concat("/").concat(n.as_str());
            },
            None => {
                proof {
                    assert(!(cv[k as int] is Some));
                }
                return None;
            },
        }
        k = k + 1;
    }
    proof {
        assert(cv.take(chain.len() as int) =~= cv);
    }
    Some(acc)
}

/// Picks, from a walk that started at `start_path`, the path of the first entry below the
/// start that is named `file_name`.
pub fn first_file_named(entries: &Vec<WalkEntry>, start_path: &str, file_name: &str) -> (r: Option<String>)
    ensures
        match search(entries_view(entries@), start_path@, file_name@) {
            Some(p) => r is Some && r->0@ == p,
            None => r is None,
        },
{
    let ghost es = entries_view(entries@);
    let target = String::from_str(file_name);
    let mut current: Vec<Option<String>> = Vec::new();
    let mut i: usize = 0;
    proof {
        assert(es.take(0) =~= Seq::<(nat, Option<Seq<char>>)>::empty());
        assert(current@.map_values(|o: Option<String>| name_view(o)) =~= Seq::<Option<Seq<char>>>::empty());
    }
    while i < entries.len()
        invariant
            es == entries_view(entries@),
            target@ == file_name@,
            i <= entries.len(),
            current@.map_values(|o: Option<String>| name_view(o)) == chain(es.take(i as int)),
            search(es.take(i as int), start_path@, file_name@) is None,
        decreases entries.len() - i,
    {
        let ghost pre = es.take(i as int);
        let ghost post = es.take(i + 1);
        proof {
            assert(post.drop_last() =~= pre);
            assert(post.last() == es[i as int]);
        }
        let e = &entries[i];
        let d = e.depth;
        proof {
            assert(es[i as int] == (e.depth as nat, name_view(e.name)));
        }
        if d == 0 {
            current = Vec::new();
            proof {
                assert(current@.map_values(|o: Option<String>| name_view(o)) =~= chain(post));
            }
        } else if d - 1 <= current.len() {
            let ghost before = current@.map_values(|o: Option<String>| name_view(o));
            current.truncate(d - 1);
            current.push(copy_name(&e.name));
            proof {
                assert(current@.map_values(|o: Option<String>| name_view(o)) =~= before.take(d - 1).push(
                    name_view(e.name),
                ));
                assert(current@.map_values(|o: Option<String>| name_view(o)) == chain(post));
            }
            let named = match &e.name {
                Some(n) => *n == target,
                None => false,
            };
            if named {
                match chain_path(start_path, &current) {
                    Some(p) => {
                        proof {
                            assert(last_is_match(post, file_name@));
                            assert(search(post, start_path@, file_name@) == Some(p@));
                            assert(es.take(i + 1) == post);
                            lemma_search_extends(es, (i + 1) as int, start_path@, file_name@);
                        }
                        return Some(p);
                    },
                    None => {},
                }
            }
        }
        i = i + 1;
    }
    proof {
        assert(es.take(entries.len() as int) =~= es);
    }
    None
}

proof fn lemma_chain_visible(es: Seq<(nat, Option<Seq<char>>)>)
    requires
        forall|i: int| 0 <= i < es.len() ==> is_visible(#[trigger] es[i].1),
    ensures
        forall|k: int| 0 <= k < chain(es).len() ==> is_visible(#[trigger] chain(es)[k]),
    decreases es.len(),
{
    if es.len() > 0 {
        let p = es.drop_last();
        assert forall|i: int| 0 <= i < p.len() implies is_visible(#[trigger] p[i].1) by {
            assert(p[i] == es[i]);
        }
        lemma_chain_visible(p);
        let c = chain(p);
        let e = es.last();
        assert(is_visible(es[es.len() - 1].1));
        if e.0 != 0 && e.0 - 1 <= c.len() {
            assert forall|k: int| 0 <= k < chain(es).len() implies is_visible(#[trigger] chain(es)[k]) by {
                if k < e.0 - 1 {
                    assert(chain(es)[k] == c[k]);
                } else {
                    assert(chain(es)[k] == e.1);
                }
            }
        }
    }
}

proof fn lemma_search_extends(es: Seq<(nat, Option<Seq<char>>)>, i: int, start: Seq<char>, f: Seq<char>)
    requires
        0 <= i <= es.len(),
        search(es.take(i), start, f) is Some,
    ensures
        search(es, start, f) == search(es.take(i), start, f),
    decreases es.len() - i,
{
    if i < es.len() {
        assert(es.take(i + 1).drop_last() =~= es.take(i));
        lemma_search_extends(es, i + 1, start, f);
    } else {
        assert(es.take(i) =~= es);
    }
}

proof fn lemma_search_found_below(es: Seq<(nat, Option<Seq<char>>)>, start: Seq<char>, f: Seq<char>)
    requires
        forall|i: int| 0 <= i < es.len() ==> is_visible(#[trigger] es[i].1),
    ensures
        search(es, start, f) is Some ==> found_below(search(es, start, f)->0, start, f),
    decreases es.len(),
{
    if es.len() > 0 {
        let p = es.drop_last();
        assert forall|i: int| 0 <= i < p.len() implies is_visible(#[trigger] p[i].1) by {
            assert(p[i] == es[i]);
        }
        lemma_search_found_below(p, start, f);
        if search(p, start, f) is None && last_is_match(es, f) {
            let c = chain(es);
            lemma_chain_visible(es);
            let names = unwrap_names(c);
            assert(c.len() >= 1);
            assert(c.last() == Some(f));
            assert forall|i: int| 0 <= i < names.len() implies !is_hidden_name(#[trigger] names[i]) by {
                assert(is_visible(c[i]));
                assert(c[i] is Some);
            }
            assert(joined_path(start, names) == search(es, start, f)->0);
        }
    }
}

/// Searches the tree under `start_path`, depth first, for an entry below it named
/// `file_name`, never looking at or into an entry whose name starts with a dot. A path
/// that it returns is `start_path/n1/.../file_name`, with no name in it after the start
/// that starts with a dot; a hidden file name is therefore never found.
pub fn get_file_path(start_path: &str, file_name: &str) -> (r: Option<String>)
    ensures
        r is Some ==> found_below(r->0@, start_path@, file_name@),
        is_hidden_name(file_name@) ==> r is None,
{
    let entries = walk_visible(start_path);
    let r = first_file_named(&entries, start_path, file_name);
    proof {
        let es = entries_view(entries@);
        lemma_search_found_below(es, start_path@, file_name@);
        if r is Some {
            let names = choose|names: Seq<Seq<char>>|
                #[trigger] joined_path(start_path@, names) == r->0@ && names.len() >= 1 && names.last()
                    == file_name@ && forall|i: int| 0 <= i < names.len() ==> !is_hidden_name(#[trigger] names[i]);
            assert(!is_hidden_name(names[names.len() - 1]));
        }
    }
    r
}

/// The name of the data-store file of a profile.
pub const DATABASE_FILE: &'static str = "places.sqlite";

/// Each name paired with what was found for it, where something was, in order.
pub open spec fn pairs(names: Seq<Seq<char>>, found: Seq<Option<Seq<char>>>) -> Seq<(Seq<char>, Seq<char>)>
    decreases names.len(),
{
    if names.len() == 0 || found.len() == 0 {
        Seq::empty()
    } else {
        let prev = pairs(names.drop_last(), found.drop_last());
        match found.last() {
            Some(p) => prev.push((names.last(), p)),
            None => prev,
        }
    }
}

/// A database map as plain values.
pub open spec fn pairs_view(m: Seq<(String, String)>) -> Seq<(Seq<char>, Seq<char>)> {
    m.map_values(|p: (String, String)| (p.0@, p.1@))
}

/// The profile names of a database map.
pub open spec fn keys_of(m: Seq<(Seq<char>, Seq<char>)>) -> Seq<Seq<char>> {
    m.map_values(|p: (Seq<char>, Seq<char>)| p.0)
}

/// Where the search for a profile's data store starts.
pub open spec fn profile_start(root: Seq<char>, profile: Seq<char>) -> Seq<char> {
    root + "/"@ + profile
}

/// `m` is the map that searching each profile under `root` can give: each profile whose
/// search found the data-store file, in order, with the path found, and no other profile.
pub open spec fn searched_map(root: Seq<char>, names: Seq<Seq<char>>, m: Seq<(Seq<char>, Seq<char>)>) -> bool {
    exists|found: Seq<Option<Seq<char>>>|
        #[trigger] pairs(names, found) == m && found.len() == names.len() && forall|i: int|
            0 <= i < found.len() && (#[trigger] found[i]) is Some ==> found_below(
                found[i]->0,
                profile_start(root, names[i]),
                DATABASE_FILE@,
            )
}

/// Pairs `profile_names[i]` with `found[i]` wherever that holds a path, in order.
pub fn database_pairs(profile_names: &Vec<String>, found: &Vec<Option<String>>) -> (r: Vec<(String, String)>)
    requires
        profile_names.len() == found.len(),
    ensures
        pairs_view(r@) == pairs(string_views(profile_names@), found@.map_values(|o: Option<String>| name_view(o))),
{
    let ghost names = string_views(profile_names@);
    let ghost fv = found@.map_values(|o: Option<String>| name_view(o));
    let mut out: Vec<(String, String)> = Vec::new();
    let mut i: usize = 0;
    proof {
        assert(pairs_view(out@) =~= pairs(names.take(0), fv.take(0)));
    }
    while i < found.len()
        invariant
            names == string_views(profile_names@),
            fv == found@.map_values(|o: Option<String>| name_view(o)),
            profile_names.len() == found.len(),
            i <= found.len(),
            pairs_view(out@) == pairs(names.take(i as int), fv.take(i as int)),
        decreases found.len() - i,
    {
        proof {
            assert(names.take(i + 1).drop_last() =~= names.take(i as int));
            assert(fv.take(i + 1).drop_last() =~= fv.take(i as int));
            assert(names.take(i + 1).last() == profile_names@[i as int]@);
            assert(fv.take(i + 1).last() == name_view(found@[i as int]));
        }
        match &found[i] {
            Some(p) => {
                let ghost before = out@;
                out.push((profile_names[i].clone(), p.clone()));
                proof {
                    assert(pairs_view(out@) =~= pairs_view(before).push((profile_names@[i as int]@, p@)));
                }
            },
            None => {},
        }
        i = i + 1;
    }
    proof {
        assert(names.take(found.len() as int) =~= names);
        assert(fv.take(found.len() as int) =~= fv);
    }
    out
}

proof fn lemma_pairs_keys(names: Seq<Seq<char>>, found: Seq<Option<Seq<char>>>)
    requires
        names.len() == found.len(),
    ensures
        forall|x: Seq<char>| keys_of(pairs(names, found)).contains(x) ==> names.contains(x),
        names.no_duplicates() ==> keys_of(pairs(names, found)).no_duplicates(),
    decreases names.len(),
{
    if names.len() > 0 {
        let n = names.drop_last();
        let f = found.drop_last();
        lemma_pairs_keys(n, f);
        let pk = keys_of(pairs(n, f));
        let k = keys_of(pairs(names, found));
        if found.last() is Some {
            assert(k =~= pk.push(names.last()));
        } else {
            assert(k == pk);
        }
        assert forall|x: Seq<char>| k.contains(x) implies names.contains(x) by {
            let j = choose|j: int| 0 <= j < k.len() && k[j] == x;
            if j < pk.len() {
                assert(pk[j] == x);
                assert(pk.contains(x));
                assert(n.contains(x));
                let m = choose|m: int| 0 <= m < n.len() && n[m] == x;
                assert(names[m] == x);
            } else {
                assert(names[names.len() - 1] == x);
            }
        }
        if names.no_duplicates() {
            assert(n.no_duplicates()) by {
                assert forall|a: int, b: int| 0 <= a < n.len() && 0 <= b < n.len() && a != b implies n[a] != n[b] by {
                    assert(n[a] == names[a] && n[b] == names[b]);
                }
            }
            if found.last() is Some {
                assert(k =~= pk.push(names.last()));
                assert(!pk.contains(names.last())) by {
                    if pk.contains(names.last()) {
                        assert(n.contains(names.last()));
                        let m = choose|m: int| 0 <= m < n.len() && n[m] == names.last();
                        assert(names[m] == names[names.len() - 1]);
                    }
                }
            } else {
                assert(k == pk);
            }
        }
    }
}

/// Searches for the data-store file of each profile, starting at
/// `root_firefox_path/profile`. A profile whose file is found is listed with the path
/// found, in the order of the names; a profile whose file is not found is left out.
pub fn get_profile_database_map(root_firefox_path: &str, profile_names: &Vec<String>) -> (r: Vec<
    (String, String),
>)
    ensures
        searched_map(root_firefox_path@, string_views(profile_names@), pairs_view(r@)),
        string_views(profile_names@).no_duplicates() ==> keys_of(pairs_view(r@)).no_duplicates(),
{
    let ghost names = string_views(profile_names@);
    let mut found: Vec<Option<String>> = Vec::new();
    let mut i: usize = 0;
    while i < profile_names.len()
        invariant
            names == string_views(profile_names@),
            i <= profile_names.len(),
            found.len() == i,
            forall|k: int|
                0 <= k < i && (#[trigger] found@[k]) is Some ==> found_below(
                    found@[k]->0@,
                    profile_start(root_firefox_path@, names[k]),
                    DATABASE_FILE@,
                ),
        decreases profile_names.len() - i,
    {
        let start = String::from_str(root_firefox_path).concat("/").concat(profile_names[i].as_str());
        proof {
            reveal_strlit("/");
        }
        let hit = get_file_path(start.as_str(), DATABASE_FILE);
        found.push(hit);
        i = i + 1;
    }
    let r = database_pairs(profile_names, &found);
    proof {
        let fv = found@.map_values(|o: Option<String>| name_view(o));
        assert forall|k: int| 0 <= k < fv.len() && (#[trigger] fv[k]) is Some implies found_below(
            fv[k]->0,
            profile_start(root_firefox_path@, names[k]),
            DATABASE_FILE@,
        ) by {
            assert(found@[k] is Some);
        }
        assert(pairs(names, fv) == pairs_view(r@));
        lemma_pairs_keys(names, fv);
    }
    r
}

/// The names that `pattern` matches, in their order.
pub open spec fn matching(pattern: Seq<char>, names: Seq<Seq<char>>) -> Seq<Seq<char>>
    decreases names.len(),
{
    if names.len() == 0 {
        Seq::empty()
    } else {
        let prev = matching(pattern, names.drop_last());
        if regex_matches(pattern, names.last()) {
            prev.push(names.last())
        } else {
            prev
        }
    }
}

/// The names whose flag is set, in their order.
pub open spec fn selected(names: Seq<Seq<char>>, flags: Seq<bool>) -> Seq<Seq<char>>
    decreases names.len(),
{
    if names.len() == 0 || flags.len() == 0 {
        Seq::empty()
    } else {
        let prev = selected(names.drop_last(), flags.drop_last());
        if flags.last() {
            prev.push(names.last())
        } else {
            prev
        }
    }
}

/// Keeps `dir_names[i]` exactly where `matches[i]` holds, in order.
pub fn select_matching(dir_names: Vec<String>, matches: &Vec<bool>) -> (r: Vec<String>)
    requires
        dir_names.len() == matches.len(),
    ensures
        string_views(r@) == selected(string_views(dir_names@), matches@),
{
    let ghost names = string_views(dir_names@);
    let mut out: Vec<String> = Vec::new();
    let mut i: usize = 0;
    proof {
        assert(names.subrange(0, 0) =~= Seq::<Seq<char>>::empty());
        assert(string_views(out@) =~= Seq::<Seq<char>>::empty());
    }
    while i < dir_names.len()
        invariant
            names == string_views(dir_names@),
            dir_names.len() == matches.len(),
            i <= dir_names.len(),
            string_views(out@) == selected(names.subrange(0, i as int), matches@.subrange(0, i as int)),
        decreases dir_names.len() - i,
    {
        proof {
            assert(names.subrange(0, i + 1).drop_last() =~= names.subrange(0, i as int));
            assert(matches@.subrange(0, i + 1).drop_last() =~= matches@.subrange(0, i as int));
            assert(names.subrange(0, i + 1).last() == dir_names@[i as int]@);
            assert(matches@.subrange(0, i + 1).last() == matches@[i as int]);
        }
        if matches[i] {
            let ghost before = out@;
            out.push(dir_names[i].clone());
            proof {
                assert(string_views(out@) =~= string_views(before).push(dir_names@[i as int]@));
            }
        }
        i = i + 1;
    }
    proof {
        assert(names.subrange(0, dir_names.len() as int) =~= names);
        assert(matches@.subrange(0, dir_names.len() as int) =~= matches@);
    }
    out
}

proof fn lemma_matching_is_selected(pattern: Seq<char>, names: Seq<Seq<char>>, flags: Seq<bool>)
    requires
        names.len() == flags.len(),
        forall|i: int| 0 <= i < names.len() ==> flags[i] == regex_matches(pattern, #[trigger] names[i]),
    ensures
        matching(pattern, names) == selected(names, flags),
    decreases names.len(),
{
    if names.len() > 0 {
        let n = names.drop_last();
        let f = flags.drop_last();
        assert forall|i: int| 0 <= i < n.len() implies f[i] == regex_matches(pattern, #[trigger] n[i]) by {
            assert(n[i] == names[i]);
        }
        lemma_matching_is_selected(pattern, n, f);
        assert(flags.last() == regex_matches(pattern, names[names.len() - 1]));
    }
}

/// Keeps the names that the regular expression `regex_str` matches, in their order;
/// `None` where the `regex` crate rejects the expression.
pub fn filter_directories(dir_names: Vec<String>, regex_str: &str) -> (r: Option<Vec<String>>)
    ensures
        r is Some <==> regex_compiles(regex_str@),
        r is Some ==> string_views(r->0@) == matching(regex_str@, string_views(dir_names@)),
{
    let pattern = match regex_new(regex_str) {
        Some(p) => p,
        None => {
            return None;
        },
    };
    let ghost names = string_views(dir_names@);
    let mut flags: Vec<bool> = Vec::new();
    let mut i: usize = 0;
    while i < dir_names.len()
        invariant
            names == string_views(dir_names@),
            pattern.source() == regex_str@,
            i <= dir_names.len(),
            flags.len() == i,
            forall|k: int| 0 <= k < i ==> flags@[k] == regex_matches(regex_str@, #[trigger] names[k]),
        decreases dir_names.len() - i,
    {
        let m = regex_is_match(&pattern, dir_names[i].as_str());
        flags.push(m);
        i = i + 1;
    }
    proof {
        lemma_matching_is_selected(regex_str@, names, flags@);
    }
    Some(select_matching(dir_names, &flags))
}

} // verus!
