//! Canonical site names for visited URLs, and per-profile visit rankings.
use vstd::prelude::*;

verus! {

/// The dot-separated labels of a host name, left to right, as `str::split('.')` yields them.
pub open spec fn labels(s: Seq<char>) -> Seq<Seq<char>>
    decreases s.len(),
{
    if s.len() == 0 {
        seq![Seq::empty()]
    } else {
        let prev = labels(s.drop_last());
        if s.last() == '.' {
            prev.push(Seq::empty())
        } else {
            prev.update(prev.len() - 1, prev.last().push(s.last()))
        }
    }
}

/// Labels joined back together with dots.
pub open spec fn join_dots(ls: Seq<Seq<char>>) -> Seq<char>
    decreases ls.len(),
{
    if ls.len() == 0 {
        Seq::empty()
    } else if ls.len() == 1 {
        ls[0]
    } else {
        join_dots(ls.drop_last()) + seq!['.'] + ls.last()
    }
}

/// How many trailing labels make up the site: three when the second-to-last label is
/// `co` (as in `example.co.uk`), two otherwise. A heuristic, not a public-suffix list.
pub open spec fn site_label_count(ls: Seq<Seq<char>>) -> int {
    if ls.len() >= 2 && ls[ls.len() - 2] == seq!['c', 'o'] {
        3
    } else {
        2
    }
}

/// The registrable domain of a host: its last two labels, or last three after a `co`.
pub open spec fn site_of_host(host: Seq<char>) -> Seq<char> {
    let ls = labels(host);
    let k = site_label_count(ls);
    let start = if ls.len() >= k { ls.len() - k } else { 0 };
    join_dots(ls.subrange(start, ls.len() as int))
}

/// A sequence of strings as plain character sequences.
pub open spec fn string_views(v: Seq<String>) -> Seq<Seq<char>> {
    v.map_values(|l: String| l@)
}

proof fn lemma_labels_nonempty(s: Seq<char>)
    ensures
        labels(s).len() >= 1,
    decreases s.len(),
{
    if s.len() > 0 {
        lemma_labels_nonempty(s.drop_last());
    }
}

/// Splits a host name at its dots.
fn host_labels(host: &str) -> (r: Vec<String>)
    ensures
        string_views(r@) == labels(host@),
{
    let n = host.unicode_len();
    let mut out: Vec<String> = Vec::new();
    let mut start: usize = 0;
    let mut i: usize = 0;
    proof {
        assert(host@.subrange(0, 0) =~= Seq::<char>::empty());
        assert(string_views(out@).push(host@.subrange(0, 0)) =~= labels(Seq::<char>::empty()));
    }
    while i < n
        invariant
            n == host@.len(),
            start <= i <= n,
            string_views(out@).push(host@.subrange(start as int, i as int)) == labels(
                host@.subrange(0, i as int),
            ),
        decreases n - i,
    {
        let c = host.get_char(i);
        let ghost before = host@.subrange(0, i as int);
        let ghost after = host@.subrange(0, i + 1);
        proof {
            assert(after.drop_last() =~= before);
            assert(after.last() == c);
            lemma_labels_nonempty(before);
        }
        if c == '.' {
            let ghost out_before = out@;
            let piece = host.substring_char(start, i).to_owned();
            out.push(piece);
            proof {
                assert(string_views(out@) =~= string_views(out_before).push(piece@));
                assert(host@.subrange(i + 1, i + 1) =~= Seq::<char>::empty());
            }
            start = i + 1;
        } else {
            proof {
                let prev = labels(before);
                assert(host@.subrange(start as int, i as int).push(c) =~= host@.subrange(
                    start as int,
                    i + 1,
                ));
                assert(string_views(out@).push(host@.subrange(start as int, i + 1)) =~= prev.update(
                    prev.len() - 1,
                    prev.last().push(c),
                ));
            }
        }
        i = i + 1;
    }
    let last = host.substring_char(start, n).to_owned();
    out.push(last);
    proof {
        assert(host@.subrange(0, n as int) =~= host@);
        assert(string_views(out@) =~= string_views(out@.drop_last()).push(last@));
    }
    out
}

/// Joins `ls[from..]` with dots.
fn join_from(ls: &Vec<String>, from: usize) -> (r: String)
    requires
        from < ls.len(),
    ensures
        r@ == join_dots(string_views(ls@).subrange(from as int, ls.len() as int)),
{
    let ghost v = string_views(ls@);
    let mut acc = ls[from].clone();
    let mut j: usize = from + 1;
    proof {
        assert(v.subrange(from as int, j as int) =~= seq![v[from as int]]);
    }
    while j < ls.len()
        invariant
            v == string_views(ls@),
            from < j <= ls.len(),
            acc@ == join_dots(v.subrange(from as int, j as int)),
        decreases ls.len() - j,
    {
        proof {
            reveal_strlit(".");
            assert(v.subrange(from as int, j + 1).drop_last() =~= v.subrange(from as int, j as int));
        }
        acc.append(".");
        acc.append(ls[j].as_str());
        j = j + 1;
    }
    acc
}

/// The registrable domain of a host name: its last two labels, or its last three where
/// the second-to-last label is `co` (`mail.example.co.uk` gives `example.co.uk`).
pub fn registrable_domain(host: &str) -> (r: String)
    ensures
        r@ == site_of_host(host@),
{
    let ls = host_labels(host);
    proof {
        lemma_labels_nonempty(host@);
    }
    let n = ls.len();
    let mut k: usize = 2;
    if n >= 2 {
        let co = String::from_str("co");
        proof {
            reveal_strlit("co");
            assert(co@ =~= seq!['c', 'o']);
        }
        if ls[n - 2] == co {
            k = 3;
        }
    }
    let start: usize = if n >= k { n - k } else { 0 };
    join_from(&ls, start)
}

/// What `url::Url::parse` followed by `Url::host_str` gives for a string: the host, or
/// `None` where the string does not parse or has no host.
pub uninterp spec fn parsed_host(s: Seq<char>) -> Option<Seq<char>>;

/// Relies on `url::Url::parse` and `Url::host_str`: parsing depends on the text alone.
#[verifier::external_body]
fn url_host(s: &str) -> (r: Option<String>)
    ensures
        match parsed_host(s@) {
            Some(h) => r is Some && r->0@ == h,
            None => r is None,
        },
{
    url::Url::parse(s).ok().and_then(|u| u.host_str().map(|h| h.to_string()))
}

/// The site a visited URL counts towards; `None` where it has no parsable host.
pub open spec fn site_of_url(url: Seq<char>) -> Option<Seq<char>> {
    match parsed_host(url) {
        Some(h) => Some(site_of_host(h)),
        None => None,
    }
}

/// The registrable domain of a URL's host, or `None` where the URL does not parse or has
/// no host.
pub fn extract_hostname(url_string: &str) -> (r: Option<String>)
    ensures
        match site_of_url(url_string@) {
            Some(d) => r is Some && r->0@ == d,
            None => r is None,
        },
{
    match url_host(url_string) {
        Some(h) => Some(registrable_domain(h.as_str())),
        None => None,
    }
}

/// The sites of the URLs that have one, in the order of the URLs.
pub open spec fn sites_of(urls: Seq<Seq<char>>) -> Seq<Seq<char>>
    decreases urls.len(),
{
    if urls.len() == 0 {
        Seq::empty()
    } else {
        let prev = sites_of(urls.drop_last());
        match site_of_url(urls.last()) {
            Some(d) => prev.push(d),
            None => prev,
        }
    }
}

/// The distinct sites of `ds`, in the order in which each is first met.
pub open spec fn first_seen(ds: Seq<Seq<char>>) -> Seq<Seq<char>>
    decreases ds.len(),
{
    if ds.len() == 0 {
        Seq::empty()
    } else {
        let prev = first_seen(ds.drop_last());
        if prev.contains(ds.last()) {
            prev
        } else {
            prev.push(ds.last())
        }
    }
}

/// How often `d` occurs in `ds`.
pub open spec fn occurrences(ds: Seq<Seq<char>>, d: Seq<char>) -> nat
    decreases ds.len(),
{
    if ds.len() == 0 {
        0
    } else {
        occurrences(ds.drop_last(), d) + if ds.last() == d {
            1nat
        } else {
            0nat
        }
    }
}

/// Each distinct site with its number of occurrences, in first-seen order.
pub open spec fn tally(ds: Seq<Seq<char>>) -> Seq<(Seq<char>, nat)> {
    first_seen(ds).map_values(|d: Seq<char>| (d, occurrences(ds, d)))
}

/// A tally as plain values.
pub open spec fn counts_view(v: Seq<(String, usize)>) -> Seq<(Seq<char>, nat)> {
    v.map_values(|p: (String, usize)| (p.0@, p.1 as nat))
}

proof fn lemma_occurrences_bound(ds: Seq<Seq<char>>, d: Seq<char>)
    ensures
        occurrences(ds, d) <= ds.len(),
    decreases ds.len(),
{
    if ds.len() > 0 {
        lemma_occurrences_bound(ds.drop_last(), d);
    }
}

/// Counts the occurrences of each site, listing the sites in the order first met.
pub fn tally_sites(domains: &Vec<String>) -> (r: Vec<(String, usize)>)
    ensures
        counts_view(r@) == tally(string_views(domains@)),
{
    let ghost ds = string_views(domains@);
    let mut out: Vec<(String, usize)> = Vec::new();
    let mut i: usize = 0;
    proof {
        assert(counts_view(out@) =~= tally(ds.subrange(0, 0)));
    }
    while i < domains.len()
        invariant
            ds == string_views(domains@),
            i <= domains.len(),
            counts_view(out@) == tally(ds.subrange(0, i as int)),
        decreases domains.len() - i,
    {
        let ghost pre = ds.subrange(0, i as int);
        let ghost post = ds.subrange(0, i + 1);
        proof {
            assert(post.drop_last() =~= pre);
            assert(post.last() == ds[i as int]);
        }
        let d = &domains[i];
        let mut j: usize = 0;
        let mut found = false;
        while j < out.len()
            invariant_except_break
                !found,
            invariant
                counts_view(out@) == tally(pre),
                j <= out.len(),
                forall|k: int| 0 <= k < j ==> out@[k].0@ != d@,
            ensures
                found ==> j < out.len() && out@[j as int].0@ == d@,
                !found ==> j == out.len(),
            decreases out.len() - j,
        {
            if out[j].0 == *d {
                found = true;
                break;
            }
            j = j + 1;
        }
        let ghost old_out = counts_view(out@);
        proof {
            assert(first_seen(pre) =~= old_out.map_values(|p: (Seq<char>, nat)| p.0));
            lemma_occurrences_bound(pre, d@);
        }
        if found {
            assert(out@[j as int].0@ == d@);
            let c = out[j].1;
            let ghost fs = first_seen(pre);
            assert(old_out[j as int] == (out@[j as int].0@, out@[j as int].1 as nat));
            assert(tally(pre)[j as int] == (fs[j as int], occurrences(pre, fs[j as int])));
            assert(c as nat == occurrences(pre, d@));
            let name = out[j].0.clone();
            out.set(j, (name, c + 1));
            proof {
                assert(fs[j as int] == d@);
                assert(fs.contains(d@));
                assert(first_seen(post) == fs);
                lemma_first_seen_distinct(pre);
                assert forall|k: int| 0 <= k < fs.len() implies #[trigger] counts_view(out@)[k]
                    == tally(post)[k] by {
                    if k != j {
                        assert(fs[k] != fs[j as int]);
                        assert(counts_view(out@)[k] == old_out[k]);
                    }
                }
                assert(counts_view(out@) =~= tally(post));
            }
        } else {
            out.push((d.clone(), 1));
            proof {
                assert(!first_seen(pre).contains(d@)) by {
                    if first_seen(pre).contains(d@) {
                        let k = choose|k: int| 0 <= k < first_seen(pre).len() && first_seen(pre)[k] == d@;
                        assert(old_out[k].0 == out@[k].0@);
                        assert(out@[k].0@ == d@);
                    }
                }
                assert(first_seen(post) == first_seen(pre).push(d@));
                lemma_first_seen_absent(pre, d@);
                assert(counts_view(out@) =~= tally(post));
            }
        }
        i = i + 1;
    }
    proof {
        assert(ds.subrange(0, domains.len() as int) =~= ds);
    }
    out
}

proof fn lemma_first_seen_distinct(ds: Seq<Seq<char>>)
    ensures
        first_seen(ds).no_duplicates(),
    decreases ds.len(),
{
    if ds.len() > 0 {
        lemma_first_seen_distinct(ds.drop_last());
    }
}

proof fn lemma_first_seen_absent(ds: Seq<Seq<char>>, d: Seq<char>)
    requires
        !first_seen(ds).contains(d),
    ensures
        occurrences(ds, d) == 0,
    decreases ds.len(),
{
    if ds.len() > 0 {
        let prev = first_seen(ds.drop_last());
        if prev.contains(ds.last()) {
        } else {
            assert(first_seen(ds).last() == ds.last());
            assert(ds.last() != d);
        }
        assert(!prev.contains(d)) by {
            if prev.contains(d) {
                let k = choose|k: int| 0 <= k < prev.len() && prev[k] == d;
                assert(first_seen(ds)[k] == d);
            }
        }
        lemma_first_seen_absent(ds.drop_last(), d);
    }
}

/// How many sites a profile's ranking keeps.
pub const TOP_SITES: usize = 5;

/// Inserts `x` after every entry whose count is at least its own.
pub open spec fn insert_ranked(s: Seq<(Seq<char>, nat)>, x: (Seq<char>, nat)) -> Seq<
    (Seq<char>, nat),
>
    decreases s.len(),
{
    if s.len() == 0 {
        seq![x]
    } else if s[0].1 < x.1 {
        seq![x] + s
    } else {
        seq![s[0]] + insert_ranked(s.drop_first(), x)
    }
}

/// The entries of `t` by descending count; entries with equal counts keep their order in `t`.
pub open spec fn ranked(t: Seq<(Seq<char>, nat)>) -> Seq<(Seq<char>, nat)>
    decreases t.len(),
{
    if t.len() == 0 {
        Seq::empty()
    } else {
        insert_ranked(ranked(t.drop_last()), t.last())
    }
}

/// The ranking of a profile's history: its most visited sites, most visited first, at most
/// `TOP_SITES` of them, ties in the order in which the sites were first visited.
pub open spec fn top_ranked(urls: Seq<Seq<char>>) -> Seq<(Seq<char>, nat)> {
    let r = ranked(tally(sites_of(urls)));
    if r.len() <= TOP_SITES {
        r
    } else {
        r.take(TOP_SITES as int)
    }
}

proof fn lemma_insert_ranked_at(s: Seq<(Seq<char>, nat)>, x: (Seq<char>, nat), p: int)
    requires
        0 <= p <= s.len(),
        forall|k: int| 0 <= k < p ==> s[k].1 >= x.1,
        p < s.len() ==> s[p].1 < x.1,
    ensures
        insert_ranked(s, x) == s.insert(p, x),
    decreases s.len(),
{
    if s.len() == 0 {
        assert(s.insert(p, x) =~= seq![x]);
    } else if p == 0 {
        assert(s.insert(p, x) =~= seq![x] + s);
    } else {
        let t = s.drop_first();
        assert forall|k: int| 0 <= k < p - 1 implies t[k].1 >= x.1 by {
            assert(t[k] == s[k + 1]);
        }
        lemma_insert_ranked_at(t, x, p - 1);
        assert(s.insert(p, x) =~= seq![s[0]] + t.insert(p - 1, x));
    }
}

/// Orders a tally by descending count, keeping the order of entries with equal counts.
pub fn rank_sites(tally: &Vec<(String, usize)>) -> (r: Vec<(String, usize)>)
    ensures
        counts_view(r@) == ranked(counts_view(tally@)),
{
    let ghost t = counts_view(tally@);
    let mut out: Vec<(String, usize)> = Vec::new();
    let mut i: usize = 0;
    proof {
        assert(t.subrange(0, 0) =~= Seq::<(Seq<char>, nat)>::empty());
        assert(counts_view(out@) =~= Seq::<(Seq<char>, nat)>::empty());
    }
    while i < tally.len()
        invariant
            t == counts_view(tally@),
            i <= tally.len(),
            counts_view(out@) == ranked(t.subrange(0, i as int)),
        decreases tally.len() - i,
    {
        let count = tally[i].1;
        let mut p: usize = 0;
        while p < out.len() && out[p].1 >= count
            invariant
                p <= out.len(),
                forall|k: int| 0 <= k < p ==> out@[k].1 >= count,
            decreases out.len() - p,
        {
            p = p + 1;
        }
        let ghost before = counts_view(out@);
        let entry = (tally[i].0.clone(), count);
        out.insert(p, entry);
        proof {
            assert(t.subrange(0, i + 1).drop_last() =~= t.subrange(0, i as int));
            assert(t.subrange(0, i + 1).last() == t[i as int]);
            assert forall|k: int| 0 <= k < p implies before[k].1 >= t[i as int].1 by {
                assert(before[k].1 == out@[k].1);
            }
            lemma_insert_ranked_at(before, t[i as int], p as int);
            assert(counts_view(out@) =~= before.insert(p as int, t[i as int]));
        }
        i = i + 1;
    }
    proof {
        assert(t.subrange(0, tally.len() as int) =~= t);
    }
    out
}

/// The sites of the URLs that have a parsable host, in the order of the URLs.
fn sites_of_urls(urls: &Vec<String>) -> (r: Vec<String>)
    ensures
        string_views(r@) == sites_of(string_views(urls@)),
{
    let ghost us = string_views(urls@);
    let mut out: Vec<String> = Vec::new();
    let mut i: usize = 0;
    proof {
        assert(us.subrange(0, 0) =~= Seq::<Seq<char>>::empty());
        assert(string_views(out@) =~= Seq::<Seq<char>>::empty());
    }
    while i < urls.len()
        invariant
            us == string_views(urls@),
            i <= urls.len(),
            string_views(out@) == sites_of(us.subrange(0, i as int)),
        decreases urls.len() - i,
    {
        proof {
            assert(us.subrange(0, i + 1).drop_last() =~= us.subrange(0, i as int));
            assert(us.subrange(0, i + 1).last() == urls@[i as int]@);
        }
        match extract_hostname(urls[i].as_str()) {
            Some(d) => {
                let ghost before = out@;
                out.push(d);
                proof {
                    assert(string_views(out@) =~= string_views(before).push(d@));
                }
            },
            None => {},
        }
        i = i + 1;
    }
    proof {
        assert(us.subrange(0, urls.len() as int) =~= us);
    }
    out
}

/// Ranks the sites of one profile's visited URLs: at most `TOP_SITES` of them, most
/// visited first, ties in first-visited order. URLs without a parsable host count for
/// nothing.
pub fn top_sites(urls: &Vec<String>) -> (r: Vec<(String, usize)>)
    ensures
        counts_view(r@) == top_ranked(string_views(urls@)),
{
    let domains = sites_of_urls(urls);
    let counts = tally_sites(&domains);
    let mut r = rank_sites(&counts);
    r.truncate(TOP_SITES);
    proof {
        let full = ranked(tally(sites_of(string_views(urls@))));
        if full.len() > TOP_SITES {
            assert(counts_view(r@) =~= full.take(TOP_SITES as int));
        }
    }
    r
}

/// Ranks the sites of every profile's visited URLs, profile by profile, in the order given.
/// A profile whose history could not be read comes with no URLs and gets an empty ranking;
/// the other profiles are ranked all the same.
pub fn count_sites(profiles: &Vec<(String, Vec<String>)>) -> (r: Vec<(String, Vec<(String, usize)>)>)
    ensures
        r.len() == profiles.len(),
        forall|i: int|
            0 <= i < r.len() ==> (#[trigger] r@[i]).0@ == profiles@[i].0@ && counts_view(r@[i].1@)
                == top_ranked(string_views(profiles@[i].1@)),
{
    let mut out: Vec<(String, Vec<(String, usize)>)> = Vec::new();
    let mut i: usize = 0;
    while i < profiles.len()
        invariant
            i <= profiles.len(),
            out.len() == i,
            forall|k: int|
                0 <= k < i ==> (#[trigger] out@[k]).0@ == profiles@[k].0@ && counts_view(out@[k].1@)
                    == top_ranked(string_views(profiles@[k].1@)),
        decreases profiles.len() - i,
    {
        let ranking = top_sites(&profiles[i].1);
        let ghost before = out@;
        out.push((profiles[i].0.clone(), ranking));
        proof {
            assert forall|k: int| 0 <= k < i implies out@[k] == before[k] by {}
        }
        i = i + 1;
    }
    out
}

/// Ranking depends on the visited URLs alone: the same histories give the same rankings,
/// entry for entry and in the same order.
pub proof fn ranking_is_deterministic(a: Seq<Seq<char>>, b: Seq<Seq<char>>)
    requires
        a == b,
    ensures
        top_ranked(a) == top_ranked(b),
        ranked(tally(sites_of(a))) == ranked(tally(sites_of(b))),
{
}

/// A profile with no visited URLs, as one whose history could not be read, ranks no site.
pub proof fn empty_history_ranks_nothing()
    ensures
        top_ranked(Seq::empty()) == Seq::<(Seq<char>, nat)>::empty(),
{
    assert(sites_of(Seq::empty()) =~= Seq::<Seq<char>>::empty());
    assert(tally(Seq::empty()) =~= Seq::<(Seq<char>, nat)>::empty());
}

proof fn lemma_insert_ranked_sorted(s: Seq<(Seq<char>, nat)>, x: (Seq<char>, nat))
    requires
        forall|i: int, j: int| 0 <= i < j < s.len() ==> s[i].1 >= s[j].1,
    ensures
        insert_ranked(s, x).len() == s.len() + 1,
        forall|i: int, j: int|
            0 <= i < j < insert_ranked(s, x).len() ==> insert_ranked(s, x)[i].1 >= insert_ranked(
                s,
                x,
            )[j].1,
        forall|e| #[trigger] insert_ranked(s, x).contains(e) <==> (s.contains(e) || e == x),
    decreases s.len(),
{
    if s.len() == 0 {
        let r = seq![x];
        assert(insert_ranked(s, x) =~= r);
        assert forall|e| r.contains(e) <==> (s.contains(e) || e == x) by {
            if e == x {
                assert(r[0] == e);
            }
        }
    } else if s[0].1 < x.1 {
        let r = seq![x] + s;
        assert(insert_ranked(s, x) == r);
        assert forall|e| r.contains(e) <==> (s.contains(e) || e == x) by {
            if r.contains(e) {
                let k = choose|k: int| 0 <= k < r.len() && r[k] == e;
                if k > 0 {
                    assert(s[k - 1] == e);
                }
            }
            if s.contains(e) {
                let k = choose|k: int| 0 <= k < s.len() && s[k] == e;
                assert(r[k + 1] == e);
            }
            if e == x {
                assert(r[0] == e);
            }
        }
    } else {
        let t = s.drop_first();
        lemma_insert_ranked_sorted(t, x);
        let it = insert_ranked(t, x);
        let r = seq![s[0]] + it;
        assert(insert_ranked(s, x) == r);
        assert forall|i: int, j: int| 0 <= i < j < r.len() implies r[i].1 >= r[j].1 by {
            if i == 0 {
                let e = it[j - 1];
                assert(it.contains(e));
                assert(r[j] == e);
                if e != x {
                    assert(t.contains(e));
                    let k = choose|k: int| 0 <= k < t.len() && t[k] == e;
                    assert(s[k + 1] == e);
                }
            } else {
                assert(r[i] == it[i - 1] && r[j] == it[j - 1]);
            }
        }
        assert forall|e| r.contains(e) <==> (s.contains(e) || e == x) by {
            if r.contains(e) {
                let k = choose|k: int| 0 <= k < r.len() && r[k] == e;
                if k > 0 {
                    assert(it.contains(e));
                    if e != x {
                        let m = choose|m: int| 0 <= m < t.len() && t[m] == e;
                        assert(s[m + 1] == e);
                    }
                } else {
                    assert(s[0] == e);
                }
            }
            if s.contains(e) {
                let k = choose|k: int| 0 <= k < s.len() && s[k] == e;
                if k == 0 {
                    assert(r[0] == e);
                } else {
                    assert(t[k - 1] == e);
                    assert(it.contains(e));
                    let m = choose|m: int| 0 <= m < it.len() && it[m] == e;
                    assert(r[m + 1] == e);
                }
            }
            if e == x {
                assert(it.contains(e));
                let m = choose|m: int| 0 <= m < it.len() && it[m] == e;
                assert(r[m + 1] == e);
            }
        }
    }
}

/// A ranking lists the entries of the tally, no others, most counted first.
pub proof fn ranking_is_sorted(t: Seq<(Seq<char>, nat)>)
    ensures
        ranked(t).len() == t.len(),
        forall|i: int, j: int| 0 <= i < j < ranked(t).len() ==> ranked(t)[i].1 >= ranked(t)[j].1,
        forall|e| #[trigger] ranked(t).contains(e) <==> t.contains(e),
    decreases t.len(),
{
    if t.len() > 0 {
        let p = t.drop_last();
        ranking_is_sorted(p);
        lemma_insert_ranked_sorted(ranked(p), t.last());
        assert forall|e| ranked(t).contains(e) <==> t.contains(e) by {
            if t.contains(e) && e != t.last() {
                let k = choose|k: int| 0 <= k < t.len() && t[k] == e;
                assert(p[k] == e);
            }
            if p.contains(e) {
                let k = choose|k: int| 0 <= k < p.len() && p[k] == e;
                assert(t[k] == e);
            }
            if e == t.last() {
                assert(t[t.len() - 1] == e);
            }
        }
    }
}

/// The entries of `s` whose count is `c`, in their order.
pub open spec fn with_count(s: Seq<(Seq<char>, nat)>, c: nat) -> Seq<(Seq<char>, nat)>
    decreases s.len(),
{
    if s.len() == 0 {
        Seq::empty()
    } else if s[0].1 == c {
        seq![s[0]] + with_count(s.drop_first(), c)
    } else {
        with_count(s.drop_first(), c)
    }
}

proof fn lemma_with_count_none(s: Seq<(Seq<char>, nat)>, c: nat)
    requires
        forall|i: int| 0 <= i < s.len() ==> s[i].1 < c,
    ensures
        with_count(s, c) == Seq::<(Seq<char>, nat)>::empty(),
    decreases s.len(),
{
    if s.len() > 0 {
        lemma_with_count_none(s.drop_first(), c);
    }
}

proof fn lemma_with_count_push(t: Seq<(Seq<char>, nat)>, x: (Seq<char>, nat), c: nat)
    ensures
        with_count(t.push(x), c) == if x.1 == c {
            with_count(t, c).push(x)
        } else {
            with_count(t, c)
        },
    decreases t.len(),
{
    if t.len() == 0 {
        let u = t.push(x);
        assert(u.drop_first() =~= Seq::<(Seq<char>, nat)>::empty());
        assert(u[0] == x);
        assert(with_count(u.drop_first(), c) == Seq::<(Seq<char>, nat)>::empty());
        assert(with_count(t, c) == Seq::<(Seq<char>, nat)>::empty());
        if x.1 == c {
            assert(with_count(u, c) =~= seq![x]);
            assert(with_count(t, c).push(x) =~= seq![x]);
        }
    } else {
        assert(t.push(x).drop_first() =~= t.drop_first().push(x));
        lemma_with_count_push(t.drop_first(), x, c);
        if t[0].1 == c {
            if x.1 == c {
                assert(seq![t[0]] + with_count(t.drop_first(), c).push(x) =~= (seq![t[0]]
                    + with_count(t.drop_first(), c)).push(x));
            }
        }
    }
}

proof fn lemma_with_count_insert(s: Seq<(Seq<char>, nat)>, x: (Seq<char>, nat), c: nat)
    requires
        forall|i: int, j: int| 0 <= i < j < s.len() ==> s[i].1 >= s[j].1,
    ensures
        with_count(insert_ranked(s, x), c) == if x.1 == c {
            with_count(s, c).push(x)
        } else {
            with_count(s, c)
        },
    decreases s.len(),
{
    if s.len() == 0 {
        assert(insert_ranked(s, x) =~= seq![x]);
        let u = seq![x];
        assert(u.drop_first() =~= Seq::<(Seq<char>, nat)>::empty());
        assert(with_count(u.drop_first(), c) == Seq::<(Seq<char>, nat)>::empty());
        assert(with_count(s, c) == Seq::<(Seq<char>, nat)>::empty());
        if x.1 == c {
            assert(with_count(u, c) =~= seq![x]);
            assert(with_count(s, c).push(x) =~= seq![x]);
        }
    } else if s[0].1 < x.1 {
        let r = seq![x] + s;
        assert(r.drop_first() =~= s);
        if x.1 == c {
            lemma_with_count_none(s, c);
            assert(with_count(r, c) =~= seq![x]);
        }
    } else {
        let t = s.drop_first();
        lemma_with_count_insert(t, x, c);
        let r = seq![s[0]] + insert_ranked(t, x);
        assert(r.drop_first() =~= insert_ranked(t, x));
        if s[0].1 == c && x.1 == c {
            assert(seq![s[0]] + with_count(t, c).push(x) =~= (seq![s[0]] + with_count(t, c)).push(x));
        }
    }
}

/// Ranking is stable: for every count, the entries with that count come out in the order
/// in which the tally lists them, so sites visited equally often keep first-visit order.
pub proof fn ranking_is_stable(t: Seq<(Seq<char>, nat)>, c: nat)
    ensures
        with_count(ranked(t), c) == with_count(t, c),
    decreases t.len(),
{
    if t.len() > 0 {
        let p = t.drop_last();
        ranking_is_stable(p, c);
        ranking_is_sorted(p);
        lemma_with_count_insert(ranked(p), t.last(), c);
        assert(p.push(t.last()) =~= t);
        lemma_with_count_push(p, t.last(), c);
    }
}

} // verus!
