use vstd::prelude::*;

use crate::entry::{Entry, EntryModel};
use crate::errors::RlistError;
use crate::store::{Store, StoreModel};
use crate::strutil::{chars_contains, chars_le, lower_chars};
use vstd::multiset::Multiset;

verus! {

/// The attribute a query sorts the matching entries by.
#[derive(Debug, Clone, Copy, PartialEq, Eq, Structural)]
pub enum OrderBy {
    Name,
    Url,
    Author,
    Added,
}

impl OrderBy {
    /// Reads a sort key from its name, matched without regard to ASCII case.
    pub fn from_str(s: &str) -> (r: Result<OrderBy, RlistError>)
        ensures
            r == spec_order_by_from_str(s@),
    {
        if crate::strutil::ascii_lower_eq(s, "name") {
            Ok(OrderBy::Name)
        } else if crate::strutil::ascii_lower_eq(s, "url") {
            Ok(OrderBy::Url)
        } else if crate::strutil::ascii_lower_eq(s, "author") {
            Ok(OrderBy::Author)
        } else if crate::strutil::ascii_lower_eq(s, "added") {
            Ok(OrderBy::Added)
        } else {
            Err(RlistError::InvalidArgument)
        }
    }

    /// The name of the sort key, as the store's column is called.
    pub fn to_string(&self) -> (r: String)
        ensures
            r@ == spec_order_by_name(*self),
    {
        match self {
            OrderBy::Name => "name".to_owned(),
            OrderBy::Url => "url".to_owned(),
            OrderBy::Author => "author".to_owned(),
            OrderBy::Added => "added".to_owned(),
        }
    }
}

/// The sort key a piece of text names, compared without regard to ASCII case.
pub open spec fn spec_order_by_from_str(s: Seq<char>) -> Result<OrderBy, RlistError> {
    if lower_chars(s) == "name"@ {
        Ok(OrderBy::Name)
    } else if lower_chars(s) == "url"@ {
        Ok(OrderBy::Url)
    } else if lower_chars(s) == "author"@ {
        Ok(OrderBy::Author)
    } else if lower_chars(s) == "added"@ {
        Ok(OrderBy::Added)
    } else {
        Err(RlistError::InvalidArgument)
    }
}

/// The column name of a sort key.
pub open spec fn spec_order_by_name(k: OrderBy) -> Seq<char> {
    match k {
        OrderBy::Name => "name"@,
        OrderBy::Url => "url"@,
        OrderBy::Author => "author"@,
        OrderBy::Added => "added"@,
    }
}

/// The author text a row carries in the store: a missing author is stored as
/// the text `NULL`, and filtering and sorting see exactly that text.
pub open spec fn author_repr(a: Option<Seq<char>>) -> Seq<char> {
    match a {
        Some(x) => x,
        None => "NULL"@,
    }
}

/// The row-level filter: optional substring tests on the name, the stored
/// author text and the url, and an inclusive creation-time window compared
/// as text.
pub open spec fn row_passes(
    e: EntryModel,
    query: Option<Seq<char>>,
    author: Option<Seq<char>>,
    url: Option<Seq<char>>,
    from: Option<Seq<char>>,
    to: Option<Seq<char>>,
) -> bool {
    &&& match query {
        Some(q) => chars_contains(e.name, q),
        None => true,
    }
    &&& match author {
        Some(a) => chars_contains(author_repr(e.author), a),
        None => true,
    }
    &&& match url {
        Some(u) => chars_contains(e.url, u),
        None => true,
    }
    &&& match from {
        Some(f) => chars_le(f, e.added),
        None => true,
    }
    &&& match to {
        Some(t) => chars_le(e.added, t),
        None => true,
    }
}

/// The topic post-filter: with a non-empty topic list given, the default
/// semantics require every listed topic on the entry, the `or` semantics
/// require at least one; with an empty or absent list no topic filtering
/// happens.
pub open spec fn topics_pass(
    topics: Seq<Seq<char>>,
    wanted: Option<Seq<Seq<char>>>,
    or_mode: bool,
) -> bool {
    match wanted {
        None => true,
        Some(w) => if or_mode {
            w.len() == 0 || exists|i: int| 0 <= i < w.len() && topics.contains(#[trigger] w[i])
        } else {
            forall|i: int| 0 <= i < w.len() ==> topics.contains(#[trigger] w[i])
        },
    }
}

/// The whole filter an aggregate must pass.
pub open spec fn entry_passes(
    e: EntryModel,
    query: Option<Seq<char>>,
    wanted: Option<Seq<Seq<char>>>,
    author: Option<Seq<char>>,
    url: Option<Seq<char>>,
    from: Option<Seq<char>>,
    to: Option<Seq<char>>,
    or_mode: bool,
) -> bool {
    row_passes(e, query, author, url, from, to) && topics_pass(e.topics, wanted, or_mode)
}

/// Every matching aggregate, in the store's natural (row) order.
pub open spec fn spec_query_base(
    s: StoreModel,
    query: Option<Seq<char>>,
    wanted: Option<Seq<Seq<char>>>,
    author: Option<Seq<char>>,
    url: Option<Seq<char>>,
    from: Option<Seq<char>>,
    to: Option<Seq<char>>,
    or_mode: bool,
) -> Seq<EntryModel> {
    s.aggregate().filter(|e: EntryModel| entry_passes(e, query, wanted, author, url, from, to, or_mode))
}

/// Ascending comparison on the given sort key. A missing author compares as
/// the stored text `NULL`.
pub open spec fn key_le(k: OrderBy, a: EntryModel, b: EntryModel) -> bool {
    match k {
        OrderBy::Name => chars_le(a.name, b.name),
        OrderBy::Url => chars_le(a.url, b.url),
        OrderBy::Author => chars_le(author_repr(a.author), author_repr(b.author)),
        OrderBy::Added => chars_le(a.added, b.added),
    }
}

/// The comparison a query sorts by: the key order, reversed when descending.
pub open spec fn sort_le(k: OrderBy, desc: bool, a: EntryModel, b: EntryModel) -> bool {
    if desc {
        key_le(k, b, a)
    } else {
        key_le(k, a, b)
    }
}

/// Any two entries compare one way or the other under any sort.
pub proof fn lemma_sort_le_total(k: OrderBy, desc: bool, a: EntryModel, b: EntryModel)
    ensures
        sort_le(k, desc, a, b) || sort_le(k, desc, b, a),
{
    match k {
        OrderBy::Name => crate::strutil::lemma_chars_le_total(a.name, b.name),
        OrderBy::Url => crate::strutil::lemma_chars_le_total(a.url, b.url),
        OrderBy::Author => crate::strutil::lemma_chars_le_total(
            author_repr(a.author),
            author_repr(b.author),
        ),
        OrderBy::Added => crate::strutil::lemma_chars_le_total(a.added, b.added),
    }
}

/// The sort comparison is transitive.
pub proof fn lemma_sort_le_trans(k: OrderBy, desc: bool, a: EntryModel, b: EntryModel, c: EntryModel)
    requires
        sort_le(k, desc, a, b),
        sort_le(k, desc, b, c),
    ensures
        sort_le(k, desc, a, c),
{
    match k {
        OrderBy::Name => {
            if desc {
                crate::strutil::lemma_chars_le_trans(c.name, b.name, a.name);
            } else {
                crate::strutil::lemma_chars_le_trans(a.name, b.name, c.name);
            }
        },
        OrderBy::Url => {
            if desc {
                crate::strutil::lemma_chars_le_trans(c.url, b.url, a.url);
            } else {
                crate::strutil::lemma_chars_le_trans(a.url, b.url, c.url);
            }
        },
        OrderBy::Author => {
            if desc {
                crate::strutil::lemma_chars_le_trans(
                    author_repr(c.author),
                    author_repr(b.author),
                    author_repr(a.author),
                );
            } else {
                crate::strutil::lemma_chars_le_trans(
                    author_repr(a.author),
                    author_repr(b.author),
                    author_repr(c.author),
                );
            }
        },
        OrderBy::Added => {
            if desc {
                crate::strutil::lemma_chars_le_trans(c.added, b.added, a.added);
            } else {
                crate::strutil::lemma_chars_le_trans(a.added, b.added, c.added);
            }
        },
    }
}

/// The models of a sequence of entries.
pub open spec fn models_of(v: Seq<Entry>) -> Seq<EntryModel> {
    v.map_values(|e: Entry| e@)
}

/// Executable form of the sort comparison.
fn entry_le(k: &OrderBy, desc: bool, a: &Entry, b: &Entry) -> (r: bool)
    ensures
        r == sort_le(*k, desc, a@, b@),
{
    let (x, y) = if desc {
        (b, a)
    } else {
        (a, b)
    };
    match k {
        OrderBy::Name => crate::strutil::str_le(x.name.as_str(), y.name.as_str()),
        OrderBy::Url => crate::strutil::str_le(x.url.as_str(), y.url.as_str()),
        OrderBy::Author => {
            let xa = match &x.author {
                Some(s) => s.as_str(),
                None => "NULL",
            };
            let ya = match &y.author {
                Some(s) => s.as_str(),
                None => "NULL",
            };
            crate::strutil::str_le(xa, ya)
        },
        OrderBy::Added => crate::strutil::str_le(x.added.as_str(), y.added.as_str()),
    }
}

/// Sorts entries by the given key and direction with an insertion sort: the
/// result is a rearrangement of the input, ordered by the sort comparison;
/// the relative order of entries whose keys tie is unspecified.
fn sort_entries(v: Vec<Entry>, k: &OrderBy, desc: bool) -> (r: Vec<Entry>)
    ensures
        models_of(r@).to_multiset() == models_of(v@).to_multiset(),
        forall|i: int, j: int|
            0 <= i < j < r@.len() ==> sort_le(*k, desc, #[trigger] models_of(r@)[i], #[trigger] models_of(r@)[j]),
{
    broadcast use vstd::seq_lib::group_to_multiset_ensures;

    let mut rest = v;
    let mut out: Vec<Entry> = Vec::new();
    proof {
        assert(models_of(out@).to_multiset() =~= Multiset::<EntryModel>::empty());
    }
    while rest.len() > 0
        invariant
            models_of(out@).to_multiset().add(models_of(rest@).to_multiset()) == models_of(
                v@,
            ).to_multiset(),
            forall|i: int, j: int|
                0 <= i < j < out@.len() ==> sort_le(
                    *k,
                    desc,
                    #[trigger] models_of(out@)[i],
                    #[trigger] models_of(out@)[j],
                ),
        decreases rest@.len(),
    {
        let ghost rest0 = rest@;
        let e = match rest.pop() {
            Some(e) => e,
            None => {
                proof {
                    assert(false);
                }
                return out;
            },
        };
        proof {
            assert(rest0 =~= rest@.push(e));
            assert(models_of(rest0) =~= models_of(rest@).push(e@));
        }
        let mut p: usize = 0;
        while p < out.len() && entry_le(k, desc, &out[p], &e)
            invariant
                p <= out@.len(),
                forall|j: int| 0 <= j < p ==> sort_le(*k, desc, #[trigger] models_of(out@)[j], e@),
            decreases out@.len() - p,
        {
            p = p + 1;
        }
        proof {
            if p < out@.len() {
                lemma_sort_le_total(*k, desc, models_of(out@)[p as int], e@);
            }
        }
        let ghost out0 = out@;
        out.insert(p, e);
        proof {
            assert(out@ =~= out0.insert(p as int, e));
            assert(models_of(out@) =~= models_of(out0).insert(p as int, e@));
            vstd::seq_lib::to_multiset_insert(models_of(out0), p as int, e@);
            vstd::seq_lib::to_multiset_build(models_of(rest@), e@);
            assert(models_of(out@).to_multiset() =~= models_of(out0).to_multiset().insert(e@));
            assert(models_of(rest0).to_multiset() =~= models_of(rest@).to_multiset().insert(e@));
            assert(models_of(out@).to_multiset().add(models_of(rest@).to_multiset())
                =~= models_of(out0).to_multiset().add(models_of(rest0).to_multiset()));
            assert forall|i: int, j: int|
                0 <= i < j < out@.len() implies sort_le(
                *k,
                desc,
                #[trigger] models_of(out@)[i],
                #[trigger] models_of(out@)[j],
            ) by {
                let m = models_of(out@);
                let m0 = models_of(out0);
                if i < p && j == p {
                } else if i == p && j > p {
                    assert(m[j] == m0[j - 1]);
                    if p < m0.len() {
                        if j - 1 > p {
                            lemma_sort_le_trans(*k, desc, e@, m0[p as int], m0[j - 1]);
                        }
                    }
                } else if i < p && j > p {
                    assert(m[i] == m0[i] && m[j] == m0[j - 1]);
                } else if j < p {
                    assert(m[i] == m0[i] && m[j] == m0[j]);
                } else if i > p {
                    assert(m[i] == m0[i - 1] && m[j] == m0[j - 1]);
                }
            }
        }
    }
    proof {
        assert(models_of(rest@).to_multiset() =~= Multiset::<EntryModel>::empty());
        assert(models_of(out@).to_multiset() =~= models_of(v@).to_multiset());
    }
    out
}

/// Executable form of the row-level filter, applied to one entry row.
fn row_filter_matches(
    row: &crate::store::EntryRow,
    query: &Option<String>,
    author: &Option<String>,
    url: &Option<String>,
    from: &Option<String>,
    to: &Option<String>,
) -> (r: bool)
    ensures
        r == row_passes(
            EntryModel {
                name: row@.name,
                url: row@.url,
                author: row@.author,
                added: row@.added,
                topics: Seq::empty(),
            },
            query.deep_view(),
            author.deep_view(),
            url.deep_view(),
            from.deep_view(),
            to.deep_view(),
        ),
{
    let name_ok = match query {
        Some(q) => crate::strutil::str_contains(row.name.as_str(), q.as_str()),
        None => true,
    };
    let author_ok = match author {
        Some(a) => {
            let repr = match &row.author {
                Some(x) => x.as_str(),
                None => "NULL",
            };
            crate::strutil::str_contains(repr, a.as_str())
        },
        None => true,
    };
    let url_ok = match url {
        Some(u) => crate::strutil::str_contains(row.url.as_str(), u.as_str()),
        None => true,
    };
    let from_ok = match from {
        Some(f) => crate::strutil::str_le(f.as_str(), row.added.as_str()),
        None => true,
    };
    let to_ok = match to {
        Some(t) => crate::strutil::str_le(row.added.as_str(), t.as_str()),
        None => true,
    };
    name_ok && author_ok && url_ok && from_ok && to_ok
}

/// Executable form of the topic post-filter.
fn topics_filter_matches(entry_topics: &Vec<String>, wanted: &Option<Vec<String>>, or_mode: bool) -> (r: bool)
    ensures
        r == topics_pass(entry_topics.deep_view(), wanted.deep_view(), or_mode),
{
    match wanted {
        None => true,
        Some(w) => {
            let ghost w_dv = wanted.deep_view()->Some_0;
            proof {
                assert(wanted.deep_view() == Some(w.deep_view()));
                assert(w_dv == w.deep_view());
            }
            if or_mode {
                if w.len() == 0 {
                    return true;
                }
                let mut i: usize = 0;
                while i < w.len()
                    invariant
                        i <= w@.len(),
                        w_dv == w.deep_view(),
                        w_dv == wanted.deep_view()->Some_0,
                        wanted.deep_view() matches Some(x) && x == w_dv,
                        w_dv.len() == w@.len(),
                        or_mode,
                        forall|j: int|
                            0 <= j < i ==> !entry_topics.deep_view().contains(#[trigger] w_dv[j]),
                    decreases w@.len() - i,
                {
                    if crate::strutil::vec_contains_str(entry_topics, w[i].as_str()) {
                        proof {
                            assert(w_dv[i as int] == w@[i as int]@);
                            assert(entry_topics.deep_view().contains(w_dv[i as int]));
                        }
                        return true;
                    }
                    proof {
                        assert(w_dv[i as int] == w@[i as int]@);
                    }
                    i = i + 1;
                }
                false
            } else {
                let mut i: usize = 0;
                while i < w.len()
                    invariant
                        i <= w@.len(),
                        w_dv == w.deep_view(),
                        w_dv == wanted.deep_view()->Some_0,
                        wanted.deep_view() matches Some(x) && x == w_dv,
                        w_dv.len() == w@.len(),
                        !or_mode,
                        forall|j: int|
                            0 <= j < i ==> entry_topics.deep_view().contains(#[trigger] w_dv[j]),
                    decreases w@.len() - i,
                {
                    if !crate::strutil::vec_contains_str(entry_topics, w[i].as_str()) {
                        proof {
                            assert(w_dv[i as int] == w@[i as int]@);
                            assert(!entry_topics.deep_view().contains(w_dv[i as int]));
                        }
                        return false;
                    }
                    proof {
                        assert(w_dv[i as int] == w@[i as int]@);
                    }
                    i = i + 1;
                }
                true
            }
        },
    }
}

/// The store after adding an entry, with the outcome: creation can fail with
/// a `Conflict` on the name or the url, or with `Infrastructure` when the id
/// space is exhausted; a non-empty topic list is then created and linked, and
/// the returned entry carries the topic list as it was passed in.
pub open spec fn spec_add(
    s: StoreModel,
    name: Seq<char>,
    url: Seq<char>,
    author: Option<Seq<char>>,
    topics: Seq<Seq<char>>,
    added: Seq<char>,
) -> (StoreModel, Result<EntryModel, RlistError>) {
    let (s1, res) = crate::db::entry::spec_create(s, name, url, author, added);
    match res {
        Err(e) => (s1, Err(e)),
        Ok((id, e)) => {
            let result = EntryModel { name: e.name, url: e.url, author: e.author, added: e.added, topics };
            if topics.len() > 0 {
                let (s2, ids, ok) = crate::db::topic::spec_create_topics(s1, topics);
                if !ok {
                    (s2, Err(RlistError::Infrastructure))
                } else {
                    (crate::db::entry::spec_associate(s2, id, ids), Ok(result))
                }
            } else {
                (s1, Ok(result))
            }
        },
    }
}

/// The store after an edit, with the outcome. An edit that supplies no
/// option at all is refused as `InvalidArgument`. Otherwise the entry named
/// `old_name` is looked up (`NotFound` when absent) and the supplied columns
/// are updated; a new name or url that collides with another entry is an
/// unclassified storage failure that leaves the store unchanged. Topic
/// mutations follow: `topics` replaces the whole set (the old links are
/// cleared first) and takes precedence over `add_topics`, which only
/// appends; `clear_topics` alone clears; `remove_topics` unlinks the named
/// topics last. The returned entry carries the topic list as it stands in
/// the store after all mutations.
pub open spec fn spec_edit(
    s: StoreModel,
    old_name: Seq<char>,
    new_name: Option<Seq<char>>,
    author: Option<Seq<char>>,
    url: Option<Seq<char>>,
    topics: Option<Seq<Seq<char>>>,
    add_topics: Option<Seq<Seq<char>>>,
    clear_topics: bool,
    remove_topics: Option<Seq<Seq<char>>>,
) -> (StoreModel, Result<EntryModel, RlistError>) {
    if new_name is None && author is None && url is None && topics is None && add_topics is None
        && !clear_topics && remove_topics is None {
        (s, Err(RlistError::InvalidArgument))
    } else if !s.has_entry_named(old_name) {
        (s, Err(RlistError::NotFound))
    } else {
        let idx = s.entry_index_named(old_name);
        let row = s.entries[idx];
        let eid = row.entry_id;
        let nn = match new_name {
            Some(n) => n,
            None => row.name,
        };
        let nu = match url {
            Some(u) => u,
            None => row.url,
        };
        let na = match author {
            Some(a) => Some(a),
            None => row.author,
        };
        let col_update = new_name is Some || author is Some || url is Some;
        let name_clash = exists|j: int|
            0 <= j < s.entries.len() && j != idx && (#[trigger] s.entries[j]).name == nn;
        let url_clash = exists|j: int|
            0 <= j < s.entries.len() && j != idx && (#[trigger] s.entries[j]).url == nu;
        if col_update && (name_clash || url_clash) {
            (s, Err(RlistError::Infrastructure))
        } else {
            let row2 = crate::store::EntryRowModel {
                entry_id: eid,
                name: nn,
                url: nu,
                author: na,
                added: row.added,
            };
            let s1 = if col_update {
                s.with_entries(s.entries.update(idx, row2), s.next_entry_id)
            } else {
                s
            };
            let s2 = if clear_topics || topics is Some {
                crate::db::entry::spec_unlink_all(s1, eid)
            } else {
                s1
            };
            let to_add = if topics is Some {
                topics
            } else {
                add_topics
            };
            match to_add {
                Some(list) => {
                    let (s3, ids, ok) = crate::db::topic::spec_create_topics(s2, list);
                    if !ok {
                        (s3, Err(RlistError::Infrastructure))
                    } else {
                        let s4 = crate::db::entry::spec_associate(s3, eid, ids);
                        let s5 = match remove_topics {
                            Some(rt) => crate::db::entry::spec_unlink_by_names(s4, eid, rt),
                            None => s4,
                        };
                        (
                            s5,
                            Ok(
                                EntryModel {
                                    name: nn,
                                    url: nu,
                                    author: na,
                                    added: row.added,
                                    topics: s5.link_topic_names(eid),
                                },
                            ),
                        )
                    }
                },
                None => {
                    let s5 = match remove_topics {
                        Some(rt) => crate::db::entry::spec_unlink_by_names(s2, eid, rt),
                        None => s2,
                    };
                    (
                        s5,
                        Ok(
                            EntryModel {
                                name: nn,
                                url: nu,
                                author: na,
                                added: row.added,
                                topics: s5.link_topic_names(eid),
                            },
                        ),
                    )
                },
            }
        }
    }
}

/// In a well-formed store, a name held by row `idx` itself, or by no row at
/// all, is held by no other row.
proof fn lemma_no_name_clash(s: StoreModel, idx: int, nn: Seq<char>)
    requires
        s.wf(),
        0 <= idx < s.entries.len(),
        s.entries[idx].name == nn || !s.has_entry_named(nn),
    ensures
        !(exists|j: int|
            0 <= j < s.entries.len() && j != idx && (#[trigger] s.entries[j]).name == nn),
{
    if exists|j: int|
        0 <= j < s.entries.len() && j != idx && (#[trigger] s.entries[j]).name == nn {
        let j = choose|j: int|
            0 <= j < s.entries.len() && j != idx && (#[trigger] s.entries[j]).name == nn;
        assert(s.has_entry_named(nn));
        if j < idx {
            assert(s.entries[j].name != s.entries[idx].name);
        } else {
            assert(s.entries[idx].name != s.entries[j].name);
        }
    }
}

/// In a well-formed store, a url held by row `idx` itself, or by no row at
/// all, is held by no other row.
proof fn lemma_no_url_clash(s: StoreModel, idx: int, nu: Seq<char>)
    requires
        s.wf(),
        0 <= idx < s.entries.len(),
        s.entries[idx].url == nu || !s.has_url(nu),
    ensures
        !(exists|j: int|
            0 <= j < s.entries.len() && j != idx && (#[trigger] s.entries[j]).url == nu),
{
    if exists|j: int| 0 <= j < s.entries.len() && j != idx && (#[trigger] s.entries[j]).url == nu {
        let j = choose|j: int|
            0 <= j < s.entries.len() && j != idx && (#[trigger] s.entries[j]).url == nu;
        assert(s.has_url(nu));
        if j < idx {
            assert(s.entries[j].url != s.entries[idx].url);
        } else {
            assert(s.entries[idx].url != s.entries[j].url);
        }
    }
}

/// Updating one entry row in place, keeping its id and introducing no name
/// or url held by another row, preserves well-formedness.
proof fn lemma_wf_update_entry(s: StoreModel, idx: int, row2: crate::store::EntryRowModel)
    requires
        s.wf(),
        0 <= idx < s.entries.len(),
        row2.entry_id == s.entries[idx].entry_id,
        forall|j: int|
            0 <= j < s.entries.len() && j != idx ==> (#[trigger] s.entries[j]).name != row2.name,
        forall|j: int|
            0 <= j < s.entries.len() && j != idx ==> (#[trigger] s.entries[j]).url != row2.url,
    ensures
        s.with_entries(s.entries.update(idx, row2), s.next_entry_id).wf(),
{
    let s2 = s.with_entries(s.entries.update(idx, row2), s.next_entry_id);
    assert forall|a: int, b: int|
        0 <= a < b < s2.entries.len() implies (#[trigger] s2.entries[a]).entry_id != (
    #[trigger] s2.entries[b]).entry_id && s2.entries[a].name != s2.entries[b].name
        && s2.entries[a].url != s2.entries[b].url by {
        if a != idx && b != idx {
            assert(s2.entries[a] == s.entries[a]);
            assert(s2.entries[b] == s.entries[b]);
        } else if a == idx {
            assert(s2.entries[b] == s.entries[b]);
        } else {
            assert(s2.entries[a] == s.entries[a]);
        }
    }
    assert forall|a: int|
        0 <= a < s2.entries.len() implies 0 < (#[trigger] s2.entries[a]).entry_id
        < s2.next_entry_id by {
        if a != idx {
            assert(s2.entries[a] == s.entries[a]);
        }
    }
    assert forall|a: int|
        0 <= a < s2.links.len() implies s2.has_entry_id((#[trigger] s2.links[a]).entry_id)
        && s2.has_topic_id(s2.links[a].topic_id) by {
        assert(s.links[a] == s2.links[a]);
        assert(s.has_entry_id(s.links[a].entry_id));
        let we = choose|k: int|
            0 <= k < s.entries.len() && (#[trigger] s.entries[k]).entry_id == s.links[a].entry_id;
        assert(s2.entries[we].entry_id == s2.links[a].entry_id);
        assert(s.has_topic_id(s.links[a].topic_id));
        let wt = choose|k: int|
            0 <= k < s.topics.len() && (#[trigger] s.topics[k]).topic_id == s.links[a].topic_id;
        assert(s2.topics[wt].topic_id == s2.links[a].topic_id);
    }
}

/// The store after removing every entry linked to the named topic, with the
/// outcome: an unknown topic name is `NotFound`; otherwise the removed
/// entries are returned as the topic-filtered query saw them just before
/// deletion, and the topic row itself stays.
pub open spec fn spec_remove_by_topic(s: StoreModel, topic: Seq<char>) -> (
    StoreModel,
    Result<Seq<EntryModel>, RlistError>,
) {
    if !s.has_topic_named(topic) {
        (s, Err(RlistError::NotFound))
    } else {
        let tid = s.topic_id_named(topic);
        let matched = spec_query_base(s, None, Some(seq![topic]), None, None, None, None, false);
        (crate::db::entry::spec_remove_related_to(s, tid), Ok(matched))
    }
}

/// Removal by several topic names, processed left to right; each step works
/// on the store the previous step left. A name that matches no topic stops
/// the batch with the store as the previous steps left it.
pub open spec fn spec_remove_by_topics(s: StoreModel, names: Seq<Seq<char>>) -> (
    StoreModel,
    Seq<EntryModel>,
    bool,
)
    decreases names.len(),
{
    if names.len() == 0 {
        (s, Seq::empty(), true)
    } else {
        let (s1, es1, ok1) = spec_remove_by_topics(s, names.drop_last());
        if !ok1 {
            (s1, es1, false)
        } else {
            let (s2, res) = spec_remove_by_topic(s1, names.last());
            match res {
                Ok(es) => (s2, es1 + es, true),
                Err(_) => (s1, es1, false),
            }
        }
    }
}

/// Once a batch removal fails at some prefix of the names, processing the
/// full sequence yields that same failed result.
proof fn lemma_remove_by_topics_failure_sticks(s: StoreModel, names: Seq<Seq<char>>, k: int)
    requires
        0 <= k <= names.len(),
        !spec_remove_by_topics(s, names.take(k)).2,
    ensures
        spec_remove_by_topics(s, names) == spec_remove_by_topics(s, names.take(k)),
    decreases names.len() - k,
{
    if k == names.len() {
        assert(names.take(k) =~= names);
    } else {
        assert(names.take(k + 1).drop_last() =~= names.take(k));
        assert(spec_remove_by_topics(s, names.take(k + 1)) == spec_remove_by_topics(
            s,
            names.take(k),
        ));
        lemma_remove_by_topics_failure_sticks(s, names, k + 1);
    }
}

/// The store after importing a batch of entries with the given creation
/// stamps, and how many were imported: an entry whose creation fails (a
/// conflict with the store as it then stands) is skipped without stopping
/// the batch; a successfully created entry has its topics created and
/// linked and is counted.
pub open spec fn spec_import(s: StoreModel, entries: Seq<EntryModel>, stamps: Seq<Seq<char>>) -> (
    StoreModel,
    int,
)
    decreases entries.len(),
{
    if entries.len() == 0 {
        (s, 0)
    } else {
        let (s1, c1) = spec_import(s, entries.drop_last(), stamps.drop_last());
        let e = entries.last();
        let (s2, res) = crate::db::entry::spec_create(s1, e.name, e.url, e.author, stamps.last());
        match res {
            Err(_) => (s1, c1),
            Ok(p) => {
                let (s3, ids, ok) = crate::db::topic::spec_create_topics(s2, e.topics);
                if !ok {
                    (s3, c1)
                } else {
                    (crate::db::entry::spec_associate(s3, p.0, ids), c1 + 1)
                }
            },
        }
    }
}

/// The reading list: the single entry point that coordinates the entry and
/// topic repositories over one store.
pub struct RList {
    pub store: Store,
}

impl View for RList {
    type V = StoreModel;

    open spec fn view(&self) -> StoreModel {
        self.store@
    }
}

impl RList {
    pub open spec fn wf(self) -> bool {
        self.store.wf()
    }

    /// A reading list over an empty store.
    pub fn new() -> (r: RList)
        ensures
            r@ == crate::store::empty_store(),
            r.wf(),
    {
        RList { store: Store::new() }
    }

    /// A reading list over a loaded store.
    pub fn from_store(store: Store) -> (r: RList)
        requires
            store.wf(),
        ensures
            r@ == store@,
            r.wf(),
    {
        RList { store }
    }

    /// Adds an entry: creates the row, stamped with the current local time,
    /// and links it to its topics, creating topic rows as needed. The
    /// returned entry carries the topics as they were passed. Fails with a
    /// `Conflict` when the name or the url is already taken, leaving the
    /// store unchanged.
    pub fn add(
        &mut self,
        name: String,
        url: String,
        author: Option<String>,
        topics: Vec<String>,
    ) -> (r: Result<Entry, RlistError>)
        requires
            old(self).wf(),
        ensures
            final(self).wf(),
            (r matches Ok(e) ==> spec_add(
                old(self)@,
                name@,
                url@,
                author.deep_view(),
                topics.deep_view(),
                e@.added,
            ) == (final(self)@, Ok::<EntryModel, RlistError>(e@))),
            (r matches Err(err) ==> exists|added: Seq<char>|
                #[trigger] spec_add(
                    old(self)@,
                    name@,
                    url@,
                    author.deep_view(),
                    topics.deep_view(),
                    added,
                ) == (final(self)@, Err::<EntryModel, RlistError>(err))),
    {
        let added = crate::utils::now_string();
        let ghost stamp = added@;
        let author_ref: Option<&str> = match &author {
            Some(a) => Some(a.as_str()),
            None => None,
        };
        proof {
            assert(crate::db::entry::opt_str_view(author_ref) == author.deep_view());
        }
        let created = crate::db::entry::DBEntry::create(
            &mut self.store,
            name.as_str(),
            url.as_str(),
            author_ref,
            added.as_str(),
        );
        let (entry_id, mut entry) = match created {
            Ok(p) => p,
            Err(e) => {
                proof {
                    assert(spec_add(
                        old(self)@,
                        name@,
                        url@,
                        author.deep_view(),
                        topics.deep_view(),
                        stamp,
                    ) == (self@, Err::<EntryModel, RlistError>(e)));
                }
                return Err(e);
            },
        };
        if topics.len() > 0 {
            let ghost s1 = self@;
            let topic_ids = match crate::db::topic::DBTopic::create_many(&mut self.store, &topics) {
                Ok(v) => v,
                Err(e) => {
                    proof {
                        assert(spec_add(
                            old(self)@,
                            name@,
                            url@,
                            author.deep_view(),
                            topics.deep_view(),
                            stamp,
                        ) == (self@, Err::<EntryModel, RlistError>(e)));
                    }
                    return Err(e);
                },
            };
            let ghost s2 = self@;
            let ghost ids = topic_ids@.map_values(|x: i64| x as int);
            proof {
                crate::db::topic::lemma_create_topics_props(s1, topics.deep_view());
                assert(s2.has_entry_id(entry_id as int)) by {
                    let w = s1.entries.len() - 1;
                    assert(s1.entries[w].entry_id == entry_id as int);
                    assert(s2.entries[w].entry_id == entry_id as int);
                }
                assert(forall|i: int| 0 <= i < ids.len() ==> s2.has_topic_id(#[trigger] ids[i]));
                assert forall|i: int|
                    0 <= i < topic_ids@.len() implies s2.has_topic_id(
                    #[trigger] topic_ids@[i] as int,
                ) by {
                    assert(ids[i] == topic_ids@[i] as int);
                    assert(s2.has_topic_id(ids[i]));
                }
            }
            let linked = crate::db::entry::DBEntry::associate_with_topics(
                &mut self.store,
                entry_id,
                topic_ids,
            );
            match linked {
                Ok(()) => {},
                Err(_) => {
                    proof {
                        assert(false);
                    }
                    return Err(RlistError::Infrastructure);
                },
            }
        }
        let ghost topics_dv = topics.deep_view();
        entry.topics = topics;
        proof {
            assert(entry@.added == stamp);
            assert(spec_add(old(self)@, name@, url@, author.deep_view(), topics_dv, stamp) == (
                self@,
                Ok::<EntryModel, RlistError>(entry@),
            ));
        }
        Ok(entry)
    }

    /// Removes the entry carrying the given name and returns it with the
    /// topics it had; `NotFound` when no entry carries the name.
    pub fn remove_by_name(&mut self, name: String) -> (r: Result<Entry, RlistError>)
        requires
            old(self).wf(),
        ensures
            final(self).wf(),
            ({
                let (s2, res) = crate::db::entry::spec_remove_by_name(old(self)@, name@);
                &&& final(self)@ == s2
                &&& match r {
                    Ok(e) => res == Ok::<EntryModel, RlistError>(e@),
                    Err(e) => res == Err::<EntryModel, RlistError>(e),
                }
            }),
    {
        crate::db::entry::DBEntry::remove_by_name(&mut self.store, name.as_str())
    }

    /// Returns the entries matching the given filters, sorted when a sort
    /// key is given (ties keep no particular order), in the store's row
    /// order otherwise.
    pub fn query(
        &self,
        query: Option<String>,
        topics: Option<Vec<String>>,
        author: Option<String>,
        url: Option<String>,
        sort_by: Option<OrderBy>,
        desc: bool,
        from: Option<String>,
        to: Option<String>,
        or: bool,
    ) -> (r: Vec<Entry>)
        requires
            self.wf(),
        ensures
            ({
                let base = spec_query_base(
                    self@,
                    query.deep_view(),
                    topics.deep_view(),
                    author.deep_view(),
                    url.deep_view(),
                    from.deep_view(),
                    to.deep_view(),
                    or,
                );
                match sort_by {
                    None => models_of(r@) == base,
                    Some(k) => models_of(r@).to_multiset() == base.to_multiset() && (forall|
                        i: int,
                        j: int,
                    |
                        0 <= i < j < r@.len() ==> sort_le(
                            k,
                            desc,
                            #[trigger] models_of(r@)[i],
                            #[trigger] models_of(r@)[j],
                        )),
                }
            }),
    {
        let ghost pred = |e: EntryModel| entry_passes(
            e,
            query.deep_view(),
            topics.deep_view(),
            author.deep_view(),
            url.deep_view(),
            from.deep_view(),
            to.deep_view(),
            or,
        );
        let mut matched: Vec<Entry> = Vec::new();
        let mut i: usize = 0;
        proof {
            assert(self@.aggregate().take(0) =~= Seq::<EntryModel>::empty());
            assert(self@.aggregate().take(0).filter(pred) =~= Seq::<EntryModel>::empty()) by {
                reveal(Seq::filter);
            }
        }
        while i < self.store.entries.len()
            invariant
                self.wf(),
                i <= self.store.entries@.len(),
                self@.entries.len() == self.store.entries@.len(),
                self@.aggregate().len() == self@.entries.len(),
                pred == (|e: EntryModel| entry_passes(
                    e,
                    query.deep_view(),
                    topics.deep_view(),
                    author.deep_view(),
                    url.deep_view(),
                    from.deep_view(),
                    to.deep_view(),
                    or,
                )),
                models_of(matched@) == self@.aggregate().take(i as int).filter(pred),
            decreases self.store.entries@.len() - i,
        {
            let ghost agg = self@.aggregate();
            proof {
                assert(agg.take(i as int).push(agg[i as int]) =~= agg.take(i + 1));
                agg.take(i as int).lemma_filter_push(agg[i as int], pred);
                assert(agg[i as int] == self@.entry_aggregate(self@.entries[i as int]));
            }
            let row = &self.store.entries[i];
            let names = crate::db::topic::DBTopic::get_related_names(&self.store, row.entry_id);
            let row_ok = row_filter_matches(row, &query, &author, &url, &from, &to);
            let topics_ok = topics_filter_matches(&names, &topics, or);
            proof {
                let em = agg[i as int];
                assert(em.name == row@.name && em.url == row@.url && em.author == row@.author
                    && em.added == row@.added);
                assert(em.topics == names.deep_view());
                assert(row_ok == row_passes(
                    em,
                    query.deep_view(),
                    author.deep_view(),
                    url.deep_view(),
                    from.deep_view(),
                    to.deep_view(),
                ));
                assert(topics_ok == topics_pass(em.topics, topics.deep_view(), or));
            }
            if row_ok && topics_ok {
                let entry = row.to_entry(names);
                proof {
                    assert(entry@ == agg[i as int]);
                }
                matched.push(entry);
                proof {
                    assert(models_of(matched@) =~= models_of(matched@.drop_last()).push(
                        matched@.last()@,
                    ));
                }
            }
            i = i + 1;
        }
        proof {
            assert(self@.aggregate().take(self@.aggregate().len() as int) =~= self@.aggregate());
        }
        match sort_by {
            None => matched,
            Some(k) => sort_entries(matched, &k, desc),
        }
    }

    /// Edits the entry named `old_name`: updates the supplied columns and
    /// applies the topic mutations, then returns the entry with its topic
    /// list re-fetched from the store. An edit that supplies nothing at all
    /// is refused.
    #[verifier::rlimit(100)]
    #[verifier::spinoff_prover]
    pub fn edit(
        &mut self,
        old_name: String,
        new_name: Option<String>,
        author: Option<String>,
        url: Option<String>,
        topics: Option<Vec<String>>,
        add_topics: Option<Vec<String>>,
        clear_topics: bool,
        remove_topics: Option<Vec<String>>,
    ) -> (r: Result<Entry, RlistError>)
        requires
            old(self).wf(),
        ensures
            final(self).wf(),
            ({
                let (s2, res) = spec_edit(
                    old(self)@,
                    old_name@,
                    new_name.deep_view(),
                    author.deep_view(),
                    url.deep_view(),
                    topics.deep_view(),
                    add_topics.deep_view(),
                    clear_topics,
                    remove_topics.deep_view(),
                );
                &&& final(self)@ == s2
                &&& match r {
                    Ok(e) => res == Ok::<EntryModel, RlistError>(e@),
                    Err(e) => res == Err::<EntryModel, RlistError>(e),
                }
            }),
    {
        let ghost s0 = self@;
        if new_name.is_none() && author.is_none() && url.is_none() && topics.is_none()
            && add_topics.is_none() && !clear_topics && remove_topics.is_none() {
            return Err(RlistError::InvalidArgument);
        }
        let i = match self.store.find_entry_by_name(old_name.as_str()) {
            Some(i) => i,
            None => {
                return Err(RlistError::NotFound);
            },
        };
        proof {
            let w = s0.entry_index_named(old_name@);
            assert(0 <= w < s0.entries.len() && s0.entries[w].name == old_name@);
            assert(w == i as int) by {
                if w != i as int {
                    if w < i as int {
                        assert(s0.entries[w].name != s0.entries[i as int].name);
                    } else {
                        assert(s0.entries[i as int].name != s0.entries[w].name);
                    }
                }
            }
        }
        let ghost idx = i as int;
        let ghost row = s0.entries[idx];
        let ghost nn = match new_name.deep_view() {
            Some(n) => n,
            None => row.name,
        };
        let ghost nu = match url.deep_view() {
            Some(u) => u,
            None => row.url,
        };
        let ghost na = match author.deep_view() {
            Some(a) => Some(a),
            None => row.author,
        };
        let entry_id = self.store.entries[i].entry_id;
        let col_update = new_name.is_some() || author.is_some() || url.is_some();
        if col_update {
            if let Some(n) = &new_name {
                match self.store.find_entry_by_name(n.as_str()) {
                    Some(j) => {
                        if j != i {
                            proof {
                                assert(s0.entries[j as int].name == nn);
                            }
                            return Err(RlistError::Infrastructure);
                        }
                    },
                    None => {},
                }
            }
            if let Some(u) = &url {
                match self.store.find_entry_by_url(u.as_str()) {
                    Some(j) => {
                        if j != i {
                            proof {
                                assert(s0.entries[j as int].url == nu);
                            }
                            return Err(RlistError::Infrastructure);
                        }
                    },
                    None => {},
                }
            }
        }
        proof {
            lemma_no_name_clash(s0, idx, nn);
            lemma_no_url_clash(s0, idx, nu);
        }
        let ghost row2 = crate::store::EntryRowModel {
            entry_id: row.entry_id,
            name: nn,
            url: nu,
            author: na,
            added: row.added,
        };
        if col_update {
            let name2 = match &new_name {
                Some(n) => n.clone(),
                None => self.store.entries[i].name.clone(),
            };
            let url2 = match &url {
                Some(u) => u.clone(),
                None => self.store.entries[i].url.clone(),
            };
            let author2 = match &author {
                Some(a) => Some(a.clone()),
                None => crate::store::clone_opt_string(&self.store.entries[i].author),
            };
            let added2 = self.store.entries[i].added.clone();
            let new_row = crate::store::EntryRow {
                entry_id,
                name: name2,
                url: url2,
                author: author2,
                added: added2,
            };
            proof {
                assert(new_row@ == row2);
            }
            self.store.entries.set(i, new_row);
            proof {
                assert(self@.entries =~= s0.entries.update(idx, row2));
                assert(self@ =~= s0.with_entries(s0.entries.update(idx, row2), s0.next_entry_id));
                lemma_wf_update_entry(s0, idx, row2);
            }
        }
        let ghost s1v = self@;
        proof {
            assert(s1v.entries[idx].entry_id == entry_id as int);
        }
        if clear_topics || topics.is_some() {
            crate::db::entry::DBEntry::unlink_all_topics(&mut self.store, entry_id);
        }
        let ghost s2v = self@;
        proof {
            assert(s2v.entries == s1v.entries);
        }
        let to_add: &Option<Vec<String>> = if topics.is_some() {
            &topics
        } else {
            &add_topics
        };
        let ghost to_add_dv = if topics.deep_view() is Some {
            topics.deep_view()
        } else {
            add_topics.deep_view()
        };
        match to_add {
            Some(list) => {
                proof {
                    assert(to_add_dv == Some(list.deep_view()));
                }
                let tids = match crate::db::topic::DBTopic::create_many(&mut self.store, list) {
                    Ok(v) => v,
                    Err(e) => {
                        return Err(e);
                    },
                };
                let ghost s3v = self@;
                let ghost ids = tids@.map_values(|x: i64| x as int);
                proof {
                    crate::db::topic::lemma_create_topics_props(s2v, list.deep_view());
                    assert(s3v.entries == s2v.entries);
                    assert(s3v.has_entry_id(entry_id as int)) by {
                        assert(s3v.entries[idx].entry_id == entry_id as int);
                    }
                    assert forall|k: int|
                        0 <= k < tids@.len() implies s3v.has_topic_id(
                        #[trigger] tids@[k] as int,
                    ) by {
                        assert(ids[k] == tids@[k] as int);
                        assert(s3v.has_topic_id(ids[k]));
                    }
                }
                match crate::db::entry::DBEntry::associate_with_topics(
                    &mut self.store,
                    entry_id,
                    tids,
                ) {
                    Ok(()) => {},
                    Err(_) => {
                        proof {
                            assert(false);
                        }
                        return Err(RlistError::Infrastructure);
                    },
                }
                proof {
                    crate::db::entry::lemma_associate_frame(s3v, entry_id as int, ids);
                }
            },
            None => {},
        }
        let ghost s4v = self@;
        match remove_topics {
            Some(rt) => {
                crate::db::entry::DBEntry::unlink_topics_by_name(&mut self.store, entry_id, rt);
            },
            None => {},
        }
        let ghost s5v = self@;
        proof {
            assert(s5v.entries == s4v.entries);
            assert(s5v.entries[idx] == row2 || s5v.entries[idx] == row);
        }
        let names = crate::db::topic::DBTopic::get_related_names(&self.store, entry_id);
        let e = self.store.entries[i].to_entry(names);
        proof {
            if col_update {
                assert(s5v.entries[idx] == row2);
            } else {
                assert(s5v.entries[idx] == row);
                assert(row2 == row);
            }
            assert(e@ == (EntryModel {
                name: nn,
                url: nu,
                author: na,
                added: row.added,
                topics: s5v.link_topic_names(entry_id as int),
            }));
        }
        Ok(e)
    }

    /// Removes every entry linked to the named topic and returns the removed
    /// entries; the topic row itself stays. `NotFound` when no topic carries
    /// the name.
    pub fn remove_by_topic(&mut self, topic: String) -> (r: Result<Vec<Entry>, RlistError>)
        requires
            old(self).wf(),
        ensures
            final(self).wf(),
            ({
                let (s2, res) = spec_remove_by_topic(old(self)@, topic@);
                &&& final(self)@ == s2
                &&& match r {
                    Ok(v) => res == Ok::<Seq<EntryModel>, RlistError>(models_of(v@)),
                    Err(e) => res == Err::<Seq<EntryModel>, RlistError>(e),
                }
            }),
    {
        let ghost s0 = self@;
        let topic_id = match crate::db::topic::DBTopic::get_id_from_name(
            &self.store,
            topic.as_str(),
        ) {
            Ok(id) => id,
            Err(e) => {
                return Err(e);
            },
        };
        proof {
            let i = choose|i: int|
                0 <= i < s0.topics.len() && #[trigger] s0.topics[i]
                    == (crate::store::TopicRowModel { topic_id: topic_id as int, name: topic@ });
            let w = s0.topic_index_named(topic@);
            assert(0 <= w < s0.topics.len() && s0.topics[w].name == topic@);
            assert(w == i) by {
                if w != i {
                    if w < i {
                        assert(s0.topics[w].name != s0.topics[i].name);
                    } else {
                        assert(s0.topics[i].name != s0.topics[w].name);
                    }
                }
            }
            assert(s0.topic_id_named(topic@) == topic_id as int);
        }
        let ghost tname = topic@;
        let wanted = Some(vec![topic]);
        let ghost wdv = wanted.deep_view();
        proof {
            assert(wdv matches Some(x) && x =~= seq![tname]);
            assert(wdv == Some(seq![tname]));
        }
        let matched = self.query(None, wanted, None, None, None, false, None, None, false);
        crate::db::entry::DBEntry::remove_related_to(&mut self.store, topic_id);
        Ok(matched)
    }

    /// Removes entries by several topic names, each name working on the
    /// store as the previous names left it; the removed entries accumulate
    /// in order, and an entry removed under an earlier name can show up
    /// again under a later one. A name that matches no topic stops the batch
    /// with `NotFound`.
    pub fn remove_by_topics(&mut self, topics: Vec<String>) -> (r: Result<Vec<Entry>, RlistError>)
        requires
            old(self).wf(),
        ensures
            final(self).wf(),
            ({
                let (s2, es, ok) = spec_remove_by_topics(old(self)@, topics.deep_view());
                &&& final(self)@ == s2
                &&& ok ==> (r matches Ok(v) && models_of(v@) == es)
                &&& !ok ==> (r matches Err(e) && e == RlistError::NotFound)
            }),
    {
        let ghost names = topics.deep_view();
        let mut res: Vec<Entry> = Vec::new();
        let mut k: usize = 0;
        proof {
            assert(names.take(0) =~= Seq::<Seq<char>>::empty());
            assert(models_of(res@) =~= Seq::<EntryModel>::empty());
        }
        while k < topics.len()
            invariant
                old(self).wf(),
                self.wf(),
                k <= topics@.len(),
                names == topics.deep_view(),
                names.len() == topics@.len(),
                spec_remove_by_topics(old(self)@, names.take(k as int)) == (
                    self@,
                    models_of(res@),
                    true,
                ),
            decreases topics@.len() - k,
        {
            proof {
                assert(names.take(k + 1).drop_last() =~= names.take(k as int));
                assert(names.take(k + 1).last() == names[k as int]);
                assert(names[k as int] == topics@[k as int]@);
            }
            let name = topics[k].clone();
            let part = match self.remove_by_topic(name) {
                Ok(v) => v,
                Err(e) => {
                    proof {
                        lemma_remove_by_topics_failure_sticks(old(self)@, names, k + 1);
                    }
                    return Err(e);
                },
            };
            let ghost res0 = models_of(res@);
            let ghost part0 = models_of(part@);
            let mut part = part;
            res.append(&mut part);
            proof {
                assert(models_of(res@) =~= res0 + part0);
            }
            k = k + 1;
        }
        proof {
            assert(names.take(topics@.len() as int) =~= names);
        }
        Ok(res)
    }

    /// Imports a batch of entries: each is created with a fresh creation
    /// stamp and linked to its topics; entries whose name or url collides
    /// with the store as it then stands are skipped. Returns how many were
    /// imported.
    pub fn import(&mut self, entries: Vec<Entry>) -> (r: u64)
        requires
            old(self).wf(),
        ensures
            final(self).wf(),
            exists|stamps: Seq<Seq<char>>|
                stamps.len() == entries@.len() && (final(self)@, r as int)
                    == #[trigger] spec_import(old(self)@, models_of(entries@), stamps),
    {
        let ghost ms = models_of(entries@);
        let ghost stamps: Seq<Seq<char>> = Seq::empty();
        let mut stamps_now: Ghost<Seq<Seq<char>>> = Ghost(stamps);
        let mut c: u64 = 0;
        let mut k: usize = 0;
        while k < entries.len()
            invariant
                old(self).wf(),
                self.wf(),
                k <= entries@.len(),
                ms == models_of(entries@),
                ms.len() == entries@.len(),
                stamps_now@.len() == k,
                c as int <= k,
                (self@, c as int) == spec_import(old(self)@, ms.take(k as int), stamps_now@),
            decreases entries@.len() - k,
        {
            let ghost s1 = self@;
            let ghost pre_stamps = stamps_now@;
            let ghost pre_count = c as int;
            proof {
                assert(ms.take(k + 1).drop_last() =~= ms.take(k as int));
                assert(ms.take(k + 1).last() == ms[k as int]);
                assert(ms[k as int] == entries@[k as int]@);
            }
            let added = crate::utils::now_string();
            let e = &entries[k];
            let author_ref: Option<&str> = match &e.author {
                Some(a) => Some(a.as_str()),
                None => None,
            };
            proof {
                assert(crate::db::entry::opt_str_view(author_ref) == e@.author);
            }
            let created = crate::db::entry::DBEntry::create(
                &mut self.store,
                e.name.as_str(),
                e.url.as_str(),
                author_ref,
                added.as_str(),
            );
            match created {
                Err(_) => {},
                Ok((entry_id, _created_entry)) => {
                    let ghost s2 = self@;
                    match crate::db::topic::DBTopic::create_many(&mut self.store, &e.topics) {
                        Err(_) => {},
                        Ok(tids) => {
                            let ghost s3 = self@;
                            let ghost ids = tids@.map_values(|x: i64| x as int);
                            proof {
                                crate::db::topic::lemma_create_topics_props(s2, e@.topics);
                                assert(s3.has_entry_id(entry_id as int)) by {
                                    let w = s2.entries.len() - 1;
                                    assert(s2.entries[w].entry_id == entry_id as int);
                                    assert(s3.entries[w].entry_id == entry_id as int);
                                }
                                assert forall|t: int|
                                    0 <= t < tids@.len() implies s3.has_topic_id(
                                    #[trigger] tids@[t] as int,
                                ) by {
                                    assert(ids[t] == tids@[t] as int);
                                    assert(s3.has_topic_id(ids[t]));
                                }
                            }
                            match crate::db::entry::DBEntry::associate_with_topics(
                                &mut self.store,
                                entry_id,
                                tids,
                            ) {
                                Ok(()) => {},
                                Err(_) => {
                                    proof {
                                        assert(false);
                                    }
                                },
                            }
                            c = c + 1;
                        },
                    }
                },
            }
            proof {
                stamps_now@ = stamps_now@.push(added@);
                assert(stamps_now@.drop_last() =~= pre_stamps);
                assert(stamps_now@.last() == added@);
                assert(spec_import(old(self)@, ms.take(k as int), pre_stamps) == (s1, pre_count));
                assert((self@, c as int) == spec_import(old(self)@, ms.take(k + 1), stamps_now@));
            }
            k = k + 1;
        }
        proof {
            assert(ms.take(entries@.len() as int) =~= ms);
            assert((self@, c as int) == spec_import(old(self)@, models_of(entries@), stamps_now@));
        }
        c
    }

    /// Every entry with its full topic set, for export.
    pub fn dump_all(&self) -> (r: Vec<Entry>)
        requires
            self.wf(),
        ensures
            models_of(r@) == self@.aggregate(),
    {
        crate::db::entry::DBEntry::get_all_complete(&self.store)
    }
}

} // verus!
