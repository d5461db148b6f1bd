use vstd::prelude::*;

use crate::entry::{Entry, EntryModel};
use crate::errors::{ConflictColumn, RlistError};
use crate::store::{EntryRow, EntryRowModel, LinkModel, LinkRow, Store, StoreModel};

verus! {

/// The optional author argument as a sequence of characters.
pub open spec fn opt_str_view(a: Option<&str>) -> Option<Seq<char>> {
    match a {
        Some(x) => Some(x@),
        None => None,
    }
}

/// The store after an attempt to create an entry, with the outcome: a taken
/// name or url is a `Conflict` naming the column (the name is checked first),
/// an exhausted id space is `Infrastructure`, and otherwise the row is
/// appended under the next fresh id and returned without topics.
pub open spec fn spec_create(
    s: StoreModel,
    name: Seq<char>,
    url: Seq<char>,
    author: Option<Seq<char>>,
    added: Seq<char>,
) -> (StoreModel, Result<(int, EntryModel), RlistError>) {
    if s.has_entry_named(name) {
        (s, Err(RlistError::Conflict { column: ConflictColumn::Name }))
    } else if s.has_url(url) {
        (s, Err(RlistError::Conflict { column: ConflictColumn::Url }))
    } else if s.next_entry_id == i64::MAX {
        (s, Err(RlistError::Infrastructure))
    } else {
        (
            s.with_entries(
                s.entries.push(
                    EntryRowModel { entry_id: s.next_entry_id, name, url, author, added },
                ),
                s.next_entry_id + 1,
            ),
            Ok((s.next_entry_id, EntryModel { name, url, author, topics: Seq::empty(), added })),
        )
    }
}

/// The store after linking an entry to each topic id, left to right; a pair
/// that is already linked is left alone.
pub open spec fn spec_associate(s: StoreModel, entry_id: int, ids: Seq<int>) -> StoreModel
    decreases ids.len(),
{
    if ids.len() == 0 {
        s
    } else {
        let s1 = spec_associate(s, entry_id, ids.drop_last());
        let l = LinkModel { entry_id, topic_id: ids.last() };
        if s1.links.contains(l) {
            s1
        } else {
            s1.with_links(s1.links.push(l))
        }
    }
}

/// Linking only appends to the link relation; entries, topics and the id
/// counters stay as they are.
pub proof fn lemma_associate_frame(s: StoreModel, entry_id: int, ids: Seq<int>)
    ensures
        spec_associate(s, entry_id, ids).entries == s.entries,
        spec_associate(s, entry_id, ids).topics == s.topics,
        spec_associate(s, entry_id, ids).next_entry_id == s.next_entry_id,
        spec_associate(s, entry_id, ids).next_topic_id == s.next_topic_id,
    decreases ids.len(),
{
    if ids.len() > 0 {
        lemma_associate_frame(s, entry_id, ids.drop_last());
    }
}

/// The store with the entry unlinked from every topic.
pub open spec fn spec_unlink_all(s: StoreModel, entry_id: int) -> StoreModel {
    s.with_links(s.links.filter(|l: LinkModel| l.entry_id != entry_id))
}

/// The store with the entry unlinked from every topic whose name occurs in
/// `names`; other links are left alone.
pub open spec fn spec_unlink_by_names(s: StoreModel, entry_id: int, names: Seq<Seq<char>>) -> StoreModel {
    s.with_links(
        s.links.filter(
            |l: LinkModel|
                !(l.entry_id == entry_id && names.contains(s.topic_name_of_id(l.topic_id))),
        ),
    )
}

/// The store after an attempt to remove the entry carrying `name`, with the
/// outcome: when present, the row and all of its links are deleted and the
/// entry is returned with the topics it had; otherwise `NotFound`.
pub open spec fn spec_remove_by_name(s: StoreModel, name: Seq<char>) -> (
    StoreModel,
    Result<EntryModel, RlistError>,
) {
    if !s.has_entry_named(name) {
        (s, Err(RlistError::NotFound))
    } else {
        let row = s.entry_named(name);
        (
            s.with_entries(s.entries.remove(s.entry_index_named(name)), s.next_entry_id)
                .with_links(s.links.filter(|l: LinkModel| l.entry_id != row.entry_id)),
            Ok(
                EntryModel {
                    name: row.name,
                    url: row.url,
                    author: row.author,
                    added: row.added,
                    topics: s.link_topic_names(row.entry_id),
                },
            ),
        )
    }
}

/// The store with every entry that is linked to the given topic deleted,
/// together with every link of such an entry; the topic rows stay.
pub open spec fn spec_remove_related_to(s: StoreModel, topic_id: int) -> StoreModel {
    s.with_entries(
        s.entries.filter(|r: EntryRowModel| !s.has_link(r.entry_id, topic_id)),
        s.next_entry_id,
    ).with_links(s.links.filter(|l: LinkModel| !s.has_link(l.entry_id, topic_id)))
}

/// The entry repository: row creation, lookups, link-table mutation, deletion
/// and the aggregate fetch.
pub struct DBEntry {}

impl DBEntry {
    /// Creates a new entry row with the given creation time. Does not touch
    /// topics. On success returns the assigned id and the entry.
    pub fn create(
        store: &mut Store,
        name: &str,
        url: &str,
        author: Option<&str>,
        added: &str,
    ) -> (r: Result<(i64, Entry), RlistError>)
        requires
            old(store).wf(),
        ensures
            final(store).wf(),
            ({
                let (s2, res) = spec_create(old(store)@, name@, url@, opt_str_view(author), added@);
                &&& final(store)@ == s2
                &&& match r {
                    Ok(p) => res == Ok::<(int, EntryModel), RlistError>((p.0 as int, p.1@)),
                    Err(e) => res == Err::<(int, EntryModel), RlistError>(e),
                }
            }),
    {
        if store.find_entry_by_name(name).is_some() {
            return Err(RlistError::Conflict { column: ConflictColumn::Name });
        }
        if store.find_entry_by_url(url).is_some() {
            return Err(RlistError::Conflict { column: ConflictColumn::Url });
        }
        if store.next_entry_id == i64::MAX {
            return Err(RlistError::Infrastructure);
        }
        let id = store.next_entry_id;
        let author_owned: Option<String> = match author {
            Some(a) => Some(a.to_owned()),
            None => None,
        };
        let ghost s1 = store@;
        let row = EntryRow {
            entry_id: id,
            name: name.to_owned(),
            url: url.to_owned(),
            author: author_owned,
            added: added.to_owned(),
        };
        proof {
            assert(row@ == (EntryRowModel {
                entry_id: id as int,
                name: name@,
                url: url@,
                author: opt_str_view(author),
                added: added@,
            }));
        }
        let entry = row.to_entry(Vec::new());
        store.entries.push(row);
        store.next_entry_id = store.next_entry_id + 1;
        proof {
            assert(store@.entries =~= s1.entries.push(
                EntryRowModel {
                    entry_id: id as int,
                    name: name@,
                    url: url@,
                    author: opt_str_view(author),
                    added: added@,
                },
            ));
            assert(store@ == spec_create(s1, name@, url@, opt_str_view(author), added@).0);
            assert(store@.wf()) by {
                assert(forall|j: int|
                    0 <= j < s1.entries.len() ==> (#[trigger] store@.entries[j]) == s1.entries[j]);
                assert forall|a: int|
                    0 <= a < store@.links.len() implies store@.has_entry_id(
                    (#[trigger] store@.links[a]).entry_id,
                ) && store@.has_topic_id(store@.links[a].topic_id) by {
                    assert(s1.links[a] == store@.links[a]);
                    assert(s1.has_entry_id(s1.links[a].entry_id));
                    let w = choose|k: int|
                        0 <= k < s1.entries.len() && (#[trigger] s1.entries[k]).entry_id
                            == s1.links[a].entry_id;
                    assert(store@.entries[w].entry_id == s1.links[a].entry_id);
                    assert(s1.has_topic_id(s1.links[a].topic_id));
                    let wt = choose|k: int|
                        0 <= k < s1.topics.len() && (#[trigger] s1.topics[k]).topic_id
                            == s1.links[a].topic_id;
                    assert(store@.topics =~= s1.topics);
                    assert(store@.topics[wt].topic_id == store@.links[a].topic_id);
                }
            }
            assert(entry@.topics =~= Seq::<Seq<char>>::empty());
        }
        Ok((id, entry))
    }

    /// Links the entry to every topic id given; pairs already linked are left
    /// alone, so re-applying is harmless. A missing entry or topic id is a
    /// referential-integrity violation and is refused with the store
    /// untouched.
    pub fn associate_with_topics(store: &mut Store, entry_id: i64, topic_ids: Vec<i64>) -> (r:
        Result<(), RlistError>)
        requires
            old(store).wf(),
        ensures
            final(store).wf(),
            ({
                let valid = old(store)@.has_entry_id(entry_id as int) && (forall|i: int|
                    0 <= i < topic_ids@.len() ==> old(store)@.has_topic_id(topic_ids@[i] as int));
                &&& valid ==> (r is Ok && final(store)@ == spec_associate(
                    old(store)@,
                    entry_id as int,
                    topic_ids@.map_values(|x: i64| x as int),
                ))
                &&& !valid ==> (r matches Err(e) && e == RlistError::Infrastructure
                    && final(store)@ == old(store)@)
            }),
    {
        if store.find_entry_by_id(entry_id).is_none() {
            return Err(RlistError::Infrastructure);
        }
        let mut i: usize = 0;
        while i < topic_ids.len()
            invariant
                old(store) == store,
                store.wf(),
                i <= topic_ids@.len(),
                forall|j: int| 0 <= j < i ==> store@.has_topic_id(topic_ids@[j] as int),
            decreases topic_ids@.len() - i,
        {
            if store.find_topic_by_id(topic_ids[i]).is_none() {
                return Err(RlistError::Infrastructure);
            }
            i = i + 1;
        }
        let ghost s0 = store@;
        let ghost ids = topic_ids@.map_values(|x: i64| x as int);
        let mut i: usize = 0;
        proof {
            assert(ids.take(0) =~= Seq::<int>::empty());
        }
        while i < topic_ids.len()
            invariant
                old(store).wf(),
                store.wf(),
                s0 == old(store)@,
                i <= topic_ids@.len(),
                ids == topic_ids@.map_values(|x: i64| x as int),
                forall|j: int| 0 <= j < topic_ids@.len() ==> s0.has_topic_id(topic_ids@[j] as int),
                s0.has_entry_id(entry_id as int),
                store@ == spec_associate(s0, entry_id as int, ids.take(i as int)),
            decreases topic_ids@.len() - i,
        {
            proof {
                assert(ids.take(i + 1).drop_last() =~= ids.take(i as int));
                assert(ids.take(i + 1).last() == ids[i as int]);
                lemma_associate_frame(s0, entry_id as int, ids.take(i as int));
            }
            let tid = topic_ids[i];
            if !store.has_link_row(entry_id, tid) {
                let ghost s1 = store@;
                store.links.push(LinkRow { entry_id, topic_id: tid });
                proof {
                    let l = LinkModel { entry_id: entry_id as int, topic_id: tid as int };
                    assert(store@.links =~= s1.links.push(l));
                    assert(store@ =~= s1.with_links(s1.links.push(l)));
                    assert(s1.has_entry_id(entry_id as int));
                    assert(s1.has_topic_id(tid as int));
                    crate::store::lemma_wf_push_link(s1, l);
                }
            }
            i = i + 1;
        }
        proof {
            assert(ids.take(topic_ids@.len() as int) =~= ids);
        }
        Ok(())
    }

    /// Unlinks the entry from every topic it is linked to.
    pub fn unlink_all_topics(store: &mut Store, entry_id: i64)
        requires
            old(store).wf(),
        ensures
            final(store).wf(),
            final(store)@ == spec_unlink_all(old(store)@, entry_id as int),
    {
        let ghost s0 = store@;
        let ghost pred = |l: LinkModel| l.entry_id != entry_id as int;
        let mut kept: Vec<LinkRow> = Vec::new();
        let mut i: usize = 0;
        proof {
            assert(s0.links.take(0) =~= Seq::<LinkModel>::empty());
            assert(s0.links.take(0).filter(pred) =~= Seq::<LinkModel>::empty()) by {
                reveal(Seq::filter);
            }
        }
        while i < store.links.len()
            invariant
                old(store) == store,
                store.wf(),
                s0 == store@,
                i <= store.links@.len(),
                store@.links.len() == store.links@.len(),
                pred == (|l: LinkModel| l.entry_id != entry_id as int),
                kept@.map_values(|r: LinkRow| r@) == s0.links.take(i as int).filter(pred),
            decreases store.links@.len() - i,
        {
            proof {
                assert(s0.links.take(i as int).push(s0.links[i as int]) =~= s0.links.take(i + 1));
                s0.links.take(i as int).lemma_filter_push(s0.links[i as int], pred);
            }
            let l = store.links[i];
            if l.entry_id != entry_id {
                kept.push(l);
                proof {
                    assert(kept@.map_values(|r: LinkRow| r@) =~= kept@.drop_last().map_values(
                        |r: LinkRow| r@,
                    ).push(kept@.last()@));
                }
            }
            i = i + 1;
        }
        proof {
            assert(s0.links.take(store.links@.len() as int) =~= s0.links);
        }
        store.links = kept;
        proof {
            assert(store@ =~= s0.with_links(s0.links.filter(pred)));
            crate::store::lemma_filter_distinct(s0.links, pred);
            crate::store::lemma_wf_with_links(s0, s0.links.filter(pred));
        }
    }

    /// Unlinks the entry from every topic whose name occurs in `topics`;
    /// names that match no topic, and topics the entry is not linked to, are
    /// ignored.
    pub fn unlink_topics_by_name(store: &mut Store, entry_id: i64, topics: Vec<String>)
        requires
            old(store).wf(),
        ensures
            final(store).wf(),
            final(store)@ == spec_unlink_by_names(
                old(store)@,
                entry_id as int,
                topics.deep_view(),
            ),
    {
        let ghost s0 = store@;
        let ghost names = topics.deep_view();
        let ghost pred = |l: LinkModel|
            !(l.entry_id == entry_id as int && names.contains(s0.topic_name_of_id(l.topic_id)));
        let mut kept: Vec<LinkRow> = Vec::new();
        let mut i: usize = 0;
        proof {
            assert(s0.links.take(0) =~= Seq::<LinkModel>::empty());
            assert(s0.links.take(0).filter(pred) =~= Seq::<LinkModel>::empty()) by {
                reveal(Seq::filter);
            }
        }
        while i < store.links.len()
            invariant
                old(store) == store,
                store.wf(),
                s0 == store@,
                names == topics.deep_view(),
                i <= store.links@.len(),
                store@.links.len() == store.links@.len(),
                pred == (|l: LinkModel|
                    !(l.entry_id == entry_id as int && names.contains(
                        s0.topic_name_of_id(l.topic_id),
                    ))),
                kept@.map_values(|r: LinkRow| r@) == s0.links.take(i as int).filter(pred),
            decreases store.links@.len() - i,
        {
            proof {
                assert(s0.links.take(i as int).push(s0.links[i as int]) =~= s0.links.take(i + 1));
                s0.links.take(i as int).lemma_filter_push(s0.links[i as int], pred);
            }
            let l = store.links[i];
            let mut keep = true;
            if l.entry_id == entry_id {
                proof {
                    assert(s0.links.contains(s0.links[i as int]));
                    assert(s0.has_topic_id(s0.links[i as int].topic_id));
                }
                let t = match store.find_topic_by_id(l.topic_id) {
                    Some(t) => t,
                    None => {
                        proof {
                            assert(false);
                        }
                        0
                    },
                };
                proof {
                    let lid = s0.links[i as int].topic_id;
                    let w = s0.topic_index_of_id(lid);
                    assert(0 <= w < s0.topics.len() && s0.topics[w].topic_id == lid);
                    assert(w == t as int) by {
                        if w != t as int {
                            if w < t as int {
                                assert(s0.topics[w].topic_id != s0.topics[t as int].topic_id);
                            } else {
                                assert(s0.topics[t as int].topic_id != s0.topics[w].topic_id);
                            }
                        }
                    }
                    assert(s0.topic_name_of_id(lid) == s0.topics[t as int].name);
                }
                let name = &store.topics[t].name;
                if crate::strutil::vec_contains_str(&topics, name.as_str()) {
                    keep = false;
                }
            }
            proof {
                assert(keep == pred(s0.links[i as int]));
            }
            if keep {
                kept.push(l);
                proof {
                    assert(kept@.map_values(|r: LinkRow| r@) =~= kept@.drop_last().map_values(
                        |r: LinkRow| r@,
                    ).push(kept@.last()@));
                }
            }
            i = i + 1;
        }
        proof {
            assert(s0.links.take(store.links@.len() as int) =~= s0.links);
        }
        store.links = kept;
        proof {
            assert(store@ =~= s0.with_links(s0.links.filter(pred)));
            crate::store::lemma_filter_distinct(s0.links, pred);
            crate::store::lemma_wf_with_links(s0, s0.links.filter(pred));
        }
    }

    /// Deletes every entry that is linked to the given topic, together with
    /// all links of those entries; entries linked to other topics as well are
    /// deleted too, and the topic rows themselves stay.
    pub fn remove_related_to(store: &mut Store, topic_id: i64)
        requires
            old(store).wf(),
        ensures
            final(store).wf(),
            final(store)@ == spec_remove_related_to(old(store)@, topic_id as int),
    {
        let ghost s0 = store@;
        let ghost epred = |r: EntryRowModel| !s0.has_link(r.entry_id, topic_id as int);
        let ghost lpred = |l: LinkModel| !s0.has_link(l.entry_id, topic_id as int);
        let mut kept_entries: Vec<EntryRow> = Vec::new();
        let mut i: usize = 0;
        proof {
            assert(s0.entries.take(0) =~= Seq::<EntryRowModel>::empty());
            assert(s0.entries.take(0).filter(epred) =~= Seq::<EntryRowModel>::empty()) by {
                reveal(Seq::filter);
            }
        }
        while i < store.entries.len()
            invariant
                old(store) == store,
                store.wf(),
                s0 == store@,
                i <= store.entries@.len(),
                store@.entries.len() == store.entries@.len(),
                epred == (|r: EntryRowModel| !s0.has_link(r.entry_id, topic_id as int)),
                kept_entries@.map_values(|r: EntryRow| r@) == s0.entries.take(i as int).filter(
                    epred,
                ),
            decreases store.entries@.len() - i,
        {
            proof {
                assert(s0.entries.take(i as int).push(s0.entries[i as int]) =~= s0.entries.take(
                    i + 1,
                ));
                s0.entries.take(i as int).lemma_filter_push(s0.entries[i as int], epred);
            }
            let doomed = store.has_link_row(store.entries[i].entry_id, topic_id);
            if !doomed {
                let copy = store.entries[i].duplicate();
                kept_entries.push(copy);
                proof {
                    assert(kept_entries@.map_values(|r: EntryRow| r@)
                        =~= kept_entries@.drop_last().map_values(|r: EntryRow| r@).push(
                        kept_entries@.last()@,
                    ));
                }
            }
            i = i + 1;
        }
        proof {
            assert(s0.entries.take(store.entries@.len() as int) =~= s0.entries);
        }
        let mut kept_links: Vec<LinkRow> = Vec::new();
        let mut j: usize = 0;
        proof {
            assert(s0.links.take(0) =~= Seq::<LinkModel>::empty());
            assert(s0.links.take(0).filter(lpred) =~= Seq::<LinkModel>::empty()) by {
                reveal(Seq::filter);
            }
        }
        while j < store.links.len()
            invariant
                old(store) == store,
                store.wf(),
                s0 == store@,
                j <= store.links@.len(),
                store@.links.len() == store.links@.len(),
                lpred == (|l: LinkModel| !s0.has_link(l.entry_id, topic_id as int)),
                kept_links@.map_values(|r: LinkRow| r@) == s0.links.take(j as int).filter(lpred),
            decreases store.links@.len() - j,
        {
            proof {
                assert(s0.links.take(j as int).push(s0.links[j as int]) =~= s0.links.take(j + 1));
                s0.links.take(j as int).lemma_filter_push(s0.links[j as int], lpred);
            }
            let l = store.links[j];
            let doomed = store.has_link_row(l.entry_id, topic_id);
            if !doomed {
                kept_links.push(l);
                proof {
                    assert(kept_links@.map_values(|r: LinkRow| r@)
                        =~= kept_links@.drop_last().map_values(|r: LinkRow| r@).push(
                        kept_links@.last()@,
                    ));
                }
            }
            j = j + 1;
        }
        proof {
            assert(s0.links.take(store.links@.len() as int) =~= s0.links);
        }
        store.entries = kept_entries;
        store.links = kept_links;
        proof {
            assert(store@ =~= spec_remove_related_to(s0, topic_id as int));
            lemma_wf_remove_related(s0, topic_id as int);
        }
    }

    /// Fetches every entry together with all of its topics; entries without
    /// topics come with an empty list.
    pub fn get_all_complete(store: &Store) -> (r: Vec<Entry>)
        requires
            store.wf(),
        ensures
            r@.map_values(|e: Entry| e@) == store@.aggregate(),
    {
        let mut r: Vec<Entry> = Vec::new();
        let mut i: usize = 0;
        while i < store.entries.len()
            invariant
                store.wf(),
                i <= store.entries@.len(),
                store@.entries.len() == store.entries@.len(),
                r@.len() == i,
                forall|j: int|
                    0 <= j < i ==> (#[trigger] r@[j])@ == store@.entry_aggregate(
                        store@.entries[j],
                    ),
            decreases store.entries@.len() - i,
        {
            let entry_id = store.entries[i].entry_id;
            let topics = crate::db::topic::DBTopic::get_related_names(store, entry_id);
            let entry = store.entries[i].to_entry(topics);
            r.push(entry);
            i = i + 1;
        }
        proof {
            assert(r@.map_values(|e: Entry| e@) =~= store@.aggregate());
        }
        r
    }

    /// Looks an entry name up; absence is not an error.
    pub fn get_id_from_name(store: &Store, name: &str) -> (r: Option<i64>)
        ensures
            match r {
                Some(id) => exists|i: int|
                    0 <= i < store@.entries.len() && (#[trigger] store@.entries[i]).entry_id
                        == id as int && store@.entries[i].name == name@,
                None => !store@.has_entry_named(name@),
            },
    {
        match store.find_entry_by_name(name) {
            Some(i) => Some(store.entries[i].entry_id),
            None => None,
        }
    }

    /// Removes the entry carrying the given name; its link rows go with it.
    /// Returns the removed entry with the topics it had at deletion time;
    /// `NotFound` when no entry carries the name.
    pub fn remove_by_name(store: &mut Store, name: &str) -> (r: Result<Entry, RlistError>)
        requires
            old(store).wf(),
        ensures
            final(store).wf(),
            ({
                let (s2, res) = spec_remove_by_name(old(store)@, name@);
                &&& final(store)@ == s2
                &&& match r {
                    Ok(e) => res == Ok::<EntryModel, RlistError>(e@),
                    Err(e) => res == Err::<EntryModel, RlistError>(e),
                }
            }),
    {
        let ghost s0 = store@;
        let i = match store.find_entry_by_name(name) {
            Some(i) => i,
            None => {
                return Err(RlistError::NotFound);
            },
        };
        proof {
            let w = s0.entry_index_named(name@);
            assert(0 <= w < s0.entries.len() && s0.entries[w].name == name@);
            assert(w == i as int) by {
                if w != i as int {
                    if w < i as int {
                        assert(s0.entries[w].name != s0.entries[i as int].name);
                    } else {
                        assert(s0.entries[i as int].name != s0.entries[w].name);
                    }
                }
            }
        }
        let entry_id = store.entries[i].entry_id;
        let topics = crate::db::topic::DBTopic::get_related_names(store, entry_id);
        let entry = store.entries[i].to_entry(topics);
        store.entries.remove(i);
        proof {
            let ghost s1 = store@;
            assert(s1.entries =~= s0.entries.remove(i as int));
            assert(s1.topics =~= s0.topics);
            assert(s1.links =~= s0.links);
        }
        let ghost pred = |l: LinkModel| l.entry_id != entry_id as int;
        let mut kept: Vec<LinkRow> = Vec::new();
        let mut j: usize = 0;
        proof {
            assert(s0.links.take(0) =~= Seq::<LinkModel>::empty());
            assert(s0.links.take(0).filter(pred) =~= Seq::<LinkModel>::empty()) by {
                reveal(Seq::filter);
            }
        }
        while j < store.links.len()
            invariant
                store@.links == s0.links,
                store@.links.len() == store.links@.len(),
                j <= store.links@.len(),
                pred == (|l: LinkModel| l.entry_id != entry_id as int),
                kept@.map_values(|r: LinkRow| r@) == s0.links.take(j as int).filter(pred),
            decreases store.links@.len() - j,
        {
            proof {
                assert(s0.links.take(j as int).push(s0.links[j as int]) =~= s0.links.take(j + 1));
                s0.links.take(j as int).lemma_filter_push(s0.links[j as int], pred);
            }
            let l = store.links[j];
            if l.entry_id != entry_id {
                kept.push(l);
                proof {
                    assert(kept@.map_values(|r: LinkRow| r@) =~= kept@.drop_last().map_values(
                        |r: LinkRow| r@,
                    ).push(kept@.last()@));
                }
            }
            j = j + 1;
        }
        proof {
            assert(s0.links.take(store.links@.len() as int) =~= s0.links);
        }
        store.links = kept;
        proof {
            let s2 = spec_remove_by_name(s0, name@).0;
            assert(store@ =~= s2);
            assert(s2.wf()) by {
                lemma_wf_after_entry_removal(s0, i as int);
            }
        }
        Ok(entry)
    }

    /// Fetches the entry carrying the given name, with an empty topic list;
    /// `NotFound` when no entry carries it.
    pub fn get_by_name_without_topics(store: &Store, name: &str) -> (r: Result<
        (i64, Entry),
        RlistError,
    >)
        requires
            store.wf(),
        ensures
            match r {
                Ok(p) => {
                    let row = store@.entry_named(name@);
                    &&& store@.has_entry_named(name@)
                    &&& p.0 as int == row.entry_id
                    &&& p.1@ == (EntryModel {
                        name: row.name,
                        url: row.url,
                        author: row.author,
                        added: row.added,
                        topics: Seq::empty(),
                    })
                },
                Err(e) => e == RlistError::NotFound && !store@.has_entry_named(name@),
            },
    {
        match store.find_entry_by_name(name) {
            Some(i) => {
                let entry = store.entries[i].to_entry(Vec::new());
                let id = store.entries[i].entry_id;
                proof {
                    let w = store@.entry_index_named(name@);
                    assert(0 <= w < store@.entries.len() && store@.entries[w].name == name@);
                    assert(w == i as int) by {
                        if w != i as int {
                            if w < i as int {
                                assert(store@.entries[w].name != store@.entries[i as int].name);
                            } else {
                                assert(store@.entries[i as int].name != store@.entries[w].name);
                            }
                        }
                    }
                    assert(entry@.topics =~= Seq::<Seq<char>>::empty());
                }
                Ok((id, entry))
            },
            None => Err(RlistError::NotFound),
        }
    }
}

/// Removing one entry row and every link that references it preserves
/// well-formedness.
pub(crate) proof fn lemma_wf_after_entry_removal(s: StoreModel, i: int)
    requires
        s.wf(),
        0 <= i < s.entries.len(),
    ensures
        s.with_entries(s.entries.remove(i), s.next_entry_id).with_links(
            s.links.filter(|l: LinkModel| l.entry_id != s.entries[i].entry_id),
        ).wf(),
{
    let removed = s.entries[i];
    let pred = |l: LinkModel| l.entry_id != s.entries[i].entry_id;
    let s2 = s.with_entries(s.entries.remove(i), s.next_entry_id).with_links(
        s.links.filter(pred),
    );
    assert forall|a: int, b: int|
        0 <= a < b < s2.entries.len() implies (#[trigger] s2.entries[a]).entry_id != (
    #[trigger] s2.entries[b]).entry_id && s2.entries[a].name != s2.entries[b].name
        && s2.entries[a].url != s2.entries[b].url by {
        let a0: int = if a < i {
            a
        } else {
            a + 1
        };
        let b0: int = if b < i {
            b
        } else {
            b + 1
        };
        assert(s2.entries[a] == s.entries[a0]);
        assert(s2.entries[b] == s.entries[b0]);
    }
    assert forall|a: int|
        0 <= a < s2.entries.len() implies 0 < (#[trigger] s2.entries[a]).entry_id
        < s2.next_entry_id by {
        let a0: int = if a < i {
            a
        } else {
            a + 1
        };
        assert(s2.entries[a] == s.entries[a0]);
    }
    crate::store::lemma_filter_distinct(s.links, pred);
    assert forall|a: int|
        0 <= a < s2.links.len() implies s2.has_entry_id((#[trigger] s2.links[a]).entry_id)
        && s2.has_topic_id(s2.links[a].topic_id) by {
        let cur = s2.links[a];
        assert(s.links.contains(cur));
        let w = choose|k: int| 0 <= k < s.links.len() && s.links[k] == cur;
        assert(s.has_entry_id(cur.entry_id));
        assert(pred(cur));
        let we = choose|k: int|
            0 <= k < s.entries.len() && (#[trigger] s.entries[k]).entry_id == cur.entry_id;
        assert(we != i);
        if we < i {
            assert(s2.entries[we] == s.entries[we]);
            assert(s2.entries[we].entry_id == cur.entry_id);
        } else {
            assert(s2.entries[we - 1] == s.entries[we]);
            assert(s2.entries[we - 1].entry_id == cur.entry_id);
        }
        assert(s.has_topic_id(cur.topic_id));
        let wt = choose|k: int|
            0 <= k < s.topics.len() && (#[trigger] s.topics[k]).topic_id == cur.topic_id;
        assert(s2.topics[wt].topic_id == cur.topic_id);
    }
}

/// Deleting the entries linked to a topic, together with the links of those
/// entries, preserves well-formedness.
proof fn lemma_wf_remove_related(s: StoreModel, topic_id: int)
    requires
        s.wf(),
    ensures
        spec_remove_related_to(s, topic_id).wf(),
{
    let epred = |r: EntryRowModel| !s.has_link(r.entry_id, topic_id);
    let lpred = |l: LinkModel| !s.has_link(l.entry_id, topic_id);
    let s2 = spec_remove_related_to(s, topic_id);
    crate::store::lemma_filter_distinct(s.entries, epred);
    crate::store::lemma_filter_distinct(s.links, lpred);
    assert forall|a: int, b: int|
        0 <= a < b < s2.entries.len() implies (#[trigger] s2.entries[a]).entry_id != (
    #[trigger] s2.entries[b]).entry_id && s2.entries[a].name != s2.entries[b].name
        && s2.entries[a].url != s2.entries[b].url by {
        assert(s.entries.contains(s2.entries[a]));
        assert(s.entries.contains(s2.entries[b]));
        let wa = choose|k: int| 0 <= k < s.entries.len() && s.entries[k] == s2.entries[a];
        let wb = choose|k: int| 0 <= k < s.entries.len() && s.entries[k] == s2.entries[b];
        assert(wa != wb);
        if wa < wb {
            assert(s.entries[wa].entry_id != s.entries[wb].entry_id);
        } else {
            assert(s.entries[wb].entry_id != s.entries[wa].entry_id);
        }
    }
    assert forall|a: int|
        0 <= a < s2.entries.len() implies 0 < (#[trigger] s2.entries[a]).entry_id
        < s2.next_entry_id by {
        assert(s.entries.contains(s2.entries[a]));
        let wa = choose|k: int| 0 <= k < s.entries.len() && s.entries[k] == s2.entries[a];
        assert(s.entries[wa] == s2.entries[a]);
    }
    assert forall|a: int|
        0 <= a < s2.links.len() implies s2.has_entry_id((#[trigger] s2.links[a]).entry_id)
        && s2.has_topic_id(s2.links[a].topic_id) by {
        let cur = s2.links[a];
        assert(s.links.contains(cur));
        let w = choose|k: int| 0 <= k < s.links.len() && s.links[k] == cur;
        assert(s.has_entry_id(cur.entry_id));
        assert(lpred(cur));
        let we = choose|k: int|
            0 <= k < s.entries.len() && (#[trigger] s.entries[k]).entry_id == cur.entry_id;
        assert(epred(s.entries[we]));
        s.entries.lemma_filter_contains(epred, we);
        assert(s2.entries.contains(s.entries[we]));
        let we2 = choose|k: int| 0 <= k < s2.entries.len() && s2.entries[k] == s.entries[we];
        assert(s2.entries[we2].entry_id == cur.entry_id);
        assert(s.has_topic_id(cur.topic_id));
        let wt = choose|k: int|
            0 <= k < s.topics.len() && (#[trigger] s.topics[k]).topic_id == cur.topic_id;
        assert(s2.topics[wt].topic_id == cur.topic_id);
    }
}

} // verus!
