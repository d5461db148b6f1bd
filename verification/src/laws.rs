use vstd::prelude::*;

use crate::db::entry::{spec_associate, spec_create, spec_remove_by_name, spec_unlink_all};
use crate::db::topic::spec_create_topic;
use crate::entry::EntryModel;
use crate::errors::{ConflictColumn, RlistError};
use crate::rlist::topics_pass;
use crate::store::{LinkModel, StoreModel};

verus! {

// The laws this library promises, stated over the store model and the
// transition functions the operations are specified by.

/// Uniqueness: two distinct entries of a well-formed store never share a
/// name or a url.
pub proof fn lemma_entries_unique(s: StoreModel, i: int, j: int)
    requires
        s.wf(),
        0 <= i < s.entries.len(),
        0 <= j < s.entries.len(),
        i != j,
    ensures
        s.entries[i].name != s.entries[j].name,
        s.entries[i].url != s.entries[j].url,
{
    if i < j {
        assert(s.entries[i].name != s.entries[j].name);
    } else {
        assert(s.entries[j].name != s.entries[i].name);
    }
}

/// Uniqueness: creating an entry whose name or url is already taken fails
/// with a `Conflict` naming the offending column and leaves the store
/// unchanged.
pub proof fn lemma_create_conflict_keeps_store(
    s: StoreModel,
    name: Seq<char>,
    url: Seq<char>,
    author: Option<Seq<char>>,
    added: Seq<char>,
)
    requires
        s.has_entry_named(name) || s.has_url(url),
    ensures
        spec_create(s, name, url, author, added).0 == s,
        s.has_entry_named(name) ==> spec_create(s, name, url, author, added).1 == Err::<
            (int, EntryModel),
            RlistError,
        >(RlistError::Conflict { column: ConflictColumn::Name }),
        !s.has_entry_named(name) ==> spec_create(s, name, url, author, added).1 == Err::<
            (int, EntryModel),
            RlistError,
        >(RlistError::Conflict { column: ConflictColumn::Url }),
{
}

/// Topic idempotence: creating a topic name that already exists changes
/// nothing and yields the id the name already maps to, so creating the same
/// name any number of times yields the same id every time.
pub proof fn lemma_topic_create_idempotent(s: StoreModel, name: Seq<char>)
    requires
        s.wf(),
    ensures
        ({
            let (s1, id1) = spec_create_topic(s, name);
            let (s2, id2) = spec_create_topic(s1, name);
            s2 == s1 && id2 == id1
        }),
{
    let (s1, id1) = spec_create_topic(s, name);
    if s.has_topic_named(name) {
        let w = s.topic_index_named(name);
        assert(0 <= w < s.topics.len() && s.topics[w].name == name);
    } else {
        let n = s.topics.len() as int;
        assert(s1.topics[n].name == name);
        assert(s1.has_topic_named(name));
        let w = s1.topic_index_named(name);
        assert(0 <= w < s1.topics.len() && s1.topics[w].name == name);
        assert(w == n) by {
            if w < n {
                assert(s.topics[w] == s1.topics[w]);
                assert(!s.has_topic_named(name));
            }
        }
        assert(s1.topic_id_named(name) == id1);
    }
}

/// Link idempotence: linking an entry to topics it is already linked to
/// changes nothing at all — in particular the link count stays the same.
pub proof fn lemma_associate_noop(s: StoreModel, entry_id: int, ids: Seq<int>)
    requires
        forall|t: int|
            0 <= t < ids.len() ==> s.links.contains(
                LinkModel { entry_id, topic_id: #[trigger] ids[t] },
            ),
    ensures
        spec_associate(s, entry_id, ids) == s,
    decreases ids.len(),
{
    if ids.len() > 0 {
        lemma_associate_noop(s, entry_id, ids.drop_last());
    }
}

/// After linking, every given pair is present, and no link disappears.
pub proof fn lemma_associate_contains(s: StoreModel, entry_id: int, ids: Seq<int>)
    ensures
        ({
            let s2 = spec_associate(s, entry_id, ids);
            &&& forall|t: int|
                0 <= t < ids.len() ==> s2.links.contains(
                    LinkModel { entry_id, topic_id: #[trigger] ids[t] },
                )
            &&& forall|l: LinkModel| s.links.contains(l) ==> #[trigger] s2.links.contains(l)
        }),
    decreases ids.len(),
{
    if ids.len() > 0 {
        lemma_associate_contains(s, entry_id, ids.drop_last());
        let s1 = spec_associate(s, entry_id, ids.drop_last());
        let s2 = spec_associate(s, entry_id, ids);
        let l = LinkModel { entry_id, topic_id: ids.last() };
        assert forall|x: LinkModel| s1.links.contains(x) implies #[trigger] s2.links.contains(
            x,
        ) by {
            if s1.links.contains(l) {
            } else {
                let w = choose|w: int| 0 <= w < s1.links.len() && s1.links[w] == x;
                assert(s2.links[w] == x);
            }
        }
        assert forall|t: int|
            0 <= t < ids.len() implies s2.links.contains(
            LinkModel { entry_id, topic_id: #[trigger] ids[t] },
        ) by {
            if t < ids.len() - 1 {
                assert(ids.drop_last()[t] == ids[t]);
                assert(s1.links.contains(LinkModel { entry_id, topic_id: ids[t] }));
            } else {
                if s1.links.contains(l) {
                } else {
                    assert(s2.links[s2.links.len() - 1] == l);
                }
            }
        }
    }
}

/// Link idempotence, applied twice: re-linking the same topics is a no-op.
pub proof fn lemma_associate_idempotent(s: StoreModel, entry_id: int, ids: Seq<int>)
    ensures
        spec_associate(spec_associate(s, entry_id, ids), entry_id, ids) == spec_associate(
            s,
            entry_id,
            ids,
        ),
{
    lemma_associate_contains(s, entry_id, ids);
    lemma_associate_noop(spec_associate(s, entry_id, ids), entry_id, ids);
}

/// Cascade: removing an entry removes every link of it; the store stays
/// well-formed, so no link row is left referencing a missing entry or topic.
pub proof fn lemma_remove_cascades(s: StoreModel, name: Seq<char>)
    requires
        s.wf(),
        s.has_entry_named(name),
    ensures
        ({
            let s2 = spec_remove_by_name(s, name).0;
            &&& s2.wf()
            &&& !s2.has_entry_named(name)
            &&& forall|i: int|
                0 <= i < s2.links.len() ==> (#[trigger] s2.links[i]).entry_id != s.entry_named(
                    name,
                ).entry_id
            &&& forall|i: int|
                0 <= i < s2.links.len() ==> s2.has_entry_id((#[trigger] s2.links[i]).entry_id)
                    && s2.has_topic_id(s2.links[i].topic_id)
        }),
{
    let idx = s.entry_index_named(name);
    assert(0 <= idx < s.entries.len() && s.entries[idx].name == name);
    let s2 = spec_remove_by_name(s, name).0;
    crate::db::entry::lemma_wf_after_entry_removal(s, idx);
    let pred = |l: LinkModel| l.entry_id != s.entries[idx].entry_id;
    assert forall|i: int|
        0 <= i < s2.links.len() implies (#[trigger] s2.links[i]).entry_id != s.entry_named(
        name,
    ).entry_id by {
        s.links.lemma_filter_pred(pred, i);
    }
    assert forall|i: int| 0 <= i < s2.entries.len() implies (#[trigger] s2.entries[i]).name
        != name by {
        let i0: int = if i < idx {
            i
        } else {
            i + 1
        };
        assert(s2.entries[i] == s.entries[i0]);
        if i0 < idx {
            assert(s.entries[i0].name != s.entries[idx].name);
        } else {
            assert(s.entries[idx].name != s.entries[i0].name);
        }
    }
}

/// Linking preserves well-formedness when the entry and every topic exist.
proof fn lemma_associate_wf(s: StoreModel, entry_id: int, ids: Seq<int>)
    requires
        s.wf(),
        s.has_entry_id(entry_id),
        forall|t: int| 0 <= t < ids.len() ==> s.has_topic_id(#[trigger] ids[t]),
    ensures
        spec_associate(s, entry_id, ids).wf(),
    decreases ids.len(),
{
    if ids.len() > 0 {
        lemma_associate_wf(s, entry_id, ids.drop_last());
        crate::db::entry::lemma_associate_frame(s, entry_id, ids.drop_last());
        let s1 = spec_associate(s, entry_id, ids.drop_last());
        let l = LinkModel { entry_id, topic_id: ids.last() };
        if s1.links.contains(l) {
        } else {
            assert(s1.has_entry_id(entry_id)) by {
                let w = choose|k: int|
                    0 <= k < s.entries.len() && (#[trigger] s.entries[k]).entry_id == entry_id;
                assert(s1.entries[w].entry_id == entry_id);
            }
            assert(s1.has_topic_id(ids.last())) by {
                assert(s.has_topic_id(ids[ids.len() - 1]));
                let w = choose|k: int|
                    0 <= k < s.topics.len() && (#[trigger] s.topics[k]).topic_id == ids.last();
                assert(s1.topics[w].topic_id == ids.last());
            }
            crate::store::lemma_wf_push_link(s1, l);
        }
    }
}

/// After linking, the set of topic ids linked to the entry has grown by
/// exactly the given ids.
proof fn lemma_associate_ids(s: StoreModel, entry_id: int, ids: Seq<int>)
    ensures
        spec_associate(s, entry_id, ids).topic_ids_of(entry_id).to_set() == s.topic_ids_of(
            entry_id,
        ).to_set().union(ids.to_set()),
    decreases ids.len(),
{
    broadcast use vstd::prelude::Seq::lemma_to_set_insert_commutes;

    let pred = |l: LinkModel| l.entry_id == entry_id;
    if ids.len() == 0 {
        assert(ids.to_set() =~= Set::<int>::empty());
        assert(spec_associate(s, entry_id, ids).topic_ids_of(entry_id).to_set() =~= s.topic_ids_of(
            entry_id,
        ).to_set().union(ids.to_set()));
    } else {
        lemma_associate_ids(s, entry_id, ids.drop_last());
        let s1 = spec_associate(s, entry_id, ids.drop_last());
        let s2 = spec_associate(s, entry_id, ids);
        let l = LinkModel { entry_id, topic_id: ids.last() };
        assert(ids =~= ids.drop_last().push(ids.last()));
        assert(ids.to_set() == ids.drop_last().to_set().insert(ids.last())) by {
            Seq::<int>::lemma_to_set_insert_commutes(ids.drop_last(), ids.last());
            assert(ids.drop_last() + seq![ids.last()] =~= ids);
        }
        if s1.links.contains(l) {
            let w = choose|k: int| 0 <= k < s1.links.len() && s1.links[k] == l;
            s1.links.lemma_filter_contains(pred, w);
            let f = s1.links.filter(pred);
            assert(f.contains(l));
            let wi = choose|k: int| 0 <= k < f.len() && f[k] == l;
            assert(s1.topic_ids_of(entry_id)[wi] == ids.last());
            assert(s1.topic_ids_of(entry_id).to_set().contains(ids.last()));
            assert(s2.topic_ids_of(entry_id).to_set() =~= s.topic_ids_of(
                entry_id,
            ).to_set().union(ids.to_set()));
        } else {
            s1.links.lemma_filter_push(l, pred);
            assert(s2.links =~= s1.links.push(l));
            assert(s2.links.filter(pred) == s1.links.filter(pred).push(l));
            assert(s2.topic_ids_of(entry_id) =~= s1.topic_ids_of(entry_id).push(ids.last()));
            assert(s2.topic_ids_of(entry_id).to_set() == s1.topic_ids_of(
                entry_id,
            ).to_set().insert(ids.last())) by {
                Seq::<int>::lemma_to_set_insert_commutes(s1.topic_ids_of(entry_id), ids.last());
                assert(s1.topic_ids_of(entry_id) + seq![ids.last()] =~= s1.topic_ids_of(
                    entry_id,
                ).push(ids.last()));
            }
            assert(s2.topic_ids_of(entry_id).to_set() =~= s.topic_ids_of(
                entry_id,
            ).to_set().union(ids.to_set()));
        }
    }
}

/// Unlinking everything leaves the entry with no linked topics and keeps
/// the store well-formed.
proof fn lemma_unlink_all_props(s: StoreModel, entry_id: int)
    requires
        s.wf(),
    ensures
        spec_unlink_all(s, entry_id).wf(),
        spec_unlink_all(s, entry_id).topic_ids_of(entry_id) == Seq::<int>::empty(),
{
    let keep = |l: LinkModel| l.entry_id != entry_id;
    crate::store::lemma_filter_distinct(s.links, keep);
    crate::store::lemma_wf_with_links(s, s.links.filter(keep));
    let s2 = spec_unlink_all(s, entry_id);
    let pred = |l: LinkModel| l.entry_id == entry_id;
    assert forall|i: int| 0 <= i < s2.links.len() implies !pred(#[trigger] s2.links[i]) by {
        s.links.lemma_filter_pred(keep, i);
    }
    assert(s2.links.all(|l: LinkModel| !pred(l)));
    s2.links.lemma_all_neg_filter_empty(pred);
    assert(s2.topic_ids_of(entry_id) =~= Seq::<int>::empty());
}

/// Edit precedence, replacement: editing with a whole topic list leaves the
/// entry with exactly the listed topics.
pub proof fn lemma_edit_replaces_topics(s: StoreModel, old_name: Seq<char>, ts: Seq<Seq<char>>)
    requires
        s.wf(),
        s.has_entry_named(old_name),
        s.next_topic_id + ts.len() <= i64::MAX,
    ensures
        ({
            let (s5, res) = crate::rlist::spec_edit(
                s,
                old_name,
                None,
                None,
                None,
                Some(ts),
                None,
                false,
                None,
            );
            res matches Ok(e) && e.topics.to_set() == ts.to_set()
        }),
{
    let idx = s.entry_index_named(old_name);
    assert(0 <= idx < s.entries.len() && s.entries[idx].name == old_name);
    let eid = s.entries[idx].entry_id;
    let s2 = spec_unlink_all(s, eid);
    lemma_unlink_all_props(s, eid);
    crate::db::topic::lemma_create_topics_ok(s2, ts);
    crate::db::topic::lemma_create_topics_wf(s2, ts);
    crate::db::topic::lemma_create_topics_props(s2, ts);
    let (s3, ids, ok) = crate::db::topic::spec_create_topics(s2, ts);
    assert(ok);
    assert(s3.has_entry_id(eid)) by {
        assert(s2.entries[idx].entry_id == eid);
        assert(s3.entries[idx].entry_id == eid);
    }
    lemma_associate_wf(s3, eid, ids);
    lemma_associate_ids(s3, eid, ids);
    crate::db::entry::lemma_associate_frame(s3, eid, ids);
    let s4 = spec_associate(s3, eid, ids);
    assert(s3.topic_ids_of(eid) == s2.topic_ids_of(eid)) by {
        assert(s3.links == s2.links);
    }
    assert(s4.topic_ids_of(eid).to_set() =~= ids.to_set());
    // every created id carries its name in the final store as well
    assert forall|i: int|
        0 <= i < ts.len() implies s4.has_topic_id(#[trigger] ids[i]) && s4.topic_name_of_id(
        ids[i],
    ) == ts[i] by {
        crate::store::lemma_topic_name_preserved(s3, s4, ids[i]);
    }
    let names = s4.link_topic_names(eid);
    let tids = s4.topic_ids_of(eid);
    assert(names.to_set() =~= ts.to_set()) by {
        assert forall|x: Seq<char>| names.to_set().contains(x) implies ts.to_set().contains(x) by {
            let k = choose|k: int| 0 <= k < names.len() && names[k] == x;
            crate::store::lemma_entry_topic_member(s4, eid, k);
            assert(tids.to_set().contains(tids[k]));
            assert(ids.to_set().contains(tids[k]));
            assert(ids.contains(tids[k]));
            let i = choose|i: int| 0 <= i < ids.len() && ids[i] == tids[k];
            assert(x == s4.topic_name_of_id(ids[i]));
            assert(x == ts[i]);
            assert(ts.to_set().contains(ts[i]));
        }
        assert forall|x: Seq<char>| ts.to_set().contains(x) implies names.to_set().contains(x) by {
            let i = choose|i: int| 0 <= i < ts.len() && ts[i] == x;
            assert(ids.to_set().contains(ids[i]));
            assert(tids.to_set().contains(ids[i]));
            assert(tids.contains(ids[i]));
            let k = choose|k: int| 0 <= k < tids.len() && tids[k] == ids[i];
            crate::store::lemma_entry_topic_member(s4, eid, k);
            assert(names[k] == s4.topic_name_of_id(ids[i]));
            assert(names[k] == x);
            assert(names.contains(names[k]));
        }
    }
}

/// Edit precedence, appending: editing with `add_topics` leaves the entry
/// with its old topics together with the added ones.
pub proof fn lemma_edit_adds_topics(s: StoreModel, old_name: Seq<char>, ts: Seq<Seq<char>>)
    requires
        s.wf(),
        s.has_entry_named(old_name),
        s.next_topic_id + ts.len() <= i64::MAX,
    ensures
        ({
            let (s5, res) = crate::rlist::spec_edit(
                s,
                old_name,
                None,
                None,
                None,
                None,
                Some(ts),
                false,
                None,
            );
            res matches Ok(e) && e.topics.to_set() == s.link_topic_names(
                s.entry_named(old_name).entry_id,
            ).to_set().union(ts.to_set())
        }),
{
    let idx = s.entry_index_named(old_name);
    assert(0 <= idx < s.entries.len() && s.entries[idx].name == old_name);
    let eid = s.entries[idx].entry_id;
    crate::db::topic::lemma_create_topics_ok(s, ts);
    crate::db::topic::lemma_create_topics_wf(s, ts);
    crate::db::topic::lemma_create_topics_props(s, ts);
    let (s3, ids, ok) = crate::db::topic::spec_create_topics(s, ts);
    assert(ok);
    assert(s3.has_entry_id(eid)) by {
        assert(s3.entries[idx].entry_id == eid);
    }
    lemma_associate_wf(s3, eid, ids);
    lemma_associate_ids(s3, eid, ids);
    crate::db::entry::lemma_associate_frame(s3, eid, ids);
    let s4 = spec_associate(s3, eid, ids);
    assert(s3.topic_ids_of(eid) == s.topic_ids_of(eid)) by {
        assert(s3.links == s.links);
    }
    assert(s4.topic_ids_of(eid).to_set() == s.topic_ids_of(eid).to_set().union(ids.to_set()));
    assert forall|i: int|
        0 <= i < ts.len() implies s4.has_topic_id(#[trigger] ids[i]) && s4.topic_name_of_id(
        ids[i],
    ) == ts[i] by {
        crate::store::lemma_topic_name_preserved(s3, s4, ids[i]);
    }
    assert forall|id: int| s.has_topic_id(id) implies #[trigger] s4.has_topic_id(id)
        && s4.topic_name_of_id(id) == s.topic_name_of_id(id) by {
        assert(s3.has_topic_id(id) && s3.topic_name_of_id(id) == s.topic_name_of_id(id));
        crate::store::lemma_topic_name_preserved(s3, s4, id);
    }
    let names4 = s4.link_topic_names(eid);
    let tids4 = s4.topic_ids_of(eid);
    let old_names = s.link_topic_names(eid);
    let old_tids = s.topic_ids_of(eid);
    assert(names4.to_set() =~= old_names.to_set().union(ts.to_set())) by {
        assert forall|x: Seq<char>| names4.to_set().contains(x) implies old_names.to_set().union(
            ts.to_set(),
        ).contains(x) by {
            let k = choose|k: int| 0 <= k < names4.len() && names4[k] == x;
            crate::store::lemma_entry_topic_member(s4, eid, k);
            let tid = tids4[k];
            assert(tids4.to_set().contains(tid));
            if old_tids.to_set().contains(tid) {
                let k0 = choose|k0: int| 0 <= k0 < old_tids.len() && old_tids[k0] == tid;
                crate::store::lemma_entry_topic_member(s, eid, k0);
                assert(s.has_topic_id(tid));
                assert(s4.topic_name_of_id(tid) == s.topic_name_of_id(tid));
                assert(old_names[k0] == x);
                assert(old_names.to_set().contains(old_names[k0]));
            } else {
                assert(ids.to_set().contains(tid));
                let i = choose|i: int| 0 <= i < ids.len() && ids[i] == tid;
                assert(x == ts[i]);
                assert(ts.to_set().contains(ts[i]));
            }
        }
        assert forall|x: Seq<char>|
            old_names.to_set().union(ts.to_set()).contains(x) implies names4.to_set().contains(
            x,
        ) by {
            if old_names.to_set().contains(x) {
                let k0 = choose|k0: int| 0 <= k0 < old_names.len() && old_names[k0] == x;
                crate::store::lemma_entry_topic_member(s, eid, k0);
                let tid = old_tids[k0];
                assert(old_tids.to_set().contains(tid));
                assert(tids4.to_set().contains(tid));
                assert(tids4.contains(tid));
                let k = choose|k: int| 0 <= k < tids4.len() && tids4[k] == tid;
                crate::store::lemma_entry_topic_member(s4, eid, k);
                assert(s4.topic_name_of_id(tid) == s.topic_name_of_id(tid));
                assert(names4[k] == x);
                assert(names4.contains(names4[k]));
            } else {
                let i = choose|i: int| 0 <= i < ts.len() && ts[i] == x;
                assert(ids.to_set().contains(ids[i]));
                assert(tids4.to_set().contains(ids[i]));
                assert(tids4.contains(ids[i]));
                let k = choose|k: int| 0 <= k < tids4.len() && tids4[k] == ids[i];
                crate::store::lemma_entry_topic_member(s4, eid, k);
                assert(names4[k] == x);
                assert(names4.contains(names4[k]));
            }
        }
    }
}

/// Edit precedence, removal: editing with `remove_topics` leaves the entry
/// with its old topics except the removed names.
pub proof fn lemma_edit_removes_topics(s: StoreModel, old_name: Seq<char>, rt: Seq<Seq<char>>)
    requires
        s.wf(),
        s.has_entry_named(old_name),
    ensures
        ({
            let (s5, res) = crate::rlist::spec_edit(
                s,
                old_name,
                None,
                None,
                None,
                None,
                None,
                false,
                Some(rt),
            );
            res matches Ok(e) && e.topics.to_set() == s.link_topic_names(
                s.entry_named(old_name).entry_id,
            ).to_set().difference(rt.to_set())
        }),
{
    let idx = s.entry_index_named(old_name);
    assert(0 <= idx < s.entries.len() && s.entries[idx].name == old_name);
    let eid = s.entries[idx].entry_id;
    let keep = |l: LinkModel|
        !(l.entry_id == eid && rt.contains(s.topic_name_of_id(l.topic_id)));
    let s5 = crate::db::entry::spec_unlink_by_names(s, eid, rt);
    crate::store::lemma_filter_distinct(s.links, keep);
    crate::store::lemma_wf_with_links(s, s.links.filter(keep));
    let epred = |l: LinkModel| l.entry_id == eid;
    let names5 = s5.link_topic_names(eid);
    let tids5 = s5.topic_ids_of(eid);
    let old_names = s.link_topic_names(eid);
    let old_tids = s.topic_ids_of(eid);
    let f5 = s5.links.filter(epred);
    let f = s.links.filter(epred);
    crate::store::lemma_filter_distinct(s5.links, epred);
    crate::store::lemma_filter_distinct(s.links, epred);
    assert(names5.to_set() =~= old_names.to_set().difference(rt.to_set())) by {
        assert forall|x: Seq<char>| names5.to_set().contains(x) implies old_names.to_set().contains(
            x,
        ) && !rt.to_set().contains(x) by {
            let k = choose|k: int| 0 <= k < names5.len() && names5[k] == x;
            crate::store::lemma_entry_topic_member(s5, eid, k);
            let l = f5[k];
            assert(l.entry_id == eid) by {
                s5.links.lemma_filter_pred(epred, k);
            }
            assert(s5.links.contains(l));
            let w5 = choose|w: int| 0 <= w < s5.links.len() && s5.links[w] == l;
            assert(s.links.filter(keep).contains(l));
            assert(s.links.contains(l));
            assert(keep(l)) by {
                s.links.lemma_filter_pred(keep, w5);
            }
            assert(!rt.contains(s.topic_name_of_id(l.topic_id)));
            let w = choose|w: int| 0 <= w < s.links.len() && s.links[w] == l;
            assert(s.has_topic_id(s.links[w].topic_id));
            s.links.lemma_filter_contains(epred, w);
            assert(f.contains(l));
            let k0 = choose|k0: int| 0 <= k0 < f.len() && f[k0] == l;
            crate::store::lemma_entry_topic_member(s, eid, k0);
            assert(old_names[k0] == s.topic_name_of_id(l.topic_id));
            crate::store::lemma_topic_name_preserved(s, s5, l.topic_id);
            assert(x == s.topic_name_of_id(l.topic_id));
            assert(old_names.to_set().contains(old_names[k0]));
            assert(!rt.to_set().contains(x));
        }
        assert forall|x: Seq<char>|
            old_names.to_set().contains(x) && !rt.to_set().contains(x) implies names5
            .to_set().contains(x) by {
            let k0 = choose|k0: int| 0 <= k0 < old_names.len() && old_names[k0] == x;
            crate::store::lemma_entry_topic_member(s, eid, k0);
            let l = f[k0];
            assert(l.entry_id == eid) by {
                s.links.lemma_filter_pred(epred, k0);
            }
            assert(s.links.contains(l));
            let w = choose|w: int| 0 <= w < s.links.len() && s.links[w] == l;
            assert(x == s.topic_name_of_id(l.topic_id));
            assert(keep(l));
            s.links.lemma_filter_contains(keep, w);
            assert(s5.links.contains(l));
            let w5 = choose|w5: int| 0 <= w5 < s5.links.len() && s5.links[w5] == l;
            s5.links.lemma_filter_contains(epred, w5);
            assert(f5.contains(l));
            let k = choose|k: int| 0 <= k < f5.len() && f5[k] == l;
            crate::store::lemma_entry_topic_member(s5, eid, k);
            crate::store::lemma_topic_name_preserved(s, s5, l.topic_id);
            assert(names5[k] == x);
            assert(names5.contains(names5[k]));
        }
    }
}

/// A filter that keeps everything is the identity.
proof fn lemma_filter_all_pos<A>(s: Seq<A>, pred: spec_fn(A) -> bool)
    requires
        forall|i: int| 0 <= i < s.len() ==> pred(#[trigger] s[i]),
    ensures
        s.filter(pred) == s,
    decreases s.len(),
{
    reveal(Seq::filter);
    if s.len() > 0 {
        lemma_filter_all_pos(s.drop_last(), pred);
        assert(s.filter(pred) =~= s);
    }
}

/// Entry creation keeps a well-formed store well-formed.
proof fn lemma_create_wf(
    s: StoreModel,
    name: Seq<char>,
    url: Seq<char>,
    author: Option<Seq<char>>,
    added: Seq<char>,
)
    requires
        s.wf(),
    ensures
        spec_create(s, name, url, author, added).0.wf(),
{
    let s2 = spec_create(s, name, url, author, added).0;
    if !s.has_entry_named(name) && !s.has_url(url) && s.next_entry_id != i64::MAX {
        assert(forall|j: int|
            0 <= j < s.entries.len() ==> (#[trigger] s2.entries[j]) == s.entries[j]);
        assert forall|a: int|
            0 <= a < s2.links.len() implies s2.has_entry_id((#[trigger] s2.links[a]).entry_id)
            && s2.has_topic_id(s2.links[a].topic_id) by {
            assert(s.links[a] == s2.links[a]);
            assert(s.has_entry_id(s.links[a].entry_id));
            let we = choose|k: int|
                0 <= k < s.entries.len() && (#[trigger] s.entries[k]).entry_id
                    == s.links[a].entry_id;
            assert(s2.entries[we].entry_id == s2.links[a].entry_id);
            assert(s.has_topic_id(s.links[a].topic_id));
            let wt = choose|k: int|
                0 <= k < s.topics.len() && (#[trigger] s.topics[k]).topic_id
                    == s.links[a].topic_id;
            assert(s2.topics[wt].topic_id == s2.links[a].topic_id);
        }
    }
}

/// Linking fresh, pairwise-distinct pairs appends exactly those pairs to
/// the link relation, in order.
proof fn lemma_associate_fresh(s: StoreModel, entry_id: int, ids: Seq<int>)
    requires
        ids.no_duplicates(),
        forall|i: int|
            0 <= i < ids.len() ==> !s.links.contains(
                LinkModel { entry_id, topic_id: #[trigger] ids[i] },
            ),
    ensures
        spec_associate(s, entry_id, ids).links == s.links + ids.map_values(
            |id: int| LinkModel { entry_id, topic_id: id },
        ),
    decreases ids.len(),
{
    let f = |id: int| LinkModel { entry_id, topic_id: id };
    if ids.len() == 0 {
        assert(spec_associate(s, entry_id, ids).links =~= s.links + ids.map_values(f));
    } else {
        assert(forall|i: int| 0 <= i < ids.len() - 1 ==> ids.drop_last()[i] == ids[i]);
        lemma_associate_fresh(s, entry_id, ids.drop_last());
        let s1 = spec_associate(s, entry_id, ids.drop_last());
        let l = LinkModel { entry_id, topic_id: ids.last() };
        assert(!s1.links.contains(l)) by {
            if s1.links.contains(l) {
                let w = choose|w: int| 0 <= w < s1.links.len() && s1.links[w] == l;
                if w < s.links.len() {
                    assert(s.links[w] == l);
                    assert(s.links.contains(l));
                } else {
                    let j = w - s.links.len();
                    assert(s1.links[w] == ids.drop_last().map_values(f)[j]);
                    assert(ids.drop_last()[j] == ids.last());
                    assert(ids[j] == ids[ids.len() - 1]);
                }
            }
        }
        assert(spec_associate(s, entry_id, ids).links =~= s.links + ids.map_values(f));
    }
}

/// In a well-formed store an entry's topic ids and topic names are each
/// free of duplicates.
proof fn lemma_entry_topics_distinct(s: StoreModel, entry_id: int)
    requires
        s.wf(),
    ensures
        s.topic_ids_of(entry_id).no_duplicates(),
        s.link_topic_names(entry_id).no_duplicates(),
        s.link_topic_names(entry_id).len() == s.topic_ids_of(entry_id).len(),
{
    let pred = |l: LinkModel| l.entry_id == entry_id;
    let f = s.links.filter(pred);
    crate::store::lemma_filter_distinct(s.links, pred);
    assert forall|i: int, j: int|
        0 <= i < j < s.topic_ids_of(entry_id).len() implies s.topic_ids_of(entry_id)[i]
        != s.topic_ids_of(entry_id)[j] by {
        assert(f[i] != f[j]);
        s.links.lemma_filter_pred(pred, i);
        s.links.lemma_filter_pred(pred, j);
        assert(f[i].entry_id == entry_id && f[j].entry_id == entry_id);
    }
    assert forall|i: int, j: int|
        0 <= i < j < s.link_topic_names(entry_id).len() implies s.link_topic_names(entry_id)[i]
        != s.link_topic_names(entry_id)[j] by {
        crate::store::lemma_entry_topic_member(s, entry_id, i);
        crate::store::lemma_entry_topic_member(s, entry_id, j);
        let ta = s.topic_ids_of(entry_id)[i];
        let tb = s.topic_ids_of(entry_id)[j];
        assert(ta != tb);
        let wa = choose|k: int| 0 <= k < s.topics.len() && (#[trigger] s.topics[k]).topic_id == ta;
        let wb = choose|k: int| 0 <= k < s.topics.len() && (#[trigger] s.topics[k]).topic_id == tb;
        crate::store::lemma_topic_name_determined(s, wa);
        crate::store::lemma_topic_name_determined(s, wb);
        assert(wa != wb);
        if wa < wb {
            assert(s.topics[wa].name != s.topics[wb].name);
        } else {
            assert(s.topics[wb].name != s.topics[wa].name);
        }
    }
}

/// Bulk topic creation succeeds and keeps the topic relation within a
/// finite pool of names: when every topic name in play is drawn from a pool
/// smaller than the id space, the id space cannot run out.
proof fn lemma_create_topics_ok_bounded(s: StoreModel, names: Seq<Seq<char>>, pool: Set<Seq<char>>)
    requires
        s.wf(),
        s.next_topic_id == s.topics.len() + 1,
        pool.finite(),
        pool.len() < i64::MAX,
        forall|j: int| 0 <= j < s.topics.len() ==> pool.contains((#[trigger] s.topics[j]).name),
        forall|i: int| 0 <= i < names.len() ==> pool.contains(#[trigger] names[i]),
    ensures
        ({
            let (s2, ids, ok) = crate::db::topic::spec_create_topics(s, names);
            &&& ok
            &&& s2.next_topic_id == s2.topics.len() + 1
            &&& forall|j: int|
                0 <= j < s2.topics.len() ==> pool.contains((#[trigger] s2.topics[j]).name)
        }),
    decreases names.len(),
{
    if names.len() > 0 {
        assert(forall|i: int| 0 <= i < names.len() - 1 ==> names.drop_last()[i] == names[i]);
        lemma_create_topics_ok_bounded(s, names.drop_last(), pool);
        crate::db::topic::lemma_create_topics_wf(s, names.drop_last());
        let (s1, ids1, ok1) = crate::db::topic::spec_create_topics(s, names.drop_last());
        let name = names.last();
        if !s1.has_topic_named(name) {
            // the topic relation is strictly smaller than the pool, so the
            // id counter is strictly below the id space's ceiling
            let name_seq = s1.topics.map_values(|t: crate::store::TopicRowModel| t.name);
            assert(name_seq.no_duplicates()) by {
                assert forall|a: int, b: int|
                    0 <= a < b < name_seq.len() implies name_seq[a] != name_seq[b] by {
                    assert(s1.topics[a].name != s1.topics[b].name);
                }
            }
            name_seq.unique_seq_to_set();
            let a_set = name_seq.to_set();
            assert(!a_set.contains(name)) by {
                if a_set.contains(name) {
                    let w = choose|w: int| 0 <= w < name_seq.len() && name_seq[w] == name;
                    assert(s1.topics[w].name == name);
                    assert(s1.has_topic_named(name));
                }
            }
            assert(a_set.insert(name).subset_of(pool)) by {
                assert forall|x: Seq<char>| a_set.insert(name).contains(x) implies pool.contains(
                    x,
                ) by {
                    if x == name {
                    } else {
                        let w = choose|w: int| 0 <= w < name_seq.len() && name_seq[w] == x;
                        assert(s1.topics[w].name == x);
                    }
                }
            }
            vstd::set_lib::lemma_len_subset(a_set.insert(name), pool);
            assert(a_set.insert(name).len() == a_set.len() + 1);
            assert(s1.topics.len() < pool.len());
            assert(s1.next_topic_id < i64::MAX);
        }
    }
}

/// The export-relevant content of a sequence of aggregates: everything but
/// the creation stamp.
pub open spec fn content_of(ems: Seq<EntryModel>) -> Seq<
    (Seq<char>, Seq<char>, Option<Seq<char>>, Seq<Seq<char>>),
> {
    ems.map_values(|e: EntryModel| (e.name, e.url, e.author, e.topics))
}

/// The names the topic relation of a store holds.
pub open spec fn topic_name_pool(s: StoreModel) -> Set<Seq<char>> {
    s.topics.map_values(|t: crate::store::TopicRowModel| t.name).to_set()
}

/// Importing an exported prefix into an empty store reproduces it: every
/// entry is created (under fresh ids, with the given stamps) and carries
/// the same name, url, author and topic list.
#[verifier::rlimit(100)]
#[verifier::spinoff_prover]
proof fn lemma_import_prefix(s: StoreModel, stamps: Seq<Seq<char>>, k: int)
    requires
        s.wf(),
        stamps.len() == s.entries.len(),
        s.entries.len() < i64::MAX,
        s.topics.len() < i64::MAX,
        0 <= k <= s.entries.len(),
    ensures
        ({
            let (s2, count) = crate::rlist::spec_import(
                crate::store::empty_store(),
                s.aggregate().take(k),
                stamps.take(k),
            );
            &&& s2.wf()
            &&& count == k
            &&& s2.entries.len() == k
            &&& s2.next_entry_id == k + 1
            &&& s2.next_topic_id == s2.topics.len() + 1
            &&& forall|j: int|
                0 <= j < s2.topics.len() ==> topic_name_pool(s).contains(
                    (#[trigger] s2.topics[j]).name,
                )
            &&& forall|i: int|
                0 <= i < k ==> (#[trigger] s2.entries[i]).entry_id == i + 1 && s2.entries[i].name
                    == s.entries[i].name && s2.entries[i].url == s.entries[i].url
                    && s2.entries[i].author == s.entries[i].author && s2.entries[i].added
                    == stamps[i]
            &&& forall|i: int|
                0 <= i < k ==> s2.link_topic_names((#[trigger] s2.entries[i]).entry_id)
                    == s.aggregate()[i].topics
        }),
    decreases k,
{
    let agg = s.aggregate();
    let pool = topic_name_pool(s);
    let name_seq = s.topics.map_values(|t: crate::store::TopicRowModel| t.name);
    assert(name_seq.no_duplicates()) by {
        assert forall|a: int, b: int|
            0 <= a < b < name_seq.len() implies name_seq[a] != name_seq[b] by {
            assert(s.topics[a].name != s.topics[b].name);
        }
    }
    name_seq.unique_seq_to_set();
    vstd::seq_lib::seq_to_set_is_finite(name_seq);
    assert(pool.finite() && pool.len() == s.topics.len());
    if k == 0 {
        assert(agg.take(0) =~= Seq::<EntryModel>::empty());
        assert(stamps.take(0) =~= Seq::<Seq<char>>::empty());
    } else {
        lemma_import_prefix(s, stamps, k - 1);
        assert(agg.take(k).drop_last() =~= agg.take(k - 1));
        assert(stamps.take(k).drop_last() =~= stamps.take(k - 1));
        assert(agg.take(k).last() == agg[k - 1]);
        assert(stamps.take(k).last() == stamps[k - 1]);
        let (s1, c1) = crate::rlist::spec_import(
            crate::store::empty_store(),
            agg.take(k - 1),
            stamps.take(k - 1),
        );
        let e = agg[k - 1];
        let st = stamps[k - 1];
        let src_row = s.entries[k - 1];
        assert(e == s.entry_aggregate(src_row));
        let eid_src = src_row.entry_id;
        // creation succeeds: the first k-1 imported names and urls are the
        // source's first k-1, all distinct from the k-th by well-formedness
        assert(!s1.has_entry_named(e.name)) by {
            if s1.has_entry_named(e.name) {
                let i = choose|i: int|
                    0 <= i < s1.entries.len() && (#[trigger] s1.entries[i]).name == e.name;
                assert(s.entries[i].name == s.entries[k - 1].name);
                lemma_entries_unique(s, i, k - 1);
            }
        }
        assert(!s1.has_url(e.url)) by {
            if s1.has_url(e.url) {
                let i = choose|i: int|
                    0 <= i < s1.entries.len() && (#[trigger] s1.entries[i]).url == e.url;
                assert(s.entries[i].url == s.entries[k - 1].url);
                lemma_entries_unique(s, i, k - 1);
            }
        }
        assert(s1.next_entry_id == k && k < i64::MAX);
        let (s1b, cres) = spec_create(s1, e.name, e.url, e.author, st);
        assert(cres matches Ok(p) && p.0 == k);
        lemma_create_wf(s1, e.name, e.url, e.author, st);
        assert(s1b.topics == s1.topics && s1b.links == s1.links);
        // the topic names of the k-th entry come from the source's pool
        lemma_entry_topics_distinct(s, eid_src);
        assert(e.topics == s.link_topic_names(eid_src));
        assert forall|i: int| 0 <= i < e.topics.len() implies pool.contains(
            #[trigger] e.topics[i],
        ) by {
            crate::store::lemma_entry_topic_member(s, eid_src, i);
            let tid = s.topic_ids_of(eid_src)[i];
            let w = choose|w: int|
                0 <= w < s.topics.len() && (#[trigger] s.topics[w]).topic_id == tid;
            crate::store::lemma_topic_name_determined(s, w);
            assert(name_seq[w] == e.topics[i]);
            assert(name_seq.contains(name_seq[w]));
        }
        assert(s1b.next_topic_id == s1b.topics.len() + 1);
        assert(forall|j: int|
            0 <= j < s1b.topics.len() ==> pool.contains((#[trigger] s1b.topics[j]).name));
        lemma_create_topics_ok_bounded(s1b, e.topics, pool);
        crate::db::topic::lemma_create_topics_wf(s1b, e.topics);
        crate::db::topic::lemma_create_topics_props(s1b, e.topics);
        let (s3, ids, ok) = crate::db::topic::spec_create_topics(s1b, e.topics);
        assert(ok);
        assert(ids.len() == e.topics.len());
        // the fresh entry has no links yet, and the created ids are distinct
        assert(s3.links == s1.links);
        assert forall|i: int|
            0 <= i < s1.links.len() implies (#[trigger] s1.links[i]).entry_id != k by {
            assert(s1.has_entry_id(s1.links[i].entry_id));
            let w = choose|w: int|
                0 <= w < s1.entries.len() && (#[trigger] s1.entries[w]).entry_id
                    == s1.links[i].entry_id;
            assert(s1.entries[w].entry_id == w + 1);
        }
        assert(ids.no_duplicates()) by {
            assert forall|a: int, b: int| 0 <= a < b < ids.len() implies ids[a] != ids[b] by {
                if ids[a] == ids[b] {
                    assert(s3.topic_name_of_id(ids[a]) == e.topics[a]);
                    assert(s3.topic_name_of_id(ids[b]) == e.topics[b]);
                    assert(e.topics[a] != e.topics[b]);
                }
            }
        }
        assert(forall|i: int|
            0 <= i < ids.len() ==> !s3.links.contains(
                LinkModel { entry_id: k, topic_id: #[trigger] ids[i] },
            )) by {
            assert forall|i: int|
                0 <= i < ids.len() implies !s3.links.contains(
                LinkModel { entry_id: k, topic_id: #[trigger] ids[i] },
            ) by {
                if s3.links.contains(LinkModel { entry_id: k, topic_id: ids[i] }) {
                    let w = choose|w: int|
                        0 <= w < s3.links.len() && s3.links[w] == (LinkModel {
                            entry_id: k,
                            topic_id: ids[i],
                        });
                    assert(s1.links[w].entry_id != k);
                }
            }
        }
        lemma_associate_fresh(s3, k, ids);
        assert(s3.has_entry_id(k)) by {
            assert(s3.entries[k - 1].entry_id == k);
        }
        assert(forall|t: int| 0 <= t < ids.len() ==> s3.has_topic_id(#[trigger] ids[t]));
        lemma_associate_wf(s3, k, ids);
        crate::db::entry::lemma_associate_frame(s3, k, ids);
        let s4 = spec_associate(s3, k, ids);
        let mapped = ids.map_values(|id: int| LinkModel { entry_id: k, topic_id: id });
        assert(s4.links == s3.links + mapped);
        // topic names carried by ids are preserved into the final store
        assert forall|i: int|
            0 <= i < ids.len() implies s4.has_topic_id(#[trigger] ids[i])
                && s4.topic_name_of_id(ids[i]) == e.topics[i] by {
            crate::store::lemma_topic_name_preserved(s3, s4, ids[i]);
        }
        // the new entry's topic list is exactly the source entry's
        let lpred = |l: LinkModel| l.entry_id == k;
        assert(s4.topic_ids_of(k) == ids) by {
            vstd::prelude::Seq::filter_distributes_over_add(s3.links, mapped, lpred);
            assert(s3.links.filter(lpred) =~= Seq::<LinkModel>::empty()) by {
                assert(forall|i: int|
                    0 <= i < s3.links.len() ==> !lpred(#[trigger] s3.links[i]));
                s3.links.lemma_all_neg_filter_empty(lpred);
            }
            lemma_filter_all_pos(mapped, lpred);
            assert(s4.links.filter(lpred) =~= mapped);
            assert(s4.topic_ids_of(k) =~= ids);
        }
        assert(s4.link_topic_names(k) == e.topics) by {
            crate::store::lemma_link_topic_names_via_ids(s4, k);
            assert(s4.link_topic_names(k) =~= e.topics);
        }
        // older entries keep their topic lists
        assert forall|i: int|
            0 <= i < k - 1 implies s4.link_topic_names(
            (#[trigger] s1.entries[i]).entry_id,
        ) == s1.link_topic_names(s1.entries[i].entry_id) by {
            let eid = s1.entries[i].entry_id;
            assert(eid == i + 1);
            let p = |l: LinkModel| l.entry_id == eid;
            assert(s4.topic_ids_of(eid) == s1.topic_ids_of(eid)) by {
                vstd::prelude::Seq::filter_distributes_over_add(s3.links, mapped, p);
                assert(mapped.filter(p) =~= Seq::<LinkModel>::empty()) by {
                    assert forall|t: int| 0 <= t < mapped.len() implies !p(
                        #[trigger] mapped[t],
                    ) by {
                        assert(mapped[t].entry_id == k);
                    }
                    mapped.lemma_all_neg_filter_empty(p);
                }
                assert(s4.links.filter(p) =~= s1.links.filter(p));
            }
            crate::store::lemma_link_topic_names_via_ids(s1, eid);
            crate::store::lemma_link_topic_names_via_ids(s4, eid);
            assert forall|t: int|
                0 <= t < s1.topic_ids_of(eid).len() implies s4.topic_name_of_id(
                #[trigger] s1.topic_ids_of(eid)[t],
            ) == s1.topic_name_of_id(s1.topic_ids_of(eid)[t]) by {
                crate::store::lemma_entry_topic_member(s1, eid, t);
                let tid = s1.topic_ids_of(eid)[t];
                crate::store::lemma_topic_name_preserved(s1, s1b, tid);
                assert(s1b.has_topic_id(tid));
                assert(s3.has_topic_id(tid) && s3.topic_name_of_id(tid) == s1b.topic_name_of_id(
                    tid,
                ));
                crate::store::lemma_topic_name_preserved(s3, s4, tid);
            }
            assert(s4.link_topic_names(eid) =~= s1.link_topic_names(eid));
        }
        // assemble the invariant for k
        assert forall|i: int|
            0 <= i < k implies s4.link_topic_names((#[trigger] s4.entries[i]).entry_id)
            == agg[i].topics by {
            assert(s4.entries[i].entry_id == i + 1);
            if i < k - 1 {
                assert(s4.entries[i] == s1.entries[i]);
                assert(s4.link_topic_names(s1.entries[i].entry_id) == s1.link_topic_names(
                    s1.entries[i].entry_id,
                ));
                assert(s1.link_topic_names(s1.entries[i].entry_id) == agg[i].topics);
            }
        }
    }
}

/// Round trip: exporting a well-formed store and importing the entries into
/// an empty store reproduces every entry's name, url, author and topic
/// list; only the creation stamps may differ, and every entry is imported.
pub proof fn lemma_export_import_round_trip(s: StoreModel, stamps: Seq<Seq<char>>)
    requires
        s.wf(),
        stamps.len() == s.entries.len(),
        s.entries.len() < i64::MAX,
        s.topics.len() < i64::MAX,
    ensures
        ({
            let (s2, count) = crate::rlist::spec_import(
                crate::store::empty_store(),
                s.aggregate(),
                stamps,
            );
            &&& count == s.entries.len()
            &&& s2.wf()
            &&& content_of(s2.aggregate()) == content_of(s.aggregate())
        }),
{
    let n = s.entries.len() as int;
    lemma_import_prefix(s, stamps, n);
    assert(s.aggregate().take(n) =~= s.aggregate());
    assert(stamps.take(n) =~= stamps);
    let (s2, count) = crate::rlist::spec_import(crate::store::empty_store(), s.aggregate(), stamps);
    assert forall|i: int|
        0 <= i < n implies content_of(s2.aggregate())[i] == content_of(s.aggregate())[i] by {
        assert(s2.aggregate()[i] == s2.entry_aggregate(s2.entries[i]));
        assert(s2.link_topic_names(s2.entries[i].entry_id) == s.aggregate()[i].topics);
    }
    assert(content_of(s2.aggregate()) =~= content_of(s.aggregate()));
}

/// Topic filter semantics: with a non-empty topic list given, the default
/// semantics match exactly when the entry's topics contain every listed
/// topic, and the `or` semantics match exactly when the entry carries at
/// least one of them; an empty list applies no topic filtering in either
/// mode.
pub proof fn lemma_topic_filter_semantics(topics: Seq<Seq<char>>, wanted: Seq<Seq<char>>)
    ensures
        topics_pass(topics, Some(wanted), false) <==> wanted.to_set().subset_of(topics.to_set()),
        topics_pass(topics, Some(wanted), true) <==> (wanted.len() == 0 || exists|t: Seq<char>|
            wanted.to_set().contains(t) && topics.to_set().contains(t)),
        wanted.len() == 0 ==> topics_pass(topics, Some(wanted), false) && topics_pass(
            topics,
            Some(wanted),
            true,
        ),
{
    let wopt: Option<Seq<Seq<char>>> = Some(wanted);
    assert(wopt->Some_0 == wanted);
    assert(topics_pass(topics, wopt, false) == (forall|i: int|
        0 <= i < wanted.len() ==> topics.contains(#[trigger] wanted[i])));
    assert(topics_pass(topics, wopt, true) == (wanted.len() == 0 || exists|i: int|
        0 <= i < wanted.len() && topics.contains(#[trigger] wanted[i])));
    if topics_pass(topics, Some(wanted), false) {
        assert forall|t: Seq<char>| wanted.to_set().contains(t) implies topics.to_set().contains(
            t,
        ) by {
            let i = choose|i: int| 0 <= i < wanted.len() && wanted[i] == t;
            assert(topics.contains(wanted[i]));
        }
    }
    if wanted.to_set().subset_of(topics.to_set()) {
        assert forall|i: int| 0 <= i < wanted.len() implies topics.contains(
            #[trigger] wanted[i],
        ) by {
            assert(wanted.to_set().contains(wanted[i]));
        }
    }
    if wanted.len() > 0 && topics_pass(topics, Some(wanted), true) {
        let i = choose|i: int| 0 <= i < wanted.len() && topics.contains(#[trigger] wanted[i]);
        assert(wanted.to_set().contains(wanted[i]) && topics.to_set().contains(wanted[i]));
    }
    if exists|t: Seq<char>| wanted.to_set().contains(t) && topics.to_set().contains(t) {
        let t = choose|t: Seq<char>| wanted.to_set().contains(t) && topics.to_set().contains(t);
        let i = choose|i: int| 0 <= i < wanted.len() && wanted[i] == t;
        assert(0 <= i < wanted.len() && topics.contains(wanted[i]));
    }
}

} // verus!
